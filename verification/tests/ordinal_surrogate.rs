use openentropy_core::consciousness_ordinal::{
    factorial, forbidden_patterns, index_to_pattern, ordinal_distribution, ordinal_pattern,
    pattern_to_index,
};
use openentropy_core::consciousness_rqa::{diagonal_lines, longest_diagonal, vertical_lines};
use openentropy_core::consciousness_surrogate::{shuffle_surrogate, Xorshift64};

#[test]
fn ordinal_pattern_basic() {
    let p = ordinal_pattern(&[30, 10, 20]);
    assert_eq!(p, vec![2, 0, 1]);
}

#[test]
fn ordinal_pattern_ascending() {
    let p = ordinal_pattern(&[1, 2, 3]);
    assert_eq!(p, vec![0, 1, 2]);
}

#[test]
fn ordinal_pattern_descending() {
    let p = ordinal_pattern(&[3, 2, 1]);
    assert_eq!(p, vec![2, 1, 0]);
}

#[test]
fn pattern_to_index_identity() {
    assert_eq!(pattern_to_index(&[0, 1, 2]), 0);
    assert_eq!(pattern_to_index(&[2, 1, 0]), 5);
}

#[test]
fn index_to_pattern_roundtrip() {
    for order in 2..=4 {
        let n = factorial(order);
        for idx in 0..n {
            let pat = index_to_pattern(idx, order);
            let recovered = pattern_to_index(&pat);
            assert_eq!(recovered, idx, "order={order}, idx={idx}, pat={pat:?}");
        }
    }
}

#[test]
fn ordinal_distribution_counts() {
    let counts = ordinal_distribution(&[1, 2, 3, 4], 2);
    assert_eq!(counts.len(), 2);
    assert_eq!(counts[0], 3);
    assert_eq!(counts[1], 0);
}

#[test]
fn forbidden_patterns_monotone() {
    let data: Vec<u8> = (0..200).collect();
    let forbidden = forbidden_patterns(&data, 3);
    assert_eq!(forbidden.len(), 5);
}

#[test]
fn forbidden_patterns_insufficient_data() {
    let data = vec![1u8, 2, 3];
    let forbidden = forbidden_patterns(&data, 3);
    assert!(forbidden.is_empty());
}

#[test]
fn xorshift64_deterministic() {
    let mut rng1 = Xorshift64::new(42);
    let mut rng2 = Xorshift64::new(42);
    for _ in 0..100 {
        assert_eq!(rng1.next(), rng2.next());
    }
}

#[test]
fn xorshift64_different_seeds() {
    let mut rng1 = Xorshift64::new(42);
    let mut rng2 = Xorshift64::new(99);
    let a: Vec<u64> = (0..10).map(|_| rng1.next()).collect();
    let b: Vec<u64> = (0..10).map(|_| rng2.next()).collect();
    assert_ne!(a, b);
}

#[test]
fn shuffle_preserves_histogram() {
    let data: Vec<u8> = (0..100).map(|i| (i % 10) as u8).collect();
    let surrogate = shuffle_surrogate(&data, 42);
    assert_eq!(data.len(), surrogate.len());
    let mut orig_counts = [0usize; 256];
    let mut surr_counts = [0usize; 256];
    for &b in &data {
        orig_counts[b as usize] += 1;
    }
    for &b in &surrogate {
        surr_counts[b as usize] += 1;
    }
    assert_eq!(orig_counts, surr_counts);
}

#[test]
fn shuffle_changes_order() {
    let data: Vec<u8> = (0..100).collect();
    let surrogate = shuffle_surrogate(&data, 42);
    assert_ne!(data, surrogate);
}

#[test]
fn shuffle_empty() {
    let empty: Vec<u8> = vec![];
    let result = shuffle_surrogate(&empty, 42);
    assert!(result.is_empty());
}

#[test]
fn shuffle_single() {
    let single = vec![42u8];
    let result = shuffle_surrogate(&single, 42);
    assert_eq!(result, vec![42]);
}

// ---------------------------------------------------------------------------
// Further cases
// ---------------------------------------------------------------------------

#[test]
fn factorial_values() {
    assert_eq!(factorial(0), 1);
    assert_eq!(factorial(1), 1);
    assert_eq!(factorial(5), 120);
    assert_eq!(factorial(10), 3_628_800);
}

#[test]
fn ordinal_pattern_ties_keep_position_order() {
    // Equal values rank by position.
    assert_eq!(ordinal_pattern(&[5, 5, 5]), vec![0, 1, 2]);
    assert_eq!(ordinal_pattern(&[7, 3, 7, 3]), vec![2, 0, 3, 1]);
}

#[test]
fn lehmer_index_values() {
    assert_eq!(pattern_to_index(&[1, 0, 2]), 2);
    assert_eq!(index_to_pattern(2, 3), vec![1, 0, 2]);
    assert_eq!(index_to_pattern(23, 4), vec![3, 2, 1, 0]);
    assert_eq!(pattern_to_index(&[]), 0);
}

#[test]
fn ordinal_distribution_sums_to_windows() {
    let data: Vec<u8> = (0..50).map(|i| ((i * 37 + 11) % 251) as u8).collect();
    let counts = ordinal_distribution(&data, 3);
    assert_eq!(counts.len(), 6);
    assert_eq!(counts.iter().sum::<usize>(), data.len() - 2);
}

#[test]
fn forbidden_patterns_descending_data() {
    let data: Vec<u8> = (0..100).rev().collect();
    let forbidden = forbidden_patterns(&data, 3);
    assert_eq!(forbidden.len(), 5);
    assert!(!forbidden.contains(&vec![2, 1, 0]));
}

#[test]
fn xorshift64_first_step() {
    let mut rng = Xorshift64::new(1);
    let mut x: u64 = 1;
    x ^= x << 13;
    x ^= x >> 7;
    x ^= x << 17;
    assert_eq!(rng.next(), x);
    // A zero seed would stay zero forever; it starts from one instead.
    let mut zero = Xorshift64::new(0);
    assert_eq!(zero.next(), x);
    let mut idx = Xorshift64::new(9);
    for _ in 0..20 {
        assert!(idx.next_usize(7) < 7);
    }
}

#[test]
fn shuffle_is_deterministic_per_seed() {
    let data: Vec<u8> = (0..64).collect();
    assert_eq!(shuffle_surrogate(&data, 5), shuffle_surrogate(&data, 5));
    let mut sorted = shuffle_surrogate(&data, 5);
    sorted.sort();
    assert_eq!(sorted, data);
}

fn sample_matrix() -> Vec<Vec<bool>> {
    vec![
        vec![true, true, false, true],
        vec![true, true, true, false],
        vec![false, true, true, true],
        vec![true, false, true, true],
    ]
}

#[test]
fn rqa_diagonal_lines_above_main_diagonal() {
    let rm = sample_matrix();
    assert_eq!(diagonal_lines(&rm, 1), vec![3, 1]);
    assert_eq!(diagonal_lines(&rm, 2), vec![3]);
    assert_eq!(longest_diagonal(&rm), 3);
    assert!(diagonal_lines(&[], 1).is_empty());
    assert_eq!(longest_diagonal(&[vec![true]]), 0);
}

#[test]
fn rqa_vertical_lines_per_column() {
    let rm = sample_matrix();
    assert_eq!(vertical_lines(&rm, 1), vec![2, 1, 3, 3, 1, 2]);
    assert_eq!(vertical_lines(&rm, 2), vec![2, 3, 3, 2]);
    let all = vec![vec![true; 3]; 3];
    assert_eq!(vertical_lines(&all, 1), vec![3, 3, 3]);
    assert_eq!(longest_diagonal(&all), 2);
}

#[test]
fn lehmer_code_is_a_bijection() {
    let mut seen = std::collections::HashSet::new();
    for idx in 0..factorial(4) {
        let p = index_to_pattern(idx, 4);
        assert!(seen.insert(p.clone()), "pattern {p:?} decoded twice");
        assert_eq!(index_to_pattern(pattern_to_index(&p), 4), p);
    }
    assert_eq!(seen.len(), 24);
    let w = ordinal_pattern(&[9, 3, 7, 1, 5]);
    assert_eq!(index_to_pattern(pattern_to_index(&w), 5), w);
}
