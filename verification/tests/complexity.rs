use openentropy_core::consciousness_stats::{
    lz76_phrase_count, sample_entropy_counts, stream_bits, template_match_counts,
};

#[test]
fn stream_bits_takes_most_significant_bit_first() {
    assert_eq!(
        stream_bits(&[0b1010_0001, 0x80]),
        vec![1, 0, 1, 0, 0, 0, 0, 1, 1, 0, 0, 0, 0, 0, 0, 0]
    );
    assert!(stream_bits(&[]).is_empty());
}

#[test]
fn lz76_empty_buffer_is_one_phrase() {
    assert_eq!(lz76_phrase_count(&[]), 1);
}

#[test]
fn lz76_small_buffer_phrases() {
    // 1 | 0 | 11 | 00 | 000
    assert_eq!(lz76_phrase_count(&[0b1011_0000]), 5);
}

#[test]
fn lz76_constant_buffer_grows_logarithmically() {
    // Phrases double in length: 1 + floor(log2(bits)).
    assert_eq!(lz76_phrase_count(&[0xFF]), 4);
    assert_eq!(lz76_phrase_count(&[0u8; 100]), 10);
    let c = lz76_phrase_count(&[0u8; 100]);
    assert!(1u64 << (c - 1) <= 800);
}

#[test]
fn lz76_mixed_buffer_has_many_phrases() {
    let data: Vec<u8> = (0..100).map(|i| ((i * 137 + 73) % 256) as u8).collect();
    assert_eq!(lz76_phrase_count(&data), 85);
    let ramp: Vec<u8> = (0..16).collect();
    assert_eq!(lz76_phrase_count(&ramp), 16);
    assert!(lz76_phrase_count(&ramp) <= 8 * 16);
}

#[test]
fn lz76_alternating_bits() {
    // 0 | 1 | 010 | 10101 | ... : each phrase copies all that came before.
    assert_eq!(lz76_phrase_count(&[0x55; 4]), 6);
}

#[test]
fn constant_series_templates_all_match() {
    let data = vec![100u8; 100];
    let counts = template_match_counts(&data, 2, 10);
    assert_eq!(counts.len(), 99);
    assert!(counts.iter().all(|&c| c == 99));
    let counts = template_match_counts(&data, 3, 0);
    assert_eq!(counts.len(), 98);
    assert!(counts.iter().all(|&c| c == 98));
}

#[test]
fn alternating_series_matches_every_other_template() {
    let periodic: Vec<u8> = (0..200).map(|i| if i % 2 == 0 { 0 } else { 255 }).collect();
    let counts = template_match_counts(&periodic, 2, 25);
    assert_eq!(counts.len(), 199);
    for (i, &c) in counts.iter().enumerate() {
        assert_eq!(c, if i % 2 == 0 { 100 } else { 99 });
    }
}

#[test]
fn negative_tolerance_matches_nothing_but_empty_templates() {
    let data = [3u8, 3, 3];
    assert_eq!(template_match_counts(&data, 1, -1), vec![0, 0, 0]);
    assert_eq!(template_match_counts(&data, 0, -1), vec![4, 4, 4, 4]);
}

#[test]
fn tolerance_bounds_byte_distance() {
    let data = [10u8, 14, 30];
    // Distances: |10-14| = 4, |10-30| = 20, |14-30| = 16.
    assert_eq!(template_match_counts(&data, 1, 4), vec![2, 2, 1]);
    assert_eq!(template_match_counts(&data, 1, 3), vec![1, 1, 1]);
    assert_eq!(template_match_counts(&data, 1, 20), vec![3, 3, 3]);
}

#[test]
fn sample_entropy_counts_constant_series() {
    let data = vec![128u8; 50];
    // 48 starts, every pair matches at both lengths.
    assert_eq!(sample_entropy_counts(&data, 2, 10), (1128, 1128));
}

#[test]
fn sample_entropy_counts_small_series() {
    // Starts 0..4 hold 1, 2, 1, 2: pairs (0,2) and (1,3) match at length 1;
    // at length 2 only [1,2] = [1,2] does, [2,1] differs from [2,9].
    assert_eq!(sample_entropy_counts(&[1, 2, 1, 2, 9], 1, 0), (2, 1));
}
