use openentropy_core::conditioning::{
    condition, distinct_byte_values, sha256_condition, sha256_condition_bytes, von_neumann_debias,
    xor_fold, ConditioningMode,
};
use sha2::{Digest, Sha256};

#[test]
fn test_condition_raw_passthrough() {
    let data = vec![1, 2, 3, 4, 5];
    let out = condition(&data, 3, ConditioningMode::Raw);
    assert_eq!(out, vec![1, 2, 3]);
}

#[test]
fn test_condition_raw_exact_length() {
    let data: Vec<u8> = (0..100).map(|i| i as u8).collect();
    let out = condition(&data, 100, ConditioningMode::Raw);
    assert_eq!(out, data);
}

#[test]
fn test_condition_raw_truncates() {
    let data: Vec<u8> = (0..100).map(|i| i as u8).collect();
    let out = condition(&data, 50, ConditioningMode::Raw);
    assert_eq!(out.len(), 50);
    assert_eq!(out, &data[..50]);
}

#[test]
fn test_condition_sha256_produces_exact_length() {
    let data = vec![42u8; 100];
    for len in [1, 16, 32, 64, 100, 256] {
        let out = condition(&data, len, ConditioningMode::Sha256);
        assert_eq!(out.len(), len, "SHA256 should produce exactly {len} bytes");
    }
}

#[test]
fn test_sha256_deterministic() {
    let data = vec![42u8; 100];
    let out1 = sha256_condition_bytes(&data, 64);
    let out2 = sha256_condition_bytes(&data, 64);
    assert_eq!(out1, out2, "SHA256 conditioning should be deterministic for same input");
}

#[test]
fn test_sha256_different_inputs_differ() {
    let data1 = vec![1u8; 100];
    let data2 = vec![2u8; 100];
    let out1 = sha256_condition_bytes(&data1, 32);
    let out2 = sha256_condition_bytes(&data2, 32);
    assert_ne!(out1, out2);
}

#[test]
fn test_sha256_empty_input() {
    let out = sha256_condition_bytes(&[], 32);
    assert_eq!(out.len(), 32);
    assert_eq!(out, vec![0u8; 32], "Empty input should produce zero bytes");
}

#[test]
fn test_von_neumann_reduces_size() {
    let input = vec![0b10101010u8; 128];
    let output = von_neumann_debias(&input);
    assert!(output.len() < input.len());
}

#[test]
fn test_von_neumann_known_output() {
    let input = vec![0b10101010u8; 2];
    let output = von_neumann_debias(&input);
    assert_eq!(output.len(), 1);
    assert_eq!(output[0], 0b11111111);
}

#[test]
fn test_von_neumann_alternating_01() {
    let input = vec![0b01010101u8; 2];
    let output = von_neumann_debias(&input);
    assert_eq!(output.len(), 1);
    assert_eq!(output[0], 0b00000000);
}

#[test]
fn test_von_neumann_all_same_discards() {
    let input = vec![0xFF; 100];
    let output = von_neumann_debias(&input);
    assert!(output.is_empty(), "All-ones should produce no output");
}

#[test]
fn test_von_neumann_all_zeros_discards() {
    let input = vec![0x00; 100];
    let output = von_neumann_debias(&input);
    assert!(output.is_empty(), "All-zeros should produce no output");
}

#[test]
fn test_condition_modes_differ() {
    let data: Vec<u8> = (0..256).map(|i| i as u8).collect();
    let raw = condition(&data, 64, ConditioningMode::Raw);
    let sha = condition(&data, 64, ConditioningMode::Sha256);
    assert_ne!(raw, sha);
}

#[test]
fn test_conditioning_mode_display() {
    assert_eq!(ConditioningMode::Raw.to_string(), "raw");
    assert_eq!(ConditioningMode::VonNeumann.to_string(), "von_neumann");
    assert_eq!(ConditioningMode::Sha256.to_string(), "sha256");
}

#[test]
fn test_conditioning_mode_default() {
    assert_eq!(ConditioningMode::default(), ConditioningMode::Sha256);
}

#[test]
fn test_xor_fold_basic() {
    let data = vec![0xFF, 0x00, 0xAA, 0x55];
    let folded = xor_fold(&data);
    assert_eq!(folded.len(), 2);
    assert_eq!(folded[0], 0xFF ^ 0xAA);
    assert_eq!(folded[1], 0x00 ^ 0x55);
}

#[test]
fn test_xor_fold_single_byte() {
    let data = vec![42];
    let folded = xor_fold(&data);
    assert_eq!(folded, vec![42]);
}

#[test]
fn test_xor_fold_empty() {
    let folded = xor_fold(&[]);
    assert!(folded.is_empty());
}

#[test]
fn test_xor_fold_odd_length() {
    let data = vec![1, 2, 3, 4, 5];
    let folded = xor_fold(&data);
    assert_eq!(folded.len(), 2);
    assert_eq!(folded[0], 1 ^ 3);
    assert_eq!(folded[1], 2 ^ 4);
}

// ---------------------------------------------------------------------------
// Further cases
// ---------------------------------------------------------------------------

#[test]
fn raw_mode_zero_pads_short_input() {
    let out = condition(&[7, 8], 5, ConditioningMode::Raw);
    assert_eq!(out, vec![7, 8, 0, 0, 0]);
}

#[test]
fn von_neumann_mode_fits_output_length() {
    // Two bytes of 0b10101010 debias to one 0xFF byte; padded to three.
    let out = condition(&[0b10101010, 0b10101010], 3, ConditioningMode::VonNeumann);
    assert_eq!(out, vec![0xFF, 0, 0]);
    let data = vec![0b10101010u8; 8];
    let out = condition(&data, 2, ConditioningMode::VonNeumann);
    assert_eq!(out, vec![0xFF, 0xFF]);
}

#[test]
fn von_neumann_length_at_most_half() {
    let data: Vec<u8> = (0..=255).collect();
    let out = von_neumann_debias(&data);
    assert!(out.len() <= data.len() / 2);
}

#[test]
fn von_neumann_mixed_pairs() {
    // 0b10_01_11_00: keeps 1, 0 (the equal pairs are dropped); eight such
    // bytes give sixteen bits: 1010...10 = 0xAA, 0xAA.
    let data = vec![0b10011100u8; 8];
    let out = von_neumann_debias(&data);
    assert_eq!(out, vec![0xAA, 0xAA]);
}

#[test]
fn sha256_block_matches_direct_digest() {
    let data = vec![9u8; 10];
    let out = sha256_condition_bytes(&data, 32);
    let mut h = Sha256::new();
    h.update([0u8; 32]);
    h.update(&data);
    h.update(0u64.to_le_bytes());
    let expected: [u8; 32] = h.finalize().into();
    assert_eq!(out, expected.to_vec());
    assert_ne!(out, data);
}

#[test]
fn sha256_chained_blocks_use_previous_state_and_counter() {
    let data: Vec<u8> = (0..100u8).collect();
    let out = sha256_condition_bytes(&data, 40);
    let mut h = Sha256::new();
    h.update([0u8; 32]);
    h.update(&data[0..64]);
    h.update(0u64.to_le_bytes());
    let first: [u8; 32] = h.finalize().into();
    let mut h = Sha256::new();
    h.update(first);
    h.update(&data[64..100]);
    h.update(1u64.to_le_bytes());
    let second: [u8; 32] = h.finalize().into();
    assert_eq!(&out[..32], &first[..]);
    assert_eq!(&out[32..40], &second[..8]);
}

#[test]
fn sha256_condition_hashes_all_parts() {
    let state = [3u8; 32];
    let (next, digest) = sha256_condition(&state, &[1, 2, 3], 7, 1_000_000_000u128, &[9, 9]);
    let mut h = Sha256::new();
    h.update(state);
    h.update([1u8, 2, 3]);
    h.update(7u64.to_le_bytes());
    h.update(1_000_000_000u128.to_le_bytes());
    h.update([9u8, 9]);
    let expected: [u8; 32] = h.finalize().into();
    assert_eq!(next, expected);
    assert_eq!(digest, expected);
}

#[test]
fn byte_histogram_counts_values() {
    let h = openentropy_core::conditioning::byte_histogram(&[1, 1, 255, 0, 1]);
    assert_eq!(h.len(), 256);
    assert_eq!(h[0], 1);
    assert_eq!(h[1], 3);
    assert_eq!(h[255], 1);
    assert_eq!(h.iter().sum::<usize>(), 5);
    assert!(openentropy_core::conditioning::byte_histogram(&[]).iter().all(|&c| c == 0));
}

#[test]
fn collision_distances_scan() {
    let d = openentropy_core::conditioning::collision_distances;
    // 5 repeats 3 later; the scan resumes after it: 7 repeats 2 later.
    assert_eq!(d(&[5, 1, 2, 5, 7, 9, 7, 4]), vec![3, 2]);
    // A value that never repeats ends the scan.
    assert_eq!(d(&[1, 2, 3, 1]), vec![3]);
    assert_eq!(d(&[4, 5, 6]), Vec::<usize>::new());
    assert_eq!(d(&[8, 8, 8, 8]), vec![1, 1]);
    assert!(d(&[]).is_empty());
}

#[test]
fn distinct_byte_values_counts_each_value_once() {
    assert_eq!(distinct_byte_values(&[]), 0);
    assert_eq!(distinct_byte_values(&[1, 1, 2, 3, 3, 3]), 3);
    let all: Vec<u8> = (0..=255u8).chain(0..=255u8).collect();
    assert_eq!(distinct_byte_values(&all), 256);
}

#[test]
fn longer_sha256_output_extends_shorter() {
    let raw: Vec<u8> = (0..100u8).collect();
    let long = sha256_condition_bytes(&raw, 100);
    for n in [0usize, 1, 31, 32, 33, 64, 99] {
        assert_eq!(sha256_condition_bytes(&raw, n), long[..n].to_vec());
    }
    assert_eq!(sha256_condition_bytes(&[], 5), vec![0u8; 5]);
}
