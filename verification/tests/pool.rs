use openentropy_core::conditioning::{condition, ConditioningMode};
use openentropy_core::pool::{blocks_for, PoolCore};
use sha2::{Digest, Sha256};

fn digest(parts: &[&[u8]]) -> [u8; 32] {
    let mut h = Sha256::new();
    for p in parts {
        h.update(p);
    }
    h.finalize().into()
}

#[test]
fn pool_state_starts_from_seed_digest() {
    let mut pool = PoolCore::new(b"seed");
    assert_eq!(pool.buffered(), 0);
    assert_eq!(pool.counter(), 0);
    assert_eq!(pool.total_output(), 0);
    // The first block hashes the seed digest, not the seed.
    let state = digest(&[b"seed"]);
    let block = pool.random_block(5, &[1; 8]);
    let expected = digest(&[&state, &1u64.to_le_bytes(), &5u128.to_le_bytes(), &[1; 8]]);
    assert_eq!(block, expected);
}

#[test]
fn raw_bytes_come_out_in_collection_order() {
    let mut pool = PoolCore::new(b"s");
    pool.absorb(&[1, 2, 3]);
    pool.absorb(&[4, 5]);
    assert_eq!(pool.buffered(), 5);
    assert_eq!(pool.get_raw_bytes(2), vec![1, 2]);
    assert_eq!(pool.get_raw_bytes(3), vec![3, 4, 5]);
    assert_eq!(pool.buffered(), 0);
    assert_eq!(pool.total_output(), 5);
}

#[test]
fn random_block_takes_at_most_256_bytes() {
    let mut pool = PoolCore::new(b"s");
    let data: Vec<u8> = (0..300u32).map(|i| i as u8).collect();
    pool.absorb(&data);
    let state = digest(&[b"s"]);
    let block = pool.random_block(7, &[0; 8]);
    let expected = digest(&[&state, &data[..256], &1u64.to_le_bytes(), &7u128.to_le_bytes(), &[0; 8]]);
    assert_eq!(block, expected);
    assert_eq!(pool.buffered(), 44);
    assert_eq!(pool.counter(), 1);
    // The next block chains on the previous digest and takes the rest.
    let next = pool.random_block(8, &[2; 8]);
    let expected2 = digest(&[&expected, &data[256..], &2u64.to_le_bytes(), &8u128.to_le_bytes(), &[2; 8]]);
    assert_eq!(next, expected2);
    assert_eq!(pool.buffered(), 0);
}

#[test]
fn random_bytes_concatenate_blocks() {
    let mut a = PoolCore::new(b"k");
    let mut b = PoolCore::new(b"k");
    let stamps = [(1u128, [9u8; 8]), (2u128, [8u8; 8])];
    let out = a.get_random_bytes(40, &stamps);
    assert_eq!(out.len(), 40);
    let first = b.random_block(1, &[9; 8]);
    let second = b.random_block(2, &[8; 8]);
    assert_eq!(&out[..32], &first[..]);
    assert_eq!(&out[32..], &second[..8]);
    assert_eq!(a.counter(), 2);
    assert_eq!(a.total_output(), 40);
    assert!(a.get_random_bytes(0, &[]).is_empty());
}

#[test]
fn get_bytes_dispatches_on_mode() {
    let data: Vec<u8> = (0..64u8).map(|i| i.wrapping_mul(37)).collect();
    let mut pool = PoolCore::new(b"m");
    pool.absorb(&data);
    assert_eq!(pool.get_bytes(4, ConditioningMode::Raw, &[]), data[..4].to_vec());
    let vn = pool.get_bytes(3, ConditioningMode::VonNeumann, &[]);
    assert_eq!(vn, condition(&data[4..22], 3, ConditioningMode::VonNeumann));
    assert_eq!(pool.buffered(), 64 - 22);
    let sha = pool.get_bytes(10, ConditioningMode::Sha256, &[(3, [0; 8])]);
    assert_eq!(sha.len(), 10);
    assert_eq!(pool.total_output(), 4 + 18 + 10);
}

#[test]
fn block_count_and_collection_threshold() {
    assert_eq!(blocks_for(0), 0);
    assert_eq!(blocks_for(1), 1);
    assert_eq!(blocks_for(32), 1);
    assert_eq!(blocks_for(33), 2);
    let mut pool = PoolCore::new(b"t");
    assert!(pool.wants_collection(1));
    assert!(!pool.wants_collection(0));
    pool.absorb(&[0; 10]);
    assert!(pool.wants_collection(6));
    assert!(!pool.wants_collection(5));
}
