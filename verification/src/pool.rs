//! The state of the multi-source entropy pool: a FIFO buffer of collected
//! raw bytes, a 32-byte SHA-256 chaining state, a block counter and the
//! number of bytes handed out. Collecting from the sources, reading the
//! clock and reading OS randomness happen outside; this state decides what
//! is taken from the buffer and what is hashed.

use vstd::prelude::*;

use crate::conditioning::{
    condition, sha256_condition, sha256_digest, spec_condition, spec_le_bytes_u128,
    spec_le_bytes_u64, spec_sha256, ConditioningMode,
};

verus! {

/// Bytes taken from the buffer into one conditioned block: at most 256.
pub open spec fn block_take(len: nat) -> nat {
    if len < 256 {
        len
    } else {
        256
    }
}

/// The digest of one conditioned block: SHA-256 of the chaining state, the
/// bytes taken from the front of the buffer, the block counter
/// (little-endian), the timestamp in nanoseconds (little-endian) and eight
/// bytes of OS randomness.
pub open spec fn block_digest(
    state: Seq<u8>,
    buffer: Seq<u8>,
    counter: u64,
    ts_nanos: u128,
    os_random: Seq<u8>,
) -> Seq<u8> {
    spec_sha256(
        state + buffer.take(block_take(buffer.len()) as int) + spec_le_bytes_u64(counter)
            + spec_le_bytes_u128(ts_nanos) + os_random,
    )
}

/// The pool after `k` conditioned blocks fed by `stamps` (timestamp, OS
/// randomness): `(buffer, state, counter, output so far)`.
pub open spec fn run_blocks(
    buffer: Seq<u8>,
    state: Seq<u8>,
    counter: nat,
    stamps: Seq<(u128, [u8; 8])>,
    k: nat,
) -> (Seq<u8>, Seq<u8>, nat, Seq<u8>)
    decreases k,
{
    if k == 0 {
        (buffer, state, counter, Seq::empty())
    } else {
        let prev = run_blocks(buffer, state, counter, stamps, (k - 1) as nat);
        let c = prev.2 + 1;
        let stamp = stamps[k - 1];
        let digest = block_digest(prev.1, prev.0, c as u64, stamp.0, stamp.1@);
        (prev.0.skip(block_take(prev.0.len()) as int), digest, c, prev.3 + digest)
    }
}

/// Raw output is first in, first out: bytes absorbed behind the buffered
/// ones come out after them, unchanged and in order.
pub proof fn lemma_raw_fifo(buffered: Seq<u8>, absorbed: Seq<u8>)
    ensures
        (buffered + absorbed).take(buffered.len() as int) == buffered,
        (buffered + absorbed).skip(buffered.len() as int) == absorbed,
        (buffered + absorbed).take((buffered.len() + absorbed.len()) as int) == buffered + absorbed,
{
    assert((buffered + absorbed).take(buffered.len() as int) =~= buffered);
    assert((buffered + absorbed).skip(buffered.len() as int) =~= absorbed);
    assert((buffered + absorbed).take((buffered.len() + absorbed.len()) as int) =~= buffered + absorbed);
}

/// Number of 32-byte blocks that cover `n` bytes.
pub open spec fn blocks_needed(n: nat) -> nat {
    (n + 31) / 32
}

/// Number of 32-byte blocks that cover `n_bytes` bytes of output.
pub fn blocks_for(n_bytes: usize) -> (blocks: usize)
    ensures
        blocks == blocks_needed(n_bytes as nat),
{
    n_bytes / 32 + if n_bytes % 32 == 0 {
        0
    } else {
        1
    }
}

/// The chaining state, buffer and counters of an entropy pool.
pub struct PoolCore {
    buffer: Vec<u8>,
    state: [u8; 32],
    counter: u64,
    total_output: u64,
}

impl PoolCore {
    /// Collected bytes not yet handed out, oldest first.
    pub closed spec fn spec_buffer(&self) -> Seq<u8> {
        self.buffer@
    }

    /// The 32-byte chaining state.
    pub closed spec fn spec_state(&self) -> Seq<u8> {
        self.state@
    }

    /// Conditioned blocks produced so far.
    pub closed spec fn spec_counter(&self) -> u64 {
        self.counter
    }

    /// Bytes handed out so far.
    pub closed spec fn spec_total_output(&self) -> u64 {
        self.total_output
    }

    /// A pool with an empty buffer whose chaining state is the SHA-256
    /// digest of `seed` (the caller's seed, or OS randomness).
    pub fn new(seed: &[u8]) -> (pool: Self)
        ensures
            pool.spec_buffer() == Seq::<u8>::empty(),
            pool.spec_state() == spec_sha256(seed@),
            pool.spec_counter() == 0,
            pool.spec_total_output() == 0,
    {
        let state = sha256_digest(seed);
        PoolCore { buffer: Vec::new(), state, counter: 0, total_output: 0 }
    }

    /// Number of buffered bytes.
    pub fn buffered(&self) -> (n: usize)
        ensures
            n == self.spec_buffer().len(),
    {
        self.buffer.len()
    }

    /// Blocks produced so far.
    pub fn counter(&self) -> (n: u64)
        ensures
            n == self.spec_counter(),
    {
        self.counter
    }

    /// Bytes handed out so far.
    pub fn total_output(&self) -> (n: u64)
        ensures
            n == self.spec_total_output(),
    {
        self.total_output
    }

    /// Whether the sources should be collected before `n_bytes` of
    /// conditioned output: the buffer holds less than twice that.
    pub fn wants_collection(&self, n_bytes: usize) -> (b: bool)
        ensures
            b == (self.spec_buffer().len() < 2 * n_bytes),
    {
        self.buffer.len() / 2 < n_bytes
    }

    /// Append collected bytes to the back of the buffer. The sources'
    /// streams are concatenated, not mixed, so raw output hands out source
    /// bytes unchanged.
    pub fn absorb(&mut self, data: &[u8])
        ensures
            final(self).spec_buffer() == old(self).spec_buffer() + data@,
            final(self).spec_state() == old(self).spec_state(),
            final(self).spec_counter() == old(self).spec_counter(),
            final(self).spec_total_output() == old(self).spec_total_output(),
    {
        self.buffer.extend_from_slice(data);
        assert(self.buffer@ =~= old(self).buffer@ + data@);
    }

    /// Remove and return the `k` oldest buffered bytes.
    fn take_front(&mut self, k: usize) -> (front: Vec<u8>)
        requires
            k <= old(self).buffer@.len(),
        ensures
            front@ == old(self).buffer@.take(k as int),
            final(self).buffer@ == old(self).buffer@.skip(k as int),
            final(self).state == old(self).state,
            final(self).counter == old(self).counter,
            final(self).total_output == old(self).total_output,
    {
        let mut front = self.buffer.split_off(k);
        std::mem::swap(&mut self.buffer, &mut front);
        assert(front@ =~= old(self).buffer@.take(k as int));
        assert(self.buffer@ =~= old(self).buffer@.skip(k as int));
        front
    }

    /// Hand out the `n_bytes` oldest buffered bytes unconditioned. The caller
    /// collects until the buffer holds enough.
    pub fn get_raw_bytes(&mut self, n_bytes: usize) -> (out: Vec<u8>)
        requires
            n_bytes <= old(self).spec_buffer().len(),
            old(self).spec_total_output() + n_bytes <= u64::MAX,
        ensures
            out@ == old(self).spec_buffer().take(n_bytes as int),
            final(self).spec_buffer() == old(self).spec_buffer().skip(n_bytes as int),
            final(self).spec_state() == old(self).spec_state(),
            final(self).spec_counter() == old(self).spec_counter(),
            final(self).spec_total_output() == old(self).spec_total_output() + n_bytes,
    {
        let out = self.take_front(n_bytes);
        self.total_output = self.total_output + n_bytes as u64;
        out
    }

    /// Produce one conditioned 32-byte block: the counter advances, up to 256
    /// bytes leave the front of the buffer, and the digest of the state, those
    /// bytes, the counter, the timestamp and the OS randomness becomes the new
    /// state and is returned.
    pub fn random_block(&mut self, ts_nanos: u128, os_random: &[u8; 8]) -> (block: [u8; 32])
        requires
            old(self).spec_counter() < u64::MAX,
        ensures
            final(self).spec_counter() == old(self).spec_counter() + 1,
            block@ == block_digest(
                old(self).spec_state(),
                old(self).spec_buffer(),
                final(self).spec_counter(),
                ts_nanos,
                os_random@,
            ),
            final(self).spec_state() == block@,
            final(self).spec_buffer() == old(self).spec_buffer().skip(
                block_take(old(self).spec_buffer().len()) as int,
            ),
            final(self).spec_total_output() == old(self).spec_total_output(),
    {
        self.counter = self.counter + 1;
        let take = if self.buffer.len() < 256 {
            self.buffer.len()
        } else {
            256
        };
        let sample = self.take_front(take);
        let (next, digest) = sha256_condition(&self.state, &sample, self.counter, ts_nanos, os_random);
        self.state = next;
        digest
    }

    /// Hand out `n_bytes` of conditioned output: one block per 32 bytes (the
    /// last one cut short), the `k`-th block fed by `stamps[k]`.
    pub fn get_random_bytes(&mut self, n_bytes: usize, stamps: &[(u128, [u8; 8])]) -> (out: Vec<u8>)
        requires
            stamps@.len() == blocks_needed(n_bytes as nat),
            old(self).spec_counter() + blocks_needed(n_bytes as nat) <= u64::MAX,
            old(self).spec_total_output() + n_bytes <= u64::MAX,
        ensures
            ({
                let run = run_blocks(
                    old(self).spec_buffer(),
                    old(self).spec_state(),
                    old(self).spec_counter() as nat,
                    stamps@,
                    blocks_needed(n_bytes as nat),
                );
                &&& out@ == run.3.take(n_bytes as int)
                &&& final(self).spec_buffer() == run.0
                &&& final(self).spec_state() == run.1
                &&& final(self).spec_counter() == run.2
                &&& final(self).spec_total_output() == old(self).spec_total_output() + n_bytes
            }),
            out@.len() == n_bytes,
    {
        let ghost buf0 = self.buffer@;
        let ghost st0 = self.state@;
        let ghost c0 = self.counter as nat;
        let mut output: Vec<u8> = Vec::new();
        let mut k: usize = 0;
        while output.len() < n_bytes
            invariant
                k <= blocks_needed(n_bytes as nat),
                output@.len() == 32 * k,
                output@.len() < n_bytes ==> k < blocks_needed(n_bytes as nat),
                stamps@.len() == blocks_needed(n_bytes as nat),
                c0 + blocks_needed(n_bytes as nat) <= u64::MAX,
                self.counter == c0 + k,
                self.total_output == old(self).total_output,
                ({
                    let run = run_blocks(buf0, st0, c0, stamps@, k as nat);
                    &&& output@ == run.3
                    &&& self.buffer@ == run.0
                    &&& self.state@ == run.1
                    &&& self.counter == run.2
                }),
            decreases blocks_needed(n_bytes as nat) - k,
        {
            let (ts, os) = stamps[k];
            let block = self.random_block(ts, &os);
            output.extend_from_slice(&block);
            k = k + 1;
            proof {
                let prev = run_blocks(buf0, st0, c0, stamps@, (k - 1) as nat);
                assert(stamps@[k - 1] == (ts, os));
                assert(output@ =~= prev.3 + block@);
            }
        }
        output.truncate(n_bytes);
        self.total_output = self.total_output + n_bytes as u64;
        output
    }

    /// Hand out `n_bytes` with the given conditioning: `Raw` takes the oldest
    /// buffered bytes, `VonNeumann` debiases six times as many raw bytes and
    /// keeps `n_bytes`, `Sha256` produces conditioned blocks.
    pub fn get_bytes(
        &mut self,
        n_bytes: usize,
        mode: ConditioningMode,
        stamps: &[(u128, [u8; 8])],
    ) -> (out: Vec<u8>)
        requires
            n_bytes * 6 <= usize::MAX,
            mode == ConditioningMode::Raw ==> n_bytes <= old(self).spec_buffer().len()
                && old(self).spec_total_output() + n_bytes <= u64::MAX,
            mode == ConditioningMode::VonNeumann ==> n_bytes * 6 <= old(self).spec_buffer().len()
                && old(self).spec_total_output() + n_bytes * 6 <= u64::MAX,
            mode == ConditioningMode::Sha256 ==> stamps@.len() == blocks_needed(n_bytes as nat)
                && old(self).spec_counter() + blocks_needed(n_bytes as nat) <= u64::MAX
                && old(self).spec_total_output() + n_bytes <= u64::MAX,
        ensures
            out@.len() == n_bytes,
            mode == ConditioningMode::Raw ==> out@ == old(self).spec_buffer().take(n_bytes as int)
                && final(self).spec_buffer() == old(self).spec_buffer().skip(n_bytes as int),
            mode == ConditioningMode::VonNeumann ==> out@ == spec_condition(
                old(self).spec_buffer().take(n_bytes * 6),
                n_bytes as nat,
                ConditioningMode::VonNeumann,
            ) && final(self).spec_buffer() == old(self).spec_buffer().skip(n_bytes * 6),
            mode == ConditioningMode::Sha256 ==> out@ == run_blocks(
                old(self).spec_buffer(),
                old(self).spec_state(),
                old(self).spec_counter() as nat,
                stamps@,
                blocks_needed(n_bytes as nat),
            ).3.take(n_bytes as int),
    {
        match mode {
            ConditioningMode::Raw => self.get_raw_bytes(n_bytes),
            ConditioningMode::VonNeumann => {
                let raw = self.get_raw_bytes(n_bytes * 6);
                condition(&raw, n_bytes, ConditioningMode::VonNeumann)
            },
            ConditioningMode::Sha256 => self.get_random_bytes(n_bytes, stamps),
        }
    }
}

} // verus!
