//! Centralized entropy conditioning: the single gateway through which raw
//! source bytes are transformed (raw pass-through, Von Neumann debiasing or
//! SHA-256 conditioning), plus XOR folding.

use vstd::prelude::*;

use sha2::{Digest, Sha256};

use crate::consciousness_surrogate::{byte_count, holds_pred};
use crate::counting::count_below;

verus! {

// ---------------------------------------------------------------------------
// Modes
// ---------------------------------------------------------------------------

/// Conditioning mode for entropy output.
#[derive(Debug, Clone, Copy, PartialEq, Eq, Structural, Hash)]
pub enum ConditioningMode {
    /// No conditioning. Raw bytes pass through unchanged.
    Raw,
    /// Von Neumann debiasing only.
    VonNeumann,
    /// SHA-256 hash conditioning (default). Cryptographically strong output.
    Sha256,
}

impl Default for ConditioningMode {
    fn default() -> (mode: Self)
        ensures
            mode == ConditioningMode::Sha256,
    {
        ConditioningMode::Sha256
    }
}

/// The display name of a conditioning mode.
pub open spec fn spec_mode_name(mode: ConditioningMode) -> Seq<char> {
    match mode {
        ConditioningMode::Raw => "raw"@,
        ConditioningMode::VonNeumann => "von_neumann"@,
        ConditioningMode::Sha256 => "sha256"@,
    }
}

impl ConditioningMode {
    /// The display name of this mode (`raw`, `von_neumann`, `sha256`).
    pub fn to_string(&self) -> (s: String)
        ensures
            s@ == spec_mode_name(*self),
    {
        match self {
            ConditioningMode::Raw => String::from_str("raw"),
            ConditioningMode::VonNeumann => String::from_str("von_neumann"),
            ConditioningMode::Sha256 => String::from_str("sha256"),
        }
    }
}

// ---------------------------------------------------------------------------
// SHA-256
// ---------------------------------------------------------------------------

/// The SHA-256 digest of a byte sequence.
pub uninterp spec fn spec_sha256(data: Seq<u8>) -> Seq<u8>;

/// Calls `sha2::Sha256::digest`; the contract claims that the 32-byte
/// result is the SHA-256 digest of exactly the bytes passed in.
#[verifier::external_body]
pub(crate) fn sha256_digest(data: &[u8]) -> (digest: [u8; 32])
    ensures
        digest@ == spec_sha256(data@),
{
    Sha256::digest(data).into()
}

/// The little-endian bytes of a 64-bit counter.
pub open spec fn spec_le_bytes_u64(x: u64) -> Seq<u8> {
    Seq::new(8, |i: int| ((x >> (8 * i) as u64) & 0xff) as u8)
}

/// The little-endian bytes of a 128-bit value.
pub open spec fn spec_le_bytes_u128(x: u128) -> Seq<u8> {
    Seq::new(16, |i: int| ((x >> (8 * i) as u128) & 0xff) as u8)
}

/// Append the little-endian bytes of `x` to `out`.
fn push_le_u64(out: &mut Vec<u8>, x: u64)
    ensures
        final(out)@ == old(out)@ + spec_le_bytes_u64(x),
{
    let ghost start = out@;
    let mut i: u64 = 0;
    while i < 8
        invariant
            i <= 8,
            out@.len() == start.len() + i,
            forall|k: int| 0 <= k < start.len() ==> out@[k] == start[k],
            forall|k: int|
                0 <= k < i ==> out@[start.len() + k] == spec_le_bytes_u64(x)[k],
        decreases 8 - i,
    {
        out.push(((x >> (8 * i)) & 0xff) as u8);
        i = i + 1;
    }
    assert(out@ =~= start + spec_le_bytes_u64(x));
}

/// Append the little-endian bytes of `x` to `out`.
fn push_le_u128(out: &mut Vec<u8>, x: u128)
    ensures
        final(out)@ == old(out)@ + spec_le_bytes_u128(x),
{
    let ghost start = out@;
    let mut i: u128 = 0;
    while i < 16
        invariant
            i <= 16,
            out@.len() == start.len() + i,
            forall|k: int| 0 <= k < start.len() ==> out@[k] == start[k],
            forall|k: int|
                0 <= k < i ==> out@[start.len() + k] == spec_le_bytes_u128(x)[k],
        decreases 16 - i,
    {
        out.push(((x >> (8 * i)) & 0xff) as u8);
        i = i + 1;
    }
    assert(out@ =~= start + spec_le_bytes_u128(x));
}

/// Append all of `bytes` to `out`.
fn push_all(out: &mut Vec<u8>, bytes: &[u8])
    ensures
        final(out)@ == old(out)@ + bytes@,
{
    let ghost start = out@;
    let mut i: usize = 0;
    while i < bytes.len()
        invariant
            i <= bytes@.len(),
            out@ == start + bytes@.subrange(0, i as int),
        decreases bytes@.len() - i,
    {
        out.push(bytes[i]);
        i = i + 1;
        assert(out@ =~= start + bytes@.subrange(0, i as int));
    }
    assert(bytes@.subrange(0, bytes@.len() as int) =~= bytes@);
}

/// Offset into `raw` (of length `len`) of the chunk hashed into block `k`:
/// advances by 64 and wraps to 0 once it reaches the end.
pub open spec fn sha_offset(len: nat, k: nat) -> nat
    decreases k,
{
    if k == 0 {
        0
    } else {
        let prev = sha_offset(len, (k - 1) as nat);
        if prev + 64 >= len {
            0
        } else {
            prev + 64
        }
    }
}

/// The chunk of `raw` hashed into block `k`: 64 bytes from the block's
/// offset, shorter at the end of `raw`.
pub open spec fn sha_chunk(raw: Seq<u8>, k: nat) -> Seq<u8> {
    let off = sha_offset(raw.len(), k);
    let end: int = if off + 64 <= raw.len() {
        off + 64int
    } else {
        raw.len() as int
    };
    raw.subrange(off as int, end)
}

/// The 32 bytes of a SHA-256 digest.
pub open spec fn digest_block(d: Seq<u8>) -> Seq<u8> {
    Seq::new(32, |i: int| d[i])
}

/// The chaining state after `k` blocks: starts at 32 zero bytes; block `k`
/// is SHA-256(state || chunk || little-endian counter).
pub open spec fn sha_state(raw: Seq<u8>, k: nat) -> Seq<u8>
    decreases k,
{
    if k == 0 {
        Seq::new(32, |i: int| 0u8)
    } else {
        let j = (k - 1) as nat;
        digest_block(spec_sha256(sha_state(raw, j) + sha_chunk(raw, j) + spec_le_bytes_u64(j as u64)))
    }
}

/// The concatenation of the first `k` block digests.
pub open spec fn sha_stream(raw: Seq<u8>, k: nat) -> Seq<u8>
    decreases k,
{
    if k == 0 {
        Seq::empty()
    } else {
        sha_stream(raw, (k - 1) as nat) + sha_state(raw, k)
    }
}

/// Number of 32-byte blocks needed for `n` output bytes.
pub open spec fn blocks_for(n: nat) -> nat {
    (n + 31) / 32
}

/// SHA-256 chained conditioning of `raw` to exactly `n` bytes; an empty
/// input gives `n` zero bytes.
pub open spec fn spec_sha256_condition_bytes(raw: Seq<u8>, n: nat) -> Seq<u8> {
    if raw.len() == 0 {
        Seq::new(n, |i: int| 0u8)
    } else {
        sha_stream(raw, blocks_for(n)).take(n as int)
    }
}

proof fn lemma_sha_offset_bound(len: nat, k: nat)
    requires
        len > 0,
    ensures
        sha_offset(len, k) < len,
    decreases k,
{
    if k > 0 {
        lemma_sha_offset_bound(len, (k - 1) as nat);
    }
}

proof fn lemma_mod_succ(a: int, c: int)
    requires
        0 <= a,
        0 < c,
    ensures
        (a + 1) % c == if a % c + 1 == c {
            0
        } else {
            a % c + 1
        },
{
    vstd::arithmetic::div_mod::lemma_mod_bound(a, c);
    vstd::arithmetic::div_mod::lemma_add_mod_noop_right(1, a, c);
    let r = a % c;
    assert((1 + r) % c == (1 + a) % c);
    if r + 1 == c {
        vstd::arithmetic::div_mod::lemma_mod_self_0(c);
    } else {
        vstd::arithmetic::div_mod::lemma_small_mod((r + 1) as nat, c as nat);
    }
}

/// The number of 64-byte chunks that cover a non-empty input of `len`
/// bytes (the last one possibly short).
pub open spec fn chunk_count(len: nat) -> nat {
    ((len + 63) / 64) as nat
}

/// The chunks hashed into successive blocks cycle through the input: the
/// chunk of block `k` starts at `64 * (k mod chunk_count(len))`, so once the
/// offset reaches the end it restarts at 0, and it runs 64 bytes or to the
/// end of the input, whichever comes first.
pub proof fn lemma_sha_chunks_cycle(raw: Seq<u8>, k: nat)
    requires
        raw.len() > 0,
    ensures
        ({
            let o: int = (64 * (k % chunk_count(raw.len()))) as int;
            &&& o < raw.len()
            &&& sha_chunk(raw, k) == raw.subrange(
                o,
                if o + 64 <= raw.len() {
                    o + 64
                } else {
                    raw.len() as int
                },
            )
        }),
{
    lemma_sha_offset_cycle(raw.len(), k);
}

proof fn lemma_sha_offset_cycle(len: nat, k: nat)
    requires
        len > 0,
    ensures
        sha_offset(len, k) == 64 * (k % chunk_count(len)),
        64 * (k % chunk_count(len)) < len,
    decreases k,
{
    let c = chunk_count(len);
    assert(c > 0);
    assert(64 * (c - 1) < len && len <= 64 * c);
    vstd::arithmetic::div_mod::lemma_mod_bound(k as int, c as int);
    if k == 0 {
        vstd::arithmetic::div_mod::lemma_small_mod(0, c);
    } else {
        lemma_sha_offset_cycle(len, (k - 1) as nat);
        let r = ((k - 1) as nat) % c;
        lemma_mod_succ((k - 1) as int, c as int);
        assert(k % c == if r + 1 == c { 0 } else { r + 1 });
        if r + 1 == c {
            assert(64 * r + 64 >= len);
        } else {
            assert(64 * r + 64 <= 64 * (c - 1));
        }
    }
}

proof fn lemma_sha_stream_len(raw: Seq<u8>, k: nat)
    ensures
        sha_stream(raw, k).len() == 32 * k,
    decreases k,
{
    if k > 0 {
        lemma_sha_stream_len(raw, (k - 1) as nat);
    }
}

proof fn lemma_sha_stream_prefix(raw: Seq<u8>, a: nat, b: nat)
    requires
        a <= b,
    ensures
        sha_stream(raw, b).take(32 * a as int) == sha_stream(raw, a),
    decreases b,
{
    lemma_sha_stream_len(raw, a);
    lemma_sha_stream_len(raw, b);
    if a == b {
        assert(sha_stream(raw, b).take(32 * a as int) =~= sha_stream(raw, a));
    } else {
        let c = (b - 1) as nat;
        lemma_sha_stream_prefix(raw, a, c);
        lemma_sha_stream_len(raw, c);
        assert(sha_stream(raw, b).take(32 * a as int) =~= sha_stream(raw, c).take(32 * a as int));
    }
}

/// A longer conditioned output extends a shorter one: for `n <= m`, the
/// first `n` bytes of the output for `m` are the output for `n`.
pub proof fn lemma_sha256_condition_prefix(raw: Seq<u8>, n: nat, m: nat)
    requires
        n <= m,
    ensures
        spec_sha256_condition_bytes(raw, n) == spec_sha256_condition_bytes(raw, m).take(n as int),
        spec_sha256_condition_bytes(raw, n).len() == n,
{
    if raw.len() == 0 {
        assert(spec_sha256_condition_bytes(raw, n) =~= spec_sha256_condition_bytes(raw, m).take(n as int));
    } else {
        let bn = blocks_for(n);
        let bm = blocks_for(m);
        assert(bn <= bm);
        assert(32 * bn >= n);
        lemma_sha_stream_prefix(raw, bn, bm);
        lemma_sha_stream_len(raw, bn);
        lemma_sha_stream_len(raw, bm);
        let sn = sha_stream(raw, bn);
        let sm = sha_stream(raw, bm);
        assert(sm.take(m as int).take(n as int) =~= sn.take(n as int)) by {
            assert forall|i: int| 0 <= i < n implies sm[i] == sn[i] by {
                assert(sm.take(32 * bn as int)[i] == sm[i]);
            }
        }
    }
}

/// SHA-256 chained conditioning: stretches or compresses raw bytes to
/// exactly `n_output` bytes using counter-mode hashing. Each 32-byte output
/// block is SHA-256(state || chunk || counter), the state chained from the
/// previous block's digest.
pub fn sha256_condition_bytes(raw: &[u8], n_output: usize) -> (out: Vec<u8>)
    ensures
        out@ == spec_sha256_condition_bytes(raw@, n_output as nat),
        out@.len() == n_output,
{
    if raw.len() == 0 {
        let out = vec![0u8; n_output];
        assert(out@ =~= spec_sha256_condition_bytes(raw@, n_output as nat));
        return out;
    }
    let mut output: Vec<u8> = Vec::new();
    let mut state: [u8; 32] = [0u8; 32];
    let mut offset: usize = 0;
    let mut counter: u64 = 0;
    assert(state@ =~= sha_state(raw@, 0));
    while output.len() < n_output
        invariant
            raw@.len() > 0,
            offset == sha_offset(raw@.len(), counter as nat),
            state@ == sha_state(raw@, counter as nat),
            output@ == sha_stream(raw@, counter as nat),
            output@.len() == 32 * counter,
            counter <= blocks_for(n_output as nat),
            output@.len() < n_output ==> counter < blocks_for(n_output as nat),
        decreases blocks_for(n_output as nat) - counter,
    {
        proof {
            lemma_sha_offset_bound(raw@.len(), counter as nat);
        }
        let end = if raw.len() >= 64 && offset <= raw.len() - 64 {
            offset + 64
        } else {
            raw.len()
        };
        let chunk = &raw[offset..end];
        let mut input: Vec<u8> = Vec::new();
        push_all(&mut input, &state);
        push_all(&mut input, chunk);
        push_le_u64(&mut input, counter);
        assert(chunk@ == sha_chunk(raw@, counter as nat));
        state = sha256_digest(&input);
        assert(state@.len() == 32);
        assert(state@ =~= digest_block(spec_sha256(input@)));
        push_all(&mut output, &state);
        offset = if raw.len() <= 64 || offset >= raw.len() - 64 {
            0
        } else {
            offset + 64
        };
        counter = counter + 1;
    }
    assert(counter == blocks_for(n_output as nat));
    output.truncate(n_output);
    output
}

/// SHA-256 condition with explicit state, sample, counter, timestamp (in
/// nanoseconds since the Unix epoch) and extra data. Returns
/// `(new_state, digest)`, both the digest of
/// `state || sample || counter || timestamp || extra`.
pub fn sha256_condition(
    state: &[u8; 32],
    sample: &[u8],
    counter: u64,
    timestamp_nanos: u128,
    extra: &[u8],
) -> (res: ([u8; 32], [u8; 32]))
    ensures
        res.0@ == spec_sha256(
            state@ + sample@ + spec_le_bytes_u64(counter) + spec_le_bytes_u128(timestamp_nanos)
                + extra@,
        ),
        res.1 == res.0,
{
    let mut input: Vec<u8> = Vec::new();
    push_all(&mut input, state);
    push_all(&mut input, sample);
    push_le_u64(&mut input, counter);
    push_le_u128(&mut input, timestamp_nanos);
    push_all(&mut input, extra);
    let digest = sha256_digest(&input);
    (digest, digest)
}

// ---------------------------------------------------------------------------
// Von Neumann debiasing
// ---------------------------------------------------------------------------

/// Bit `b` of byte `x`, counting from the least significant (0 or 1).
pub open spec fn bit_of(x: u8, b: u8) -> u8 {
    (x >> b) & 1
}

/// The bits kept from one byte: its four bit pairs, most significant first;
/// a pair (1,0) keeps 1, (0,1) keeps 0, equal pairs are discarded.
pub open spec fn vn_pair_bits(x: u8, pairs: nat) -> Seq<u8>
    decreases pairs,
{
    if pairs == 0 {
        Seq::empty()
    } else {
        let i = (pairs - 1) as nat;
        let b1 = bit_of(x, (7 - 2 * i) as u8);
        let b2 = bit_of(x, (6 - 2 * i) as u8);
        vn_pair_bits(x, i) + if b1 != b2 {
            seq![b1]
        } else {
            Seq::empty()
        }
    }
}

/// The bits kept from all of `data`, in order.
pub open spec fn vn_bits(data: Seq<u8>) -> Seq<u8>
    decreases data.len(),
{
    if data.len() == 0 {
        Seq::empty()
    } else {
        vn_bits(data.drop_last()) + vn_pair_bits(data.last(), 4)
    }
}

/// Bits (each 0 or 1) read as a binary number, most significant first.
pub open spec fn bits_value(bits: Seq<u8>) -> nat
    decreases bits.len(),
{
    if bits.len() == 0 {
        0
    } else {
        2 * bits_value(bits.drop_last()) + bits.last() as nat
    }
}

/// The kept bits packed into bytes, eight at a time, most significant bit
/// first; leftover bits are dropped.
pub open spec fn spec_von_neumann(data: Seq<u8>) -> Seq<u8> {
    let bits = vn_bits(data);
    Seq::new(bits.len() / 8, |k: int| bits_value(bits.subrange(8 * k, 8 * k + 8)) as u8)
}

proof fn lemma_bit_le_one(x: u8, b: u8)
    ensures
        bit_of(x, b) <= 1,
{
    assert((x >> b) & 1 <= 1) by (bit_vector);
}

proof fn lemma_pair_bits_facts(x: u8, pairs: nat)
    requires
        pairs <= 4,
    ensures
        vn_pair_bits(x, pairs).len() <= pairs,
        forall|i: int|
            0 <= i < vn_pair_bits(x, pairs).len() ==> #[trigger] vn_pair_bits(x, pairs)[i] <= 1,
    decreases pairs,
{
    if pairs > 0 {
        let i = (pairs - 1) as nat;
        lemma_pair_bits_facts(x, i);
        lemma_bit_le_one(x, (7 - 2 * i) as u8);
    }
}

proof fn lemma_vn_bits_facts(data: Seq<u8>)
    ensures
        vn_bits(data).len() <= 4 * data.len(),
        forall|i: int| 0 <= i < vn_bits(data).len() ==> #[trigger] vn_bits(data)[i] <= 1,
    decreases data.len(),
{
    if data.len() > 0 {
        lemma_vn_bits_facts(data.drop_last());
        lemma_pair_bits_facts(data.last(), 4);
        let a = vn_bits(data.drop_last());
        let b = vn_pair_bits(data.last(), 4);
        assert forall|i: int| 0 <= i < vn_bits(data).len() implies #[trigger] vn_bits(data)[i]
            <= 1 by {
            if i < a.len() {
                assert(vn_bits(data)[i] == a[i]);
            } else {
                assert(vn_bits(data)[i] == b[i - a.len()]);
            }
        }
    }
}

proof fn lemma_bits_value_bound(bits: Seq<u8>)
    requires
        forall|i: int| 0 <= i < bits.len() ==> #[trigger] bits[i] <= 1,
    ensures
        bits_value(bits) < vstd::arithmetic::power2::pow2(bits.len()),
    decreases bits.len(),
{
    if bits.len() > 0 {
        let d = bits.drop_last();
        assert forall|i: int| 0 <= i < d.len() implies #[trigger] d[i] <= 1 by {
            assert(d[i] == bits[i]);
        }
        lemma_bits_value_bound(d);
        vstd::arithmetic::power2::lemma_pow2_unfold(bits.len());
        assert(bits.last() <= 1);
    } else {
        vstd::arithmetic::power2::lemma2_to64();
    }
}

proof fn lemma_vn_bits_concat(a: Seq<u8>, b: Seq<u8>)
    ensures
        vn_bits(a + b) == vn_bits(a) + vn_bits(b),
    decreases b.len(),
{
    if b.len() == 0 {
        assert(a + b =~= a);
        assert(vn_bits(a) + vn_bits(b) =~= vn_bits(a));
    } else {
        lemma_vn_bits_concat(a, b.drop_last());
        assert((a + b).drop_last() =~= a + b.drop_last());
        assert((a + b).last() == b.last());
        assert(vn_bits(a + b) =~= vn_bits(a) + vn_bits(b));
    }
}

/// Debiasing runs byte by byte and packs kept bits in input order: when the
/// bits kept from `a` fill whole bytes, debiasing `a` followed by `b` gives
/// the debiased `a` followed by the debiased `b`.
pub proof fn lemma_von_neumann_concat(a: Seq<u8>, b: Seq<u8>)
    requires
        vn_bits(a).len() % 8 == 0,
    ensures
        spec_von_neumann(a + b) == spec_von_neumann(a) + spec_von_neumann(b),
{
    lemma_vn_bits_concat(a, b);
    let x = vn_bits(a);
    let y = vn_bits(b);
    let xy = x + y;
    let na = x.len() / 8;
    assert(x.len() == 8 * na);
    assert(xy.len() / 8 == na + y.len() / 8);
    let lhs = spec_von_neumann(a + b);
    let rhs = spec_von_neumann(a) + spec_von_neumann(b);
    assert forall|k: int| 0 <= k < lhs.len() implies lhs[k] == rhs[k] by {
        if k < na {
            assert(xy.subrange(8 * k, 8 * k + 8) =~= x.subrange(8 * k, 8 * k + 8));
        } else {
            let m = k - na;
            assert(8 * k == 8 * na + 8 * m);
            assert(xy.subrange(8 * k, 8 * k + 8) =~= y.subrange(8 * m, 8 * m + 8));
        }
    }
    assert(lhs =~= rhs);
}

proof fn lemma_byte_of_bits(b: Seq<u8>)
    requires
        b.len() == 8,
        forall|i: int| 0 <= i < 8 ==> #[trigger] b[i] <= 1,
    ensures
        bits_value(b) < 256,
        forall|i: int| 0 <= i < 8 ==> ((bits_value(b) as u8) >> ((7 - i) as u8)) & 1 == #[trigger] b[i],
{
    reveal_with_fuel(bits_value, 9);
    let (b0, b1, b2, b3, b4, b5, b6, b7) = (b[0], b[1], b[2], b[3], b[4], b[5], b[6], b[7]);
    assert(b.drop_last().drop_last().drop_last().drop_last().drop_last().drop_last().drop_last() =~= seq![b0]);
    assert(bits_value(b) == 128 * b0 + 64 * b1 + 32 * b2 + 16 * b3 + 8 * b4 + 4 * b5 + 2 * b6 + b7) by {
        let s1 = b.drop_last();
        let s2 = s1.drop_last();
        let s3 = s2.drop_last();
        let s4 = s3.drop_last();
        let s5 = s4.drop_last();
        let s6 = s5.drop_last();
        let s7 = s6.drop_last();
        assert(s7.drop_last() =~= Seq::<u8>::empty());
        assert(bits_value(s7) == b0);
        assert(bits_value(s6) == 2 * b0 + b1);
        assert(bits_value(s5) == 4 * b0 + 2 * b1 + b2);
        assert(bits_value(s4) == 8 * b0 + 4 * b1 + 2 * b2 + b3);
        assert(bits_value(s3) == 16 * b0 + 8 * b1 + 4 * b2 + 2 * b3 + b4);
        assert(bits_value(s2) == 32 * b0 + 16 * b1 + 8 * b2 + 4 * b3 + 2 * b4 + b5);
        assert(bits_value(s1) == 64 * b0 + 32 * b1 + 16 * b2 + 8 * b3 + 4 * b4 + 2 * b5 + b6);
    }
    assert(b0 <= 1 && b1 <= 1 && b2 <= 1 && b3 <= 1 && b4 <= 1 && b5 <= 1 && b6 <= 1 && b7 <= 1);
    let v: u8 = (128 * b0 + 64 * b1 + 32 * b2 + 16 * b3 + 8 * b4 + 4 * b5 + 2 * b6 + b7) as u8;
    assert(
        (v >> 7u8) & 1 == b0 && (v >> 6u8) & 1 == b1 && (v >> 5u8) & 1 == b2 && (v >> 4u8) & 1 == b3
            && (v >> 3u8) & 1 == b4 && (v >> 2u8) & 1 == b5 && (v >> 1u8) & 1 == b6 && (v >> 0u8) & 1
            == b7
    ) by (bit_vector)
        requires
            b0 <= 1 && b1 <= 1 && b2 <= 1 && b3 <= 1 && b4 <= 1 && b5 <= 1 && b6 <= 1 && b7 <= 1,
            v == (128 * b0 + 64 * b1 + 32 * b2 + 16 * b3 + 8 * b4 + 4 * b5 + 2 * b6 + b7) as u8,
    ;
}

/// The debiased bytes, read most significant bit first, are exactly the
/// kept bits in input order: bit `t` of the output is kept bit `t`, for
/// every bit of the whole bytes the kept bits fill.
pub proof fn lemma_von_neumann_bit_order(data: Seq<u8>, t: int)
    requires
        0 <= t < 8 * spec_von_neumann(data).len(),
    ensures
        spec_von_neumann(data).len() == vn_bits(data).len() / 8,
        crate::consciousness::stream_bit(spec_von_neumann(data), t) == vn_bits(data)[t],
{
    let bits = vn_bits(data);
    let out = spec_von_neumann(data);
    lemma_vn_bits_facts(data);
    let k = t / 8;
    let i = t % 8;
    assert(0 <= k < out.len() && 0 <= i < 8 && t == 8 * k + i);
    assert(8 * k + 8 <= bits.len());
    let b = bits.subrange(8 * k, 8 * k + 8);
    assert forall|j: int| 0 <= j < 8 implies #[trigger] b[j] <= 1 by {
        assert(b[j] == bits[8 * k + j]);
    }
    lemma_byte_of_bits(b);
    assert(out[k] == bits_value(b) as u8);
    assert(b[i] == bits[t]);
}

/// Over the first `m` bit pairs of the stream of `data` (most significant
/// bit first), the first bit of each pair whose two bits differ, in order.
pub open spec fn discordant_first_bits(data: Seq<u8>, m: nat) -> Seq<u8>
    decreases m,
{
    if m == 0 {
        Seq::empty()
    } else {
        let prev = discordant_first_bits(data, (m - 1) as nat);
        let p = m - 1;
        let x = crate::consciousness::stream_bit(data, 2 * p);
        let y = crate::consciousness::stream_bit(data, 2 * p + 1);
        if x != y {
            prev.push(x)
        } else {
            prev
        }
    }
}

proof fn lemma_discordant_prefix(data: Seq<u8>, m: nat)
    requires
        data.len() > 0,
        m <= 4 * (data.len() - 1),
    ensures
        discordant_first_bits(data, m) == discordant_first_bits(data.drop_last(), m),
    decreases m,
{
    if m > 0 {
        lemma_discordant_prefix(data, (m - 1) as nat);
        let p = m - 1;
        assert((2 * p) / 8 < data.len() - 1);
        assert((2 * p + 1) / 8 < data.len() - 1);
        assert(data[(2 * p) / 8] == data.drop_last()[(2 * p) / 8]);
        assert(data[(2 * p + 1) / 8] == data.drop_last()[(2 * p + 1) / 8]);
    }
}

proof fn lemma_discordant_last_byte(data: Seq<u8>, q: nat)
    requires
        data.len() > 0,
        q <= 4,
    ensures
        discordant_first_bits(data, (4 * (data.len() - 1) + q) as nat) == vn_bits(data.drop_last())
            + vn_pair_bits(data.last(), q),
    decreases data.len(), q,
{
    let base = (4 * (data.len() - 1)) as nat;
    if q == 0 {
        lemma_discordant_to_vn(data.drop_last());
        lemma_discordant_prefix(data, base);
        assert(vn_bits(data.drop_last()) + vn_pair_bits(data.last(), 0) =~= vn_bits(data.drop_last()));
    } else {
        let i = (q - 1) as nat;
        lemma_discordant_last_byte(data, i);
        let p: int = (base + i) as int;
        let n1 = data.len() - 1;
        assert(2 * p == 8 * n1 + 2 * i);
        assert((2 * p) / 8 == n1 && (2 * p) % 8 == 2 * i);
        assert((2 * p + 1) / 8 == n1 && (2 * p + 1) % 8 == 2 * i + 1);
        assert(data[n1] == data.last());
        assert(crate::consciousness::stream_bit(data, 2 * p) == bit_of(data.last(), (7 - 2 * i) as u8));
        assert(crate::consciousness::stream_bit(data, 2 * p + 1) == bit_of(data.last(), (6 - 2 * i) as u8));
        let b1 = bit_of(data.last(), (7 - 2 * i) as u8);
        let b2 = bit_of(data.last(), (6 - 2 * i) as u8);
        if b1 != b2 {
            assert(vn_bits(data.drop_last()) + vn_pair_bits(data.last(), q) =~= (vn_bits(data.drop_last())
                + vn_pair_bits(data.last(), i)).push(b1));
        } else {
            assert(vn_bits(data.drop_last()) + vn_pair_bits(data.last(), q) =~= vn_bits(data.drop_last())
                + vn_pair_bits(data.last(), i));
        }
    }
}

proof fn lemma_discordant_to_vn(data: Seq<u8>)
    ensures
        vn_bits(data) == discordant_first_bits(data, 4 * data.len()),
    decreases data.len(), 5nat,
{
    if data.len() > 0 {
        lemma_discordant_last_byte(data, 4);
        assert(4 * (data.len() - 1) + 4 == 4 * data.len());
    }
}

/// The bits Von Neumann debiasing keeps are, in order, the first bit of
/// every pair (bits `2p`, `2p + 1` of the stream, most significant bit of
/// each byte first) whose two bits differ: a pair (1,0) keeps 1, a pair
/// (0,1) keeps 0, and equal pairs keep nothing.
pub proof fn lemma_von_neumann_kept_bits(data: Seq<u8>)
    ensures
        vn_bits(data) == discordant_first_bits(data, 4 * data.len()),
{
    lemma_discordant_to_vn(data);
}

/// Von Neumann debiasing: extract unbiased bits from a biased stream.
/// Takes pairs of bits: (0,1) -> 0, (1,0) -> 1, same -> discard; the kept
/// bits are packed eight to a byte. At most four bits are kept per input
/// byte, so the output is at most half as long as the input.
pub fn von_neumann_debias(data: &[u8]) -> (out: Vec<u8>)
    ensures
        out@ == spec_von_neumann(data@),
        out@.len() == vn_bits(data@).len() / 8,
        out@.len() <= data@.len() / 2,
{
    let mut bits: Vec<u8> = Vec::new();
    let mut n: usize = 0;
    while n < data.len()
        invariant
            n <= data@.len(),
            bits@ == vn_bits(data@.subrange(0, n as int)),
        decreases data@.len() - n,
    {
        let byte = data[n];
        let ghost before = bits@;
        let mut i: u8 = 0;
        while i < 4
            invariant
                i <= 4,
                bits@ == before + vn_pair_bits(byte, i as nat),
            decreases 4 - i,
        {
            let b1 = (byte >> (7 - 2 * i)) & 1;
            let b2 = (byte >> (6 - 2 * i)) & 1;
            assert(b1 == bit_of(byte, (7 - 2 * i) as u8));
            assert(b2 == bit_of(byte, (6 - 2 * i) as u8));
            if b1 != b2 {
                bits.push(b1);
            }
            i = i + 1;
            assert(bits@ =~= before + vn_pair_bits(byte, i as nat));
        }
        let ghost prefix = data@.subrange(0, n + 1);
        assert(prefix.drop_last() =~= data@.subrange(0, n as int));
        assert(prefix.last() == byte);
        n = n + 1;
    }
    assert(data@.subrange(0, data@.len() as int) =~= data@);
    proof {
        lemma_vn_bits_facts(data@);
    }
    let bits_len = bits.len();
    let n_bytes = bits_len / 8;
    let mut result: Vec<u8> = Vec::with_capacity(n_bytes);
    let mut k: usize = 0;
    while k < n_bytes
        invariant
            bits@ == vn_bits(data@),
            bits_len == bits@.len(),
            n_bytes == bits@.len() / 8,
            k <= n_bytes,
            result@.len() == k,
            forall|i: int| 0 <= i < bits@.len() ==> #[trigger] bits@[i] <= 1,
            forall|j: int|
                0 <= j < k ==> result@[j] == bits_value(bits@.subrange(8 * j, 8 * j + 8)) as u8,
        decreases n_bytes - k,
    {
        let mut byte: u8 = 0;
        let mut i: usize = 0;
        proof {
            vstd::arithmetic::power2::lemma2_to64();
        }
        assert(8 * k + 8 <= bits@.len()) by (nonlinear_arith)
            requires
                k < n_bytes,
                n_bytes == bits@.len() / 8,
        ;
        while i < 8
            invariant
                8 * k + 8 <= bits@.len(),
                bits_len == bits@.len(),
                k < n_bytes,
                n_bytes == bits@.len() / 8,
                i <= 8,
                forall|x: int| 0 <= x < bits@.len() ==> #[trigger] bits@[x] <= 1,
                byte as nat == bits_value(bits@.subrange(8 * k, 8 * k + i)),
                byte < vstd::arithmetic::power2::pow2(i as nat),
            decreases 8 - i,
        {
            let bit = bits[8 * k + i];
            let ghost prev = bits@.subrange(8 * k, 8 * k + i);
            let ghost next = bits@.subrange(8 * k, 8 * k + i + 1);
            assert(next.drop_last() =~= prev);
            proof {
                vstd::arithmetic::power2::lemma_pow2_unfold((i + 1) as nat);
                vstd::arithmetic::power2::lemma2_to64();
                if i + 1 < 8 {
                    vstd::arithmetic::power2::lemma_pow2_strictly_increases((i + 1) as nat, 8);
                }
            }
            byte = byte * 2 + bit;
            i = i + 1;
        }
        result.push(byte);
        k = k + 1;
    }
    assert(result@ =~= spec_von_neumann(data@));
    result
}

// ---------------------------------------------------------------------------
// Central conditioning gateway
// ---------------------------------------------------------------------------

/// `s` cut or padded with zero bytes to exactly `n` bytes.
pub open spec fn fit_to(s: Seq<u8>, n: nat) -> Seq<u8> {
    Seq::new(n, |i: int| if i < s.len() { s[i] } else { 0u8 })
}

/// What `condition` returns for each mode.
pub open spec fn spec_condition(raw: Seq<u8>, n: nat, mode: ConditioningMode) -> Seq<u8> {
    match mode {
        ConditioningMode::Raw => fit_to(raw, n),
        ConditioningMode::VonNeumann => fit_to(spec_von_neumann(raw), n),
        ConditioningMode::Sha256 => spec_sha256_condition_bytes(raw, n),
    }
}

/// Cut or zero-pad `v` to exactly `n` bytes.
fn fit_vec(v: Vec<u8>, n: usize) -> (out: Vec<u8>)
    ensures
        out@ == fit_to(v@, n as nat),
{
    let mut out = v;
    let ghost orig = out@;
    out.truncate(n);
    while out.len() < n
        invariant
            out@.len() <= n,
            out@.len() < n ==> out@.len() >= orig.len(),
            forall|i: int| 0 <= i < out@.len() ==> out@[i] == fit_to(orig, n as nat)[i],
        decreases n - out@.len(),
    {
        out.push(0u8);
    }
    assert(out@ =~= fit_to(orig, n as nat));
    out
}

/// Apply the specified conditioning mode to raw entropy bytes; the output
/// is always exactly `n_output` bytes.
///
/// - `Raw`: the input unchanged, truncated or zero-padded to `n_output`
/// - `VonNeumann`: debiased, then truncated or zero-padded to `n_output`
/// - `Sha256`: chained SHA-256 hashing to produce exactly `n_output` bytes
pub fn condition(raw: &[u8], n_output: usize, mode: ConditioningMode) -> (out: Vec<u8>)
    ensures
        out@ == spec_condition(raw@, n_output as nat, mode),
        out@.len() == n_output,
{
    match mode {
        ConditioningMode::Raw => fit_vec(vstd::slice::slice_to_vec(raw), n_output),
        ConditioningMode::VonNeumann => fit_vec(von_neumann_debias(raw), n_output),
        ConditioningMode::Sha256 => sha256_condition_bytes(raw, n_output),
    }
}

// ---------------------------------------------------------------------------
// XOR folding
// ---------------------------------------------------------------------------

/// The XOR fold of `data`: the first half XORed byte by byte with the
/// second half (a trailing odd byte is dropped); inputs shorter than two
/// bytes are returned as they are.
pub open spec fn spec_xor_fold(data: Seq<u8>) -> Seq<u8> {
    if data.len() < 2 {
        data
    } else {
        let half = data.len() / 2;
        Seq::new(half, |i: int| data[i] ^ data[half + i])
    }
}

/// XOR-fold: reduce data by XORing the first half with the second half.
pub fn xor_fold(data: &[u8]) -> (out: Vec<u8>)
    ensures
        out@ == spec_xor_fold(data@),
{
    if data.len() < 2 {
        return vstd::slice::slice_to_vec(data);
    }
    let half = data.len() / 2;
    let mut out: Vec<u8> = Vec::with_capacity(half);
    let mut i: usize = 0;
    while i < half
        invariant
            half == data.len() / 2,
            i <= half,
            out@.len() == i,
            forall|k: int| 0 <= k < i ==> out@[k] == data@[k] ^ data@[half + k],
        decreases half - i,
    {
        out.push(data[i] ^ data[half + i]);
        i = i + 1;
    }
    assert(out@ =~= spec_xor_fold(data@));
    out
}

// ---------------------------------------------------------------------------
// Counts behind the min-entropy estimators
// ---------------------------------------------------------------------------

/// How often each byte value occurs in `data`: entry `v` counts value `v`.
pub fn byte_histogram(data: &[u8]) -> (counts: Vec<usize>)
    ensures
        counts@.len() == 256,
        forall|v: int| 0 <= v < 256 ==> #[trigger] counts@[v] == byte_count(data@, v as u8),
{
    let mut counts: Vec<usize> = vec![0usize; 256];
    let mut i: usize = 0;
    while i < data.len()
        invariant
            i <= data@.len(),
            counts@.len() == 256,
            forall|v: int| 0 <= v < 256 ==> #[trigger] counts@[v] == count_below(i as nat, holds_pred(data@, v as u8)),
            forall|v: int| 0 <= v < 256 ==> #[trigger] counts@[v] <= i,
        decreases data@.len() - i,
    {
        let b = data[i] as usize;
        let ghost before = counts@;
        counts.set(b, counts[b] + 1);
        proof {
            assert forall|v: int| 0 <= v < 256 implies #[trigger] counts@[v] == count_below(
                (i + 1) as nat,
                holds_pred(data@, v as u8),
            ) && counts@[v] <= i + 1 by {
                assert(before[v] == count_below(i as nat, holds_pred(data@, v as u8)));
                assert(holds_pred(data@, v as u8)(i as int) == (data@[i as int] == v as u8));
            }
        }
        i = i + 1;
    }
    counts
}

/// The predicate "byte value `v` occurs in `data`".
pub open spec fn occurs_pred(data: Seq<u8>) -> spec_fn(int) -> bool {
    |v: int| byte_count(data, v as u8) > 0
}

/// The number of distinct byte values in `data`.
pub fn distinct_byte_values(data: &[u8]) -> (n: usize)
    ensures
        n == count_below(256, occurs_pred(data@)),
        n <= 256,
{
    let counts = byte_histogram(data);
    let mut n: usize = 0;
    let mut v: usize = 0;
    while v < 256
        invariant
            v <= 256,
            counts@.len() == 256,
            forall|w: int| 0 <= w < 256 ==> #[trigger] counts@[w] == byte_count(data@, w as u8),
            n == count_below(v as nat, occurs_pred(data@)),
            n <= v,
        decreases 256 - v,
    {
        assert(counts@[v as int] == byte_count(data@, v as u8));
        if counts[v] > 0 {
            n = n + 1;
        }
        v = v + 1;
    }
    n
}

/// The position of the first byte equal to `data[i]` at or after `j`, or
/// `data.len()` when there is none.
pub open spec fn next_match(data: Seq<u8>, i: int, j: int) -> int
    decreases data.len() - j,
{
    if j >= data.len() {
        data.len() as int
    } else if data[j] == data[i] {
        j
    } else {
        next_match(data, i, j + 1)
    }
}

/// Collision distances from position `i` on: the distance from `data[i]`
/// to its next repetition, then the scan resumes after that repetition;
/// it stops at the first value that does not repeat.
pub open spec fn collision_scan(data: Seq<u8>, i: int) -> Seq<usize>
    decreases data.len() - i,
{
    if i < 0 || i + 1 >= data.len() {
        Seq::empty()
    } else {
        let j = next_match(data, i, i + 1);
        if j < data.len() {
            proof {
                lemma_next_match_range(data, i, i + 1);
            }
            seq![(j - i) as usize] + collision_scan(data, j + 1)
        } else {
            Seq::empty()
        }
    }
}

/// The next repetition lies between the start of the search and the end.
pub proof fn lemma_next_match_range(data: Seq<u8>, i: int, j: int)
    requires
        j <= data.len(),
    ensures
        j <= next_match(data, i, j) <= data.len(),
    decreases data.len() - j,
{
    if j < data.len() && data[j] != data[i] {
        lemma_next_match_range(data, i, j + 1);
    }
}

/// The distances between repeated values that the collision estimate
/// averages.
pub fn collision_distances(data: &[u8]) -> (distances: Vec<usize>)
    ensures
        distances@ == collision_scan(data@, 0),
{
    let n = data.len();
    let mut distances: Vec<usize> = Vec::new();
    let mut i: usize = 0;
    while n > 0 && i < n - 1
        invariant
            n == data@.len(),
            i <= n,
            distances@ + collision_scan(data@, i as int) == collision_scan(data@, 0),
        decreases n - i,
    {
        let mut j = i + 1;
        while j < n && data[j] != data[i]
            invariant
                n == data@.len(),
                i < j <= n,
                next_match(data@, i as int, i + 1) == next_match(data@, i as int, j as int),
            decreases n - j,
        {
            j = j + 1;
        }
        proof {
            lemma_next_match_range(data@, i as int, j as int);
        }
        let ghost rest = collision_scan(data@, i as int);
        if j < n {
            let ghost before = distances@;
            distances.push(j - i);
            assert(rest == seq![(j - i) as usize] + collision_scan(data@, j + 1));
            assert(distances@ + collision_scan(data@, (j + 1) as int) =~= before + rest);
            i = j + 1;
        } else {
            assert(rest == Seq::<usize>::empty());
            assert(distances@ =~= collision_scan(data@, 0));
            return distances;
        }
    }
    assert(collision_scan(data@, i as int) == Seq::<usize>::empty());
    assert(distances@ =~= collision_scan(data@, 0));
    distances
}

} // verus!
