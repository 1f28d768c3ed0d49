//! The counting behind the regularity measures of a byte series: template
//! matches for approximate and sample entropy, and the Lempel-Ziv (LZ76)
//! phrase count of the bit stream of a byte buffer.
//!
//! Two templates (runs of `m` consecutive bytes) match when every pair of
//! bytes at the same offset differs by at most a tolerance.
//!
//! The bit stream takes the bytes in order, each most significant bit
//! first. The parse starts with a one-bit phrase; from each later position
//! `p` it looks for the longest run that begins at some earlier position and
//! agrees with the stream from `p` on, and takes one more bit than that run
//! as the next phrase.

use vstd::prelude::*;
use vstd::arithmetic::power2::{pow2, lemma_pow2_unfold, lemma2_to64};
use crate::consciousness::stream_bit;
use crate::counting::{count_below, lemma_count_le, lemma_count_mono_pred, lemma_count_none};

verus! {

// ---------------------------------------------------------------------------
// Template matching
// ---------------------------------------------------------------------------

/// The distance between two byte values.
pub open spec fn byte_distance(a: u8, b: u8) -> int {
    if a >= b {
        a - b
    } else {
        b - a
    }
}

/// The length-`m` templates of `data` at `i` and `j` agree within `tol` at
/// every offset.
pub open spec fn templates_within(data: Seq<u8>, i: int, j: int, m: nat, tol: int) -> bool {
    forall|k: int| 0 <= k < m ==> #[trigger] byte_distance(data[i + k], data[j + k]) <= tol
}

/// The predicate "template `j` matches template `i`".
pub open spec fn matches_template(data: Seq<u8>, i: int, m: nat, tol: int) -> spec_fn(int) -> bool {
    |j: int| templates_within(data, i, j, m, tol)
}

/// The predicate "template `j` comes after template `i` and matches it".
pub open spec fn later_match(data: Seq<u8>, i: int, m: nat, tol: int) -> spec_fn(int) -> bool {
    |j: int| i < j && templates_within(data, i, j, m, tol)
}

/// The number of templates of length `m` in a series of `n` values.
pub open spec fn template_count(n: nat, m: nat) -> nat {
    (n - m + 1) as nat
}

/// The number of pairs `i < j` among the first `rows` starts (of `len`)
/// whose length-`m` templates match.
pub open spec fn matching_pairs(data: Seq<u8>, m: nat, tol: int, len: nat, rows: nat) -> nat
    decreases rows,
{
    if rows == 0 {
        0
    } else {
        matching_pairs(data, m, tol, len, (rows - 1) as nat)
            + count_below(len, later_match(data, rows - 1, m, tol))
    }
}

/// Whether the length-`m` templates at `i` and `j` match within `tol`.
fn templates_match(data: &[u8], i: usize, j: usize, m: usize, tol: i32) -> (ok: bool)
    requires
        i + m <= data@.len(),
        j + m <= data@.len(),
    ensures
        ok == templates_within(data@, i as int, j as int, m as nat, tol as int),
{
    let n = data.len();
    let mut k: usize = 0;
    while k < m
        invariant
            n == data@.len(),
            i + m <= data@.len(),
            j + m <= data@.len(),
            k <= m,
            forall|t: int| 0 <= t < k ==> #[trigger] byte_distance(data@[i + t], data@[j + t]) <= tol,
        decreases m - k,
    {
        let a = data[i + k];
        let b = data[j + k];
        let d: i32 = if a >= b {
            (a - b) as i32
        } else {
            (b - a) as i32
        };
        assert(d == byte_distance(data@[i + k], data@[j + k as int]));
        if d > tol {
            return false;
        }
        k = k + 1;
    }
    true
}

/// For each length-`m` template of `data`, the number of templates (itself
/// included) that match it within `tol`: the counts behind approximate
/// entropy's `phi(m)`.
pub fn template_match_counts(data: &[u8], m: usize, tol: i32) -> (counts: Vec<u32>)
    requires
        m <= data@.len(),
        data@.len() - m + 1 <= u32::MAX,
    ensures
        counts@.len() == template_count(data@.len(), m as nat),
        forall|i: int| 0 <= i < counts@.len() ==>
            #[trigger] counts@[i] == count_below(template_count(data@.len(), m as nat), matches_template(data@, i, m as nat, tol as int)),
        tol >= 0 ==> forall|i: int| 0 <= i < counts@.len() ==> #[trigger] counts@[i] >= 1,
{
    let n = data.len();
    let n_templates = n - m + 1;
    let mut counts: Vec<u32> = Vec::with_capacity(n_templates);
    let mut i: usize = 0;
    while i < n_templates
        invariant
            n == data@.len(),
            m <= n,
            n_templates == template_count(n as nat, m as nat),
            n_templates <= u32::MAX,
            i <= n_templates,
            counts@.len() == i,
            forall|t: int| 0 <= t < i ==>
                #[trigger] counts@[t] == count_below(n_templates as nat, matches_template(data@, t, m as nat, tol as int)),
        decreases n_templates - i,
    {
        let ghost pred = matches_template(data@, i as int, m as nat, tol as int);
        let mut c: u32 = 0;
        let mut j: usize = 0;
        while j < n_templates
            invariant
                n == data@.len(),
                m <= n,
                n_templates == template_count(n as nat, m as nat),
                n_templates <= u32::MAX,
                i < n_templates,
                j <= n_templates,
                pred == matches_template(data@, i as int, m as nat, tol as int),
                c == count_below(j as nat, pred),
            decreases n_templates - j,
        {
            proof {
                lemma_count_le(j as nat, pred);
            }
            if templates_match(data, i, j, m, tol) {
                c = c + 1;
            }
            j = j + 1;
        }
        counts.push(c);
        i = i + 1;
    }
    proof {
        if tol >= 0 {
            assert forall|t: int| 0 <= t < counts@.len() implies #[trigger] counts@[t] >= 1 by {
                lemma_template_counts_positive(data@, m as nat, tol as int, t);
            }
        }
    }
    counts
}

/// With a tolerance of at least zero every template matches itself, so no
/// count is zero.
pub proof fn lemma_template_counts_positive(data: Seq<u8>, m: nat, tol: int, i: int)
    requires
        m <= data.len(),
        0 <= i < template_count(data.len(), m),
        tol >= 0,
    ensures
        count_below(template_count(data.len(), m), matches_template(data, i, m, tol)) >= 1,
{
    let pred = matches_template(data, i, m, tol);
    let never = |j: int| false;
    assert(pred(i)) by {
        assert forall|k: int| 0 <= k < m implies #[trigger] byte_distance(data[i + k], data[i + k]) <= tol by {}
    }
    lemma_count_none(template_count(data.len(), m), never);
    lemma_count_mono_pred(template_count(data.len(), m), never, pred);
}

fn count_later_matches(data: &[u8], i: usize, m: usize, tol: i32, len: usize) -> (counts: (u64, u64))
    requires
        i < len,
        len + m == data@.len(),
        len <= u64::MAX,
    ensures
        counts.0 == count_below(len as nat, later_match(data@, i as int, m as nat, tol as int)),
        counts.1 == count_below(len as nat, later_match(data@, i as int, (m + 1) as nat, tol as int)),
{
    let ghost pm = later_match(data@, i as int, m as nat, tol as int);
    let ghost pm1 = later_match(data@, i as int, (m + 1) as nat, tol as int);
    proof {
        lemma_count_none((i + 1) as nat, pm);
        lemma_count_none((i + 1) as nat, pm1);
    }
    let n = data.len();
    let mut b: u64 = 0;
    let mut a: u64 = 0;
    let mut j: usize = i + 1;
    while j < len
        invariant
            n == data@.len(),
            len + m == data@.len(),
            len <= u64::MAX,
            i < j <= len,
            pm == later_match(data@, i as int, m as nat, tol as int),
            pm1 == later_match(data@, i as int, (m + 1) as nat, tol as int),
            b == count_below(j as nat, pm),
            a == count_below(j as nat, pm1),
        decreases len - j,
    {
        proof {
            lemma_count_le(j as nat, pm);
            lemma_count_le(j as nat, pm1);
        }
        if templates_match(data, i, j, m, tol) {
            b = b + 1;
            let x = data[i + m];
            let y = data[j + m];
            let d: i32 = if x >= y {
                (x - y) as i32
            } else {
                (y - x) as i32
            };
            proof {
                let w = (m + 1) as nat;
                if d <= tol {
                    assert forall|k: int| 0 <= k < w implies #[trigger] byte_distance(data@[i + k], data@[j + k]) <= tol by {
                        if k < m {
                            assert(templates_within(data@, i as int, j as int, m as nat, tol as int));
                        }
                    }
                } else {
                    assert(byte_distance(data@[i + m as int], data@[j + m as int]) > tol);
                }
            }
            if d <= tol {
                a = a + 1;
            }
        } else {
            proof {
                assert(!templates_within(data@, i as int, j as int, m as nat, tol as int));
                let k = choose|k: int| 0 <= k < m && !(#[trigger] byte_distance(data@[i + k], data@[j + k]) <= tol);
                assert(!templates_within(data@, i as int, j as int, (m + 1) as nat, tol as int));
            }
        }
        j = j + 1;
    }
    (b, a)
}

/// The pair counts behind sample entropy: over the starts `0..n - m`, the
/// number of pairs `i < j` whose length-`m` templates match, and the number
/// whose length-`m + 1` templates match.
pub fn sample_entropy_counts(data: &[u8], m: usize, tol: i32) -> (counts: (u64, u64))
    requires
        data@.len() > m + 1,
        (data@.len() as int) * (data@.len() as int) <= u64::MAX,
    ensures
        counts.0 == matching_pairs(data@, m as nat, tol as int, (data@.len() - m) as nat, (data@.len() - m) as nat),
        counts.1 == matching_pairs(data@, (m + 1) as nat, tol as int, (data@.len() - m) as nat, (data@.len() - m) as nat),
        counts.1 <= counts.0,
{
    let n = data.len();
    let len = n - m;
    let mut b: u64 = 0;
    let mut a: u64 = 0;
    let mut i: usize = 0;
    while i < len
        invariant
            n == data@.len(),
            len + m == n,
            (n as int) * (n as int) <= u64::MAX,
            i <= len,
            b == matching_pairs(data@, m as nat, tol as int, len as nat, i as nat),
            a == matching_pairs(data@, (m + 1) as nat, tol as int, len as nat, i as nat),
            b <= i * len,
            a <= i * len,
        decreases len - i,
    {
        let (bi, ai) = count_later_matches(data, i, m, tol, len);
        proof {
            lemma_count_le(len as nat, later_match(data@, i as int, m as nat, tol as int));
            lemma_count_le(len as nat, later_match(data@, i as int, (m + 1) as nat, tol as int));
            assert((i + 1) * len <= n * n) by (nonlinear_arith)
                requires
                    i < len,
                    len <= n,
            ;
            assert((i + 1) * len == i * len + len) by (nonlinear_arith);
        }
        b = b + bi;
        a = a + ai;
        i = i + 1;
    }
    proof {
        lemma_longer_matches_fewer(data@, m as nat, tol as int, len as nat, len as nat);
    }
    (b, a)
}

/// Every pair whose longer templates match also matches on the shorter
/// ones, so sample entropy's second count never exceeds its first.
pub proof fn lemma_longer_matches_fewer(data: Seq<u8>, m: nat, tol: int, len: nat, rows: nat)
    requires
        len + m <= data.len(),
    ensures
        matching_pairs(data, m + 1, tol, len, rows) <= matching_pairs(data, m, tol, len, rows),
    decreases rows,
{
    if rows > 0 {
        lemma_longer_matches_fewer(data, m, tol, len, (rows - 1) as nat);
        let i = rows - 1;
        let p = later_match(data, i, m + 1, tol);
        let q = later_match(data, i, m, tol);
        assert forall|j: int| 0 <= j < len && #[trigger] p(j) implies q(j) by {
            assert forall|k: int| 0 <= k < m implies #[trigger] byte_distance(data[i + k], data[j + k]) <= tol by {
                assert(templates_within(data, i, j, m + 1, tol));
            }
        }
        lemma_count_mono_pred(len, p, q);
    }
}

// ---------------------------------------------------------------------------
// Lempel-Ziv phrase counting
// ---------------------------------------------------------------------------

/// The bit stream of `data`: each byte in order, most significant bit first.
pub open spec fn bit_stream(data: Seq<u8>) -> Seq<u8> {
    Seq::new(8 * data.len(), |j: int| stream_bit(data, j))
}

/// How far the run that starts at `j` agrees with the run that starts at
/// `p`, counted on from `l`: it stops at the first disagreement, when the
/// run from `j` reaches `p`, or when the run from `p` reaches the end.
pub open spec fn common_run(bits: Seq<u8>, j: int, p: int, l: nat) -> nat
    decreases bits.len() - p - l,
{
    if l < p - j && p + l < bits.len() && bits[j + l] == bits[p + l] {
        common_run(bits, j, p, l + 1)
    } else {
        l
    }
}

/// Length of the match of the stream from `p` against the earlier start `j`.
pub open spec fn match_len(bits: Seq<u8>, j: int, p: int) -> nat {
    common_run(bits, j, p, 0)
}

/// The longest match of the stream from `p` over the starts `0..m`.
pub open spec fn best_match_upto(bits: Seq<u8>, p: int, m: nat) -> nat
    decreases m,
{
    if m == 0 {
        0
    } else {
        let prev = best_match_upto(bits, p, (m - 1) as nat);
        let here = match_len(bits, m - 1, p);
        if here > prev {
            here
        } else {
            prev
        }
    }
}

/// The longest match of the stream from `p` against any earlier start.
pub open spec fn longest_prior_match(bits: Seq<u8>, p: int) -> nat {
    best_match_upto(bits, p, p as nat)
}

/// The number of phrases that the parse takes from position `p` to the end.
pub open spec fn phrases_from(bits: Seq<u8>, p: int) -> nat
    decreases bits.len() + 1 - p,
{
    if 0 <= p < bits.len() {
        proof {
            lemma_best_match_bound(bits, p, p as nat);
        }
        1 + phrases_from(bits, p + longest_prior_match(bits, p) + 1)
    } else {
        0
    }
}

/// The LZ76 complexity of a byte buffer: the phrase count of its bit stream,
/// the opening one-bit phrase included.
pub open spec fn spec_lz76_phrases(data: Seq<u8>) -> nat {
    1 + phrases_from(bit_stream(data), 1)
}

proof fn lemma_common_run_bound(bits: Seq<u8>, j: int, p: int, l: nat)
    requires
        0 <= j < p <= bits.len(),
        l <= p - j,
        p + l <= bits.len(),
    ensures
        l <= common_run(bits, j, p, l),
        common_run(bits, j, p, l) <= p - j,
        p + common_run(bits, j, p, l) <= bits.len(),
    decreases bits.len() - p - l,
{
    if l < p - j && p + l < bits.len() && bits[j + l] == bits[p + l] {
        lemma_common_run_bound(bits, j, p, l + 1);
    }
}

/// No match from `p` runs past the end of the stream.
pub proof fn lemma_best_match_bound(bits: Seq<u8>, p: int, m: nat)
    requires
        0 <= p <= bits.len(),
        m <= p,
    ensures
        p + best_match_upto(bits, p, m) <= bits.len(),
    decreases m,
{
    if m > 0 {
        lemma_best_match_bound(bits, p, (m - 1) as nat);
        lemma_common_run_bound(bits, m - 1, p, 0);
    }
}

/// Once a start's match runs up to `p` or to the end of the stream, no later
/// start can match further.
proof fn lemma_later_starts_no_longer(bits: Seq<u8>, p: int, j: int, m: nat)
    requires
        0 <= j < p <= bits.len(),
        match_len(bits, j, p) == p - j || p + match_len(bits, j, p) == bits.len(),
        j + 1 <= m <= p,
    ensures
        best_match_upto(bits, p, m) == best_match_upto(bits, p, (j + 1) as nat),
    decreases m,
{
    if m > j + 1 {
        lemma_later_starts_no_longer(bits, p, j, (m - 1) as nat);
        lemma_common_run_bound(bits, m - 1, p, 0);
        lemma_common_run_bound(bits, j, p, 0);
    }
}

proof fn lemma_phrases_bound(bits: Seq<u8>, p: int)
    requires
        0 <= p,
    ensures
        p <= bits.len() ==> phrases_from(bits, p) <= bits.len() - p,
        p >= bits.len() ==> phrases_from(bits, p) == 0,
        p < bits.len() ==> phrases_from(bits, p) >= 1,
    decreases bits.len() + 1 - p,
{
    if p < bits.len() {
        lemma_best_match_bound(bits, p, p as nat);
        lemma_phrases_bound(bits, p + longest_prior_match(bits, p) + 1);
    }
}

/// The LZ76 phrase count is at least one and, for a non-empty buffer, at
/// most the number of bits in it.
pub proof fn lemma_lz76_phrases_bounded(data: Seq<u8>)
    ensures
        1 <= spec_lz76_phrases(data),
        data.len() > 0 ==> spec_lz76_phrases(data) <= 8 * data.len(),
{
    lemma_phrases_bound(bit_stream(data), 1);
}

/// Every bit of the stream equals the first.
pub open spec fn is_constant_stream(bits: Seq<u8>) -> bool {
    forall|t: int| 0 <= t < bits.len() ==> #[trigger] bits[t] == bits[0]
}

proof fn lemma_constant_common_run(bits: Seq<u8>, j: int, p: int, l: nat)
    requires
        is_constant_stream(bits),
        0 <= j < p <= bits.len(),
        l <= p - j,
        p + l <= bits.len(),
    ensures
        common_run(bits, j, p, l) == if p - j < bits.len() - p {
            p - j
        } else {
            bits.len() - p
        },
    decreases bits.len() - p - l,
{
    if l < p - j && p + l < bits.len() {
        assert(bits[j + l] == bits[0] && bits[p + l] == bits[0]);
        lemma_constant_common_run(bits, j, p, l + 1);
    }
}

proof fn lemma_constant_best_match(bits: Seq<u8>, p: int, m: nat)
    requires
        is_constant_stream(bits),
        0 < p <= bits.len(),
        1 <= m <= p,
    ensures
        best_match_upto(bits, p, m) == if p < bits.len() - p {
            p
        } else {
            bits.len() - p
        },
    decreases m,
{
    lemma_constant_common_run(bits, m - 1, p, 0);
    if m > 1 {
        lemma_constant_best_match(bits, p, (m - 1) as nat);
    } else {
        assert(best_match_upto(bits, p, 0) == 0);
    }
}

proof fn lemma_constant_phrases(bits: Seq<u8>, p: int)
    requires
        is_constant_stream(bits),
        1 <= p < bits.len(),
    ensures
        pow2(phrases_from(bits, p)) * (p + 1) <= 2 * bits.len(),
    decreases bits.len() - p,
{
    let n = bits.len() as int;
    lemma_constant_best_match(bits, p, p as nat);
    let next = p + longest_prior_match(bits, p) + 1;
    let f = phrases_from(bits, p);
    let g = phrases_from(bits, next);
    assert(f == 1 + g);
    lemma_pow2_unfold(f);
    assert(pow2(f) == 2 * pow2(g));
    if next < n {
        assert(next == 2 * p + 1);
        lemma_constant_phrases(bits, next);
        assert(pow2(g) * (next + 1) <= 2 * n);
        assert(pow2(f) * (p + 1) == pow2(g) * (next + 1)) by (nonlinear_arith)
            requires
                pow2(f) == 2 * pow2(g),
                next == 2 * p + 1,
        ;
    } else {
        lemma_phrases_bound(bits, next);
        assert(g == 0);
        assert(pow2(0) == 1) by {
            lemma2_to64();
        }
        assert(pow2(f) == 2);
        assert(pow2(f) * (p + 1) == 2 * (p + 1));
    }
}

/// A buffer whose bit stream is constant has low LZ76 complexity: with
/// `c` phrases, `2^(c - 1)` is at most the number of bits.
pub proof fn lemma_lz76_constant_stream(data: Seq<u8>)
    requires
        data.len() > 0,
        is_constant_stream(bit_stream(data)),
    ensures
        pow2((spec_lz76_phrases(data) - 1) as nat) <= 8 * data.len(),
{
    let bits = bit_stream(data);
    lemma_constant_phrases(bits, 1);
}

/// Expand a byte buffer into its bit stream, one `u8` (0 or 1) per bit.
pub fn stream_bits(data: &[u8]) -> (bits: Vec<u8>)
    requires
        8 * data@.len() <= usize::MAX,
    ensures
        bits@ == bit_stream(data@),
{
    let n_bits = data.len() * 8;
    let mut bits: Vec<u8> = Vec::with_capacity(n_bits);
    let mut j: usize = 0;
    while j < n_bits
        invariant
            n_bits == 8 * data@.len(),
            j <= n_bits,
            bits@.len() == j,
            forall|t: int| 0 <= t < j ==> bits@[t] == stream_bit(data@, t),
        decreases n_bits - j,
    {
        let byte = data[j / 8];
        let bit = (byte >> ((7 - j % 8) as u8)) & 1;
        assert(bit == stream_bit(data@, j as int));
        bits.push(bit);
        j = j + 1;
    }
    assert(bits@ =~= bit_stream(data@));
    bits
}

/// Length of the match of the stream from `p` against the start `j`.
fn run_length(bits: &Vec<u8>, j: usize, p: usize) -> (l: usize)
    requires
        j < p <= bits@.len(),
    ensures
        l == match_len(bits@, j as int, p as int),
        l <= p - j,
        p + l <= bits@.len(),
{
    let n = bits.len();
    let mut l: usize = 0;
    while l < p - j && p + l < n && bits[j + l] == bits[p + l]
        invariant
            n == bits@.len(),
            j < p <= n,
            l <= p - j,
            p + l <= n,
            common_run(bits@, j as int, p as int, l as nat) == match_len(bits@, j as int, p as int),
        decreases p - j - l,
    {
        l = l + 1;
    }
    l
}

/// The longest match of the stream from `p` against an earlier start. The
/// search stops at the first start whose match runs up to `p` or to the
/// end, since no later start can do better.
fn longest_match_before(bits: &Vec<u8>, p: usize) -> (best: usize)
    requires
        0 < p < bits@.len(),
    ensures
        best == longest_prior_match(bits@, p as int),
{
    let n = bits.len();
    let mut best: usize = 0;
    let mut j: usize = 0;
    let mut done = false;
    while j < p && !done
        invariant
            n == bits@.len(),
            0 < p < n,
            j <= p,
            best == best_match_upto(bits@, p as int, j as nat),
            done ==> best == best_match_upto(bits@, p as int, p as nat),
        decreases p - j,
    {
        let l = run_length(bits, j, p);
        if l > best {
            best = l;
        }
        if l == p - j || p + l == n {
            proof {
                lemma_later_starts_no_longer(bits@, p as int, j as int, p as nat);
            }
            done = true;
        }
        j = j + 1;
    }
    best
}

/// Lempel-Ziv (LZ76) phrase count of the bit stream of `data`: the measure
/// of algorithmic complexity that the normalised LZ76 complexity divides by
/// its expected value for random bits.
pub fn lz76_phrase_count(data: &[u8]) -> (count: u64)
    requires
        8 * data@.len() < usize::MAX,
    ensures
        count == spec_lz76_phrases(data@),
        1 <= count,
        data@.len() > 0 ==> count <= 8 * data@.len(),
{
    let bits = stream_bits(data);
    let n = bits.len();
    let ghost total = spec_lz76_phrases(data@);
    proof {
        lemma_lz76_phrases_bounded(data@);
        lemma_phrases_bound(bits@, 1);
    }
    let mut count: u64 = 1;
    let mut p: usize = 1;
    while p < n
        invariant
            n == bits@.len(),
            bits@ == bit_stream(data@),
            total == spec_lz76_phrases(data@),
            n < usize::MAX,
            1 <= p <= n + 1,
            1 <= count,
            count + phrases_from(bits@, p as int) == total,
            n > 0 ==> total <= n,
        decreases n + 1 - p,
    {
        let step = longest_match_before(&bits, p);
        proof {
            lemma_best_match_bound(bits@, p as int, p as nat);
            lemma_phrases_bound(bits@, p as int);
        }
        count = count + 1;
        p = p + step + 1;
    }
    proof {
        lemma_phrases_bound(bits@, p as int);
    }
    count
}

} // verus!
