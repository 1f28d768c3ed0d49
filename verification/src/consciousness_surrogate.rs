//! Surrogate data for significance testing: a deterministic xorshift64
//! generator and Fisher-Yates shuffle surrogates that keep the byte
//! histogram while destroying temporal order.

use vstd::prelude::*;

use crate::counting::{
    count_below, lemma_count_disjoint_union, lemma_count_ext, lemma_count_unique,
};

verus! {

// ---------------------------------------------------------------------------
// Xorshift64 PRNG
// ---------------------------------------------------------------------------

/// One xorshift64 step (shifts 13, 7, 17).
pub open spec fn xorshift_step(x: u64) -> u64 {
    let a = x ^ (x << 13u64);
    let b = a ^ (a >> 7u64);
    b ^ (b << 17u64)
}

/// The initial state for a seed: the seed, or 1 for seed 0.
pub open spec fn seed_state(seed: u64) -> u64 {
    if seed == 0 {
        1
    } else {
        seed
    }
}

/// A xorshift step never maps a nonzero state to zero.
pub proof fn lemma_xorshift_nonzero(x: u64)
    requires
        x != 0,
    ensures
        xorshift_step(x) != 0,
{
    assert(x != 0 ==> (x ^ (x << 13u64)) != 0) by (bit_vector);
    let a = x ^ (x << 13u64);
    assert(a != 0 ==> (a ^ (a >> 7u64)) != 0) by (bit_vector);
    let b = a ^ (a >> 7u64);
    assert(b != 0 ==> (b ^ (b << 17u64)) != 0) by (bit_vector);
}

/// Simple xorshift64 PRNG for deterministic shuffling.
pub struct Xorshift64 {
    state: u64,
}

impl View for Xorshift64 {
    type V = u64;

    closed spec fn view(&self) -> u64 {
        self.state
    }
}

impl Xorshift64 {
    /// A generator seeded with `seed` (0 is replaced by 1).
    pub fn new(seed: u64) -> (rng: Self)
        ensures
            rng@ == seed_state(seed),
            rng@ != 0,
    {
        Self { state: if seed == 0 { 1 } else { seed } }
    }

    /// Advance the state by one xorshift step and return it.
    pub fn next(&mut self) -> (x: u64)
        ensures
            final(self)@ == xorshift_step(old(self)@),
            x == final(self)@,
            old(self)@ != 0 ==> x != 0,
    {
        proof {
            if self.state != 0 {
                lemma_xorshift_nonzero(self.state);
            }
        }
        let mut x = self.state;
        x = x ^ (x << 13u64);
        x = x ^ (x >> 7u64);
        x = x ^ (x << 17u64);
        self.state = x;
        x
    }

    /// Generate a random index in `[0, n)`.
    pub fn next_usize(&mut self, n: usize) -> (i: usize)
        requires
            n > 0,
        ensures
            final(self)@ == xorshift_step(old(self)@),
            i == final(self)@ % (n as u64),
            i < n,
    {
        (self.next() % n as u64) as usize
    }
}

// ---------------------------------------------------------------------------
// Shuffle surrogates
// ---------------------------------------------------------------------------

/// `s` with the elements at `i` and `j` exchanged.
pub open spec fn seq_swap(s: Seq<u8>, i: int, j: int) -> Seq<u8> {
    s.update(i, s[j]).update(j, s[i])
}

/// Fisher-Yates from position `i` down to 1, drawing each partner index
/// from the generator state `st`.
pub open spec fn fisher_yates(s: Seq<u8>, i: nat, st: u64) -> Seq<u8>
    decreases i,
{
    if i == 0 {
        s
    } else {
        let st2 = xorshift_step(st);
        let j = (st2 % ((i + 1) as u64)) as int;
        fisher_yates(seq_swap(s, i as int, j), (i - 1) as nat, st2)
    }
}

/// The shuffle surrogate of `data` for `seed`.
pub open spec fn spec_shuffle(data: Seq<u8>, seed: u64) -> Seq<u8> {
    if data.len() <= 1 {
        data
    } else {
        fisher_yates(data, (data.len() - 1) as nat, seed_state(seed))
    }
}

/// The predicate "holds value `x`" over positions of `s`.
pub open spec fn holds_pred(s: Seq<u8>, x: u8) -> spec_fn(int) -> bool {
    |k: int| s[k] == x
}

/// How many positions of `s` hold `x`.
pub open spec fn byte_count(s: Seq<u8>, x: u8) -> nat {
    count_below(s.len(), holds_pred(s, x))
}

/// Exchanging two elements keeps how often every value occurs.
pub proof fn lemma_swap_keeps_counts(s: Seq<u8>, i: int, j: int, x: u8)
    requires
        0 <= i < s.len(),
        0 <= j < s.len(),
    ensures
        byte_count(seq_swap(s, i, j), x) == byte_count(s, x),
{
    let t = seq_swap(s, i, j);
    let n = s.len();
    if i == j {
        assert(t =~= s);
    } else {
        let p = holds_pred(s, x);
        let q = holds_pred(t, x);
        let rest = |k: int| k != i && k != j && s[k] == x;
        let at_i = |k: int| k == i && s[k] == x;
        let at_j = |k: int| k == j && s[k] == x;
        let at_ij = |k: int| (k == i || k == j) && s[k] == x;
        let tat_i = |k: int| k == i && t[k] == x;
        let tat_j = |k: int| k == j && t[k] == x;
        let tat_ij = |k: int| (k == i || k == j) && t[k] == x;
        let trest = |k: int| k != i && k != j && t[k] == x;
        // split both counts into the two positions and the rest
        lemma_count_disjoint_union(n, rest, at_ij, p);
        lemma_count_disjoint_union(n, at_i, at_j, at_ij);
        lemma_count_disjoint_union(n, trest, tat_ij, q);
        lemma_count_disjoint_union(n, tat_i, tat_j, tat_ij);
        lemma_count_ext(n, rest, trest);
        lemma_count_unique(n, at_i);
        lemma_count_unique(n, at_j);
        lemma_count_unique(n, tat_i);
        lemma_count_unique(n, tat_j);
        assert(t[i] == s[j] && t[j] == s[i]);
        if s[i] == x {
            assert(at_i(i) && tat_j(j));
        } else {
            assert(!exists|k: int| 0 <= k < n && #[trigger] at_i(k));
            assert(!exists|k: int| 0 <= k < n && #[trigger] tat_j(k));
        }
        if s[j] == x {
            assert(at_j(j) && tat_i(i));
        } else {
            assert(!exists|k: int| 0 <= k < n && #[trigger] at_j(k));
            assert(!exists|k: int| 0 <= k < n && #[trigger] tat_i(k));
        }
    }
}

/// Fisher-Yates keeps the byte histogram.
proof fn lemma_fisher_yates_counts(s: Seq<u8>, i: nat, st: u64, x: u8)
    requires
        i < s.len(),
        s.len() <= u64::MAX,
    ensures
        fisher_yates(s, i, st).len() == s.len(),
        byte_count(fisher_yates(s, i, st), x) == byte_count(s, x),
    decreases i,
{
    if i > 0 {
        let st2 = xorshift_step(st);
        let j = (st2 % ((i + 1) as u64)) as int;
        assert(((i + 1) as u64) == i + 1);
        assert(j < i + 1);
        lemma_swap_keeps_counts(s, i as int, j, x);
        lemma_fisher_yates_counts(seq_swap(s, i as int, j), (i - 1) as nat, st2, x);
    }
}

/// A shuffle surrogate has the same length and the same byte histogram as
/// its data.
pub proof fn lemma_shuffle_keeps_histogram(data: Seq<u8>, seed: u64, x: u8)
    requires
        data.len() <= u64::MAX,
    ensures
        spec_shuffle(data, seed).len() == data.len(),
        byte_count(spec_shuffle(data, seed), x) == byte_count(data, x),
{
    if data.len() > 1 {
        lemma_fisher_yates_counts(data, (data.len() - 1) as nat, seed_state(seed), x);
    }
}

proof fn lemma_fisher_yates_take(s: Seq<u8>, i: nat, st: u64, m: nat)
    requires
        i < m <= s.len(),
        s.len() <= u64::MAX,
    ensures
        fisher_yates(s, i, st).take(m as int) == fisher_yates(s.take(m as int), i, st),
        fisher_yates(s, i, st).len() == s.len(),
    decreases i,
{
    if i > 0 {
        let st2 = xorshift_step(st);
        let j = (st2 % ((i + 1) as u64)) as int;
        assert(((i + 1) as u64) == i + 1);
        assert(j < i + 1);
        assert(seq_swap(s, i as int, j).take(m as int) =~= seq_swap(s.take(m as int), i as int, j));
        lemma_fisher_yates_take(seq_swap(s, i as int, j), (i - 1) as nat, st2, m);
    } else {
        assert(fisher_yates(s, i, st) == s);
    }
}

/// The shuffle fixes its last position first: with `x` the generator's
/// first output for the seed and `j = x % n` (any of the `n` positions,
/// the last one included), the surrogate ends with `data[j]`, and its
/// first `n - 1` bytes are the surrogate, for seed `x`, of the data with
/// positions `j` and `n - 1` exchanged and the last byte dropped.
pub proof fn lemma_shuffle_step(data: Seq<u8>, seed: u64)
    requires
        2 <= data.len() <= u64::MAX,
    ensures
        ({
            let n = data.len();
            let x = xorshift_step(seed_state(seed));
            let j = (x % (n as u64)) as int;
            let rest = data.update(j, data[n - 1]).update(n - 1, data[j]).take(n - 1);
            &&& 0 <= j < n
            &&& spec_shuffle(data, seed) == spec_shuffle(rest, x).push(data[j])
        }),
{
    let n = data.len();
    let st = seed_state(seed);
    let x = xorshift_step(st);
    assert((n as u64) == n);
    let j = (x % (n as u64)) as int;
    assert(st != 0);
    lemma_xorshift_nonzero(st);
    assert(seed_state(x) == x);
    let i = (n - 1) as nat;
    assert(((i + 1) as u64) == n);
    let swapped = seq_swap(data, i as int, j);
    assert(swapped =~= data.update(j, data[n - 1]).update(n - 1, data[j]));
    assert(spec_shuffle(data, seed) == fisher_yates(swapped, (i - 1) as nat, x));
    lemma_fisher_yates_take(swapped, (i - 1) as nat, x, i);
    let rest = swapped.take(i as int);
    let full = fisher_yates(swapped, (i - 1) as nat, x);
    lemma_fisher_yates_fixes_above(swapped, (i - 1) as nat, x, i as int);
    if i == 1 {
        assert(fisher_yates(rest, 0, x) == rest);
        assert(spec_shuffle(rest, x) == rest);
    } else {
        assert(spec_shuffle(rest, x) == fisher_yates(rest, (i - 1) as nat, x));
    }
    assert(full =~= full.take(i as int).push(full[i as int]));
    assert(full[i as int] == swapped[i as int]);
}

proof fn lemma_fisher_yates_fixes_above(s: Seq<u8>, i: nat, st: u64, k: int)
    requires
        i < k < s.len(),
        s.len() <= u64::MAX,
    ensures
        fisher_yates(s, i, st)[k] == s[k],
    decreases i,
{
    if i > 0 {
        let st2 = xorshift_step(st);
        let j = (st2 % ((i + 1) as u64)) as int;
        assert(((i + 1) as u64) == i + 1);
        assert(j < i + 1);
        lemma_fisher_yates_fixes_above(seq_swap(s, i as int, j), (i - 1) as nat, st2, k);
    }
}

/// Generate a shuffle surrogate: randomly permute the data (Fisher-Yates
/// driven by xorshift64 seeded with `seed`). Keeps the byte histogram.
pub fn shuffle_surrogate(data: &[u8], seed: u64) -> (surrogate: Vec<u8>)
    ensures
        surrogate@ == spec_shuffle(data@, seed),
        surrogate@.len() == data@.len(),
        forall|x: u8| #[trigger] byte_count(surrogate@, x) == byte_count(data@, x),
{
    let len = data.len();
    assert(len as int <= u64::MAX);
    proof {
        assert forall|x: u8| #[trigger] byte_count(spec_shuffle(data@, seed), x) == byte_count(
            data@,
            x,
        ) by {
            lemma_shuffle_keeps_histogram(data@, seed, x);
        }
        lemma_shuffle_keeps_histogram(data@, seed, 0);
    }
    let mut surrogate = vstd::slice::slice_to_vec(data);
    let n = surrogate.len();
    if n <= 1 {
        return surrogate;
    }
    let mut rng = Xorshift64::new(seed);
    let mut i: usize = n - 1;
    while i >= 1
        invariant
            n == data@.len(),
            n >= 2,
            i < n,
            surrogate@.len() == n,
            fisher_yates(surrogate@, i as nat, rng@) == spec_shuffle(data@, seed),
        decreases i,
    {
        let ghost prev = surrogate@;
        let j = rng.next_usize(i + 1);
        let a = surrogate[i];
        let b = surrogate[j];
        surrogate.set(i, b);
        surrogate.set(j, a);
        assert(surrogate@ =~= seq_swap(prev, i as int, j as int));
        i = i - 1;
    }
    surrogate
}

} // verus!
