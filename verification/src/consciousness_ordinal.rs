//! Ordinal pattern analysis (Bandt & Pompe): rank patterns of byte windows,
//! their Lehmer-code indices, pattern histograms and forbidden patterns.

use vstd::prelude::*;

use crate::counting::{
    count_below, lemma_count_all, lemma_count_complement, lemma_count_disjoint_union,
    lemma_count_ext, lemma_count_le, lemma_count_mono_pred, lemma_count_mono_range,
    lemma_count_none, lemma_count_prefix, lemma_count_unique,
};

verus! {

// ---------------------------------------------------------------------------
// Factorial
// ---------------------------------------------------------------------------

/// `n!`
pub open spec fn spec_factorial(n: nat) -> nat
    decreases n,
{
    if n == 0 {
        1
    } else {
        n * spec_factorial((n - 1) as nat)
    }
}

/// Factorials are positive and grow with their argument.
pub proof fn lemma_factorial_mono(m: nat, n: nat)
    requires
        m <= n,
    ensures
        1 <= spec_factorial(m) <= spec_factorial(n),
    decreases n,
{
    if n > 0 {
        if m < n {
            lemma_factorial_mono(m, (n - 1) as nat);
        }
        lemma_factorial_mono((n - 1) as nat, (n - 1) as nat);
        let f = spec_factorial((n - 1) as nat);
        assert(f <= n * f) by (nonlinear_arith)
            requires
                n >= 1,
                f >= 1,
        ;
    }
}

/// Compute `n!`.
pub fn factorial(n: usize) -> (f: usize)
    requires
        spec_factorial(n as nat) <= usize::MAX,
    ensures
        f == spec_factorial(n as nat),
{
    let mut acc: usize = 1;
    let mut i: usize = 0;
    while i < n
        invariant
            i <= n,
            acc == spec_factorial(i as nat),
            spec_factorial(n as nat) <= usize::MAX,
        decreases n - i,
    {
        proof {
            lemma_factorial_mono((i + 1) as nat, n as nat);
        }
        assert(acc * (i + 1) == spec_factorial((i + 1) as nat)) by (nonlinear_arith)
            requires
                acc == spec_factorial(i as nat),
                spec_factorial((i + 1) as nat) == (i + 1) * spec_factorial(i as nat),
        ;
        acc = acc * (i + 1);
        i = i + 1;
    }
    acc
}

// ---------------------------------------------------------------------------
// Ordinal (rank) patterns
// ---------------------------------------------------------------------------

/// Position `j` precedes position `i` in the ordering of `w`: by value,
/// ties broken by position.
pub open spec fn ranks_before(w: Seq<u8>, j: int, i: int) -> bool {
    w[j] < w[i] || (w[j] == w[i] && j < i)
}

/// The predicate "precedes position `i`" over positions of `w`.
pub open spec fn before_pred(w: Seq<u8>, i: int) -> spec_fn(int) -> bool {
    |j: int| ranks_before(w, j, i)
}

/// The rank of position `i` in `w`: how many positions precede it.
pub open spec fn spec_rank(w: Seq<u8>, i: int) -> nat {
    count_below(w.len(), before_pred(w, i))
}

/// The ordinal pattern of `w`: the rank of each position.
pub open spec fn spec_ordinal_pattern(w: Seq<u8>) -> Seq<usize> {
    Seq::new(w.len(), |i: int| spec_rank(w, i) as usize)
}

/// `s` holds the value `v` at some position.
pub open spec fn seq_has(s: Seq<usize>, v: int) -> bool {
    exists|k: int| 0 <= k < s.len() && s[k] == v
}

/// `p` is a permutation of `0..p.len()`: its values are in range and
/// pairwise distinct.
pub open spec fn is_permutation(p: Seq<usize>) -> bool {
    &&& forall|i: int| 0 <= i < p.len() ==> #[trigger] p[i] < p.len()
    &&& forall|i: int, j: int| 0 <= i < p.len() && 0 <= j < p.len() && i != j ==> p[i] != p[j]
}

/// Ranks are below the window length, and positions that precede one
/// another have strictly ordered ranks.
pub proof fn lemma_rank_facts(w: Seq<u8>, i: int, k: int)
    requires
        0 <= i < w.len(),
        0 <= k < w.len(),
    ensures
        spec_rank(w, i) < w.len(),
        ranks_before(w, i, k) ==> spec_rank(w, i) < spec_rank(w, k),
{
    let n = w.len();
    lemma_count_mono_pred(n, before_pred(w, i), |j: int| true);
    lemma_count_all(n, |j: int| true);
    assert((|j: int| true)(i) && !before_pred(w, i)(i));
    assert(exists|j: int| 0 <= j < n && (|j: int| true)(j) && !#[trigger] before_pred(w, i)(j));
    if ranks_before(w, i, k) {
        assert forall|j: int| 0 <= j < n && #[trigger] before_pred(w, i)(j) implies before_pred(
            w,
            k,
        )(j) by {}
        assert(before_pred(w, k)(i) && !before_pred(w, i)(i));
        assert(exists|j: int| 0 <= j < n && #[trigger] before_pred(w, k)(j) && !before_pred(w, i)(j));
        lemma_count_mono_pred(n, before_pred(w, i), before_pred(w, k));
    }
}

/// The ordinal pattern of any window is a permutation of its positions.
pub proof fn lemma_ordinal_pattern_is_permutation(w: Seq<u8>)
    requires
        w.len() <= usize::MAX,
    ensures
        is_permutation(spec_ordinal_pattern(w)),
{
    let p = spec_ordinal_pattern(w);
    assert forall|i: int| 0 <= i < p.len() implies #[trigger] p[i] < p.len() by {
        lemma_rank_facts(w, i, i);
    }
    assert forall|i: int, j: int|
        0 <= i < p.len() && 0 <= j < p.len() && i != j implies p[i] != p[j] by {
        lemma_rank_facts(w, i, j);
        lemma_rank_facts(w, j, i);
        assert(ranks_before(w, i, j) || ranks_before(w, j, i));
    }
}

/// Compute the ordinal rank pattern of a window of values: `pattern[i]` is
/// the rank of `window[i]`, equal values ranked by position.
pub fn ordinal_pattern(window: &[u8]) -> (pattern: Vec<usize>)
    ensures
        pattern@ == spec_ordinal_pattern(window@),
        is_permutation(pattern@),
{
    let n = window.len();
    let mut pattern: Vec<usize> = Vec::with_capacity(n);
    let mut i: usize = 0;
    while i < n
        invariant
            n == window@.len(),
            i <= n,
            pattern@.len() == i,
            forall|k: int| 0 <= k < i ==> pattern@[k] == spec_rank(window@, k) as usize,
        decreases n - i,
    {
        let mut r: usize = 0;
        let mut j: usize = 0;
        while j < n
            invariant
                n == window@.len(),
                i < n,
                j <= n,
                r == count_below(j as nat, before_pred(window@, i as int)),
            decreases n - j,
        {
            proof {
                lemma_count_le(j as nat, before_pred(window@, i as int));
            }
            if window[j] < window[i] || (window[j] == window[i] && j < i) {
                r = r + 1;
            }
            j = j + 1;
        }
        pattern.push(r);
        i = i + 1;
    }
    assert(pattern@ =~= spec_ordinal_pattern(window@));
    proof {
        lemma_ordinal_pattern_is_permutation(window@);
    }
    pattern
}

// ---------------------------------------------------------------------------
// Lehmer code of a pattern
// ---------------------------------------------------------------------------

/// The predicate "value not taken by `used`" over candidate values.
pub open spec fn unused_pred(used: Seq<usize>) -> spec_fn(int) -> bool {
    |j: int| !seq_has(used, j)
}

/// How many values below `v` are not taken by `used`.
pub open spec fn unused_below(used: Seq<usize>, v: nat) -> nat {
    count_below(v, unused_pred(used))
}

/// The Lehmer digit of position `i`: the number of values below `p[i]`
/// that no earlier position took.
pub open spec fn lehmer_digit(p: Seq<usize>, i: int) -> nat {
    unused_below(p.take(i), p[i] as nat)
}

/// All Lehmer digits of `p`.
pub open spec fn lehmer_digits(p: Seq<usize>) -> Seq<nat> {
    Seq::new(p.len(), |i: int| lehmer_digit(p, i))
}

/// Horner evaluation of the first `k` digits of `d` in the factorial
/// number system for patterns of length `n`: each step multiplies by the
/// number of values still free (`n - i`) and adds the next digit.
pub open spec fn horner(d: Seq<nat>, n: nat, k: nat) -> nat
    decreases k,
{
    if k == 0 {
        0
    } else {
        horner(d, n, (k - 1) as nat) * ((n - (k - 1)) as nat) + d[k - 1]
    }
}

/// The index of a pattern in `0..n!` (Lehmer code, factorial number system).
pub open spec fn spec_pattern_index(p: Seq<usize>) -> nat {
    horner(lehmer_digits(p), p.len(), p.len())
}

/// Digits read as a number in the factorial number system, most
/// significant first: `d[0] * (len-1)! + d[1] * (len-2)! + ...`.
pub open spec fn mixed_radix(d: Seq<nat>) -> nat
    decreases d.len(),
{
    if d.len() == 0 {
        0
    } else {
        d[0] * spec_factorial((d.len() - 1) as nat) + mixed_radix(d.drop_first())
    }
}

/// Horner evaluation never decreases as more digits are taken in.
pub proof fn lemma_horner_mono(d: Seq<nat>, n: nat, k: nat, m: nat)
    requires
        k <= m <= n,
    ensures
        horner(d, n, k) <= horner(d, n, m),
    decreases m,
{
    if k < m {
        lemma_horner_mono(d, n, k, (m - 1) as nat);
        let h = horner(d, n, (m - 1) as nat);
        let r = (n - (m - 1)) as nat;
        assert(h <= h * r) by (nonlinear_arith)
            requires
                r >= 1,
        ;
    }
}

/// Horner evaluation of all digits equals their factorial-base value.
pub proof fn lemma_horner_mixed_radix(d: Seq<nat>, k: nat)
    requires
        k <= d.len(),
    ensures
        horner(d, d.len(), k) * spec_factorial((d.len() - k) as nat) + mixed_radix(d.skip(k as int))
            == mixed_radix(d),
    decreases k,
{
    let n = d.len();
    if k == 0 {
        assert(d.skip(0) =~= d);
        assert(horner(d, n, k) == 0);
        assert(0 * spec_factorial(n) == 0);
    } else {
        let k1 = (k - 1) as nat;
        lemma_horner_mixed_radix(d, k1);
        let h = horner(d, n, k1);
        let r = (n - k1) as nat;
        let f = spec_factorial((n - k) as nat);
        assert(horner(d, n, k) == h * r + d[k1 as int]);
        assert(spec_factorial(r) == r * f);
        let s = d.skip(k1 as int);
        assert(s.drop_first() =~= d.skip(k as int));
        assert(s[0] == d[k1 as int]);
        assert(mixed_radix(s) == d[k1 as int] * f + mixed_radix(d.skip(k as int)));
        assert((h * r + d[k1 as int]) * f == h * (r * f) + d[k1 as int] * f) by (nonlinear_arith);
        assert(h * spec_factorial(r) + mixed_radix(s) == mixed_radix(d));
        assert(horner(d, n, k) * f + mixed_radix(d.skip(k as int)) == mixed_radix(d));
    }
}

/// Digits bounded by the number of free values give a value below `len!`.
pub proof fn lemma_mixed_radix_bound(d: Seq<nat>)
    requires
        forall|i: int| 0 <= i < d.len() ==> #[trigger] d[i] < d.len() - i,
    ensures
        mixed_radix(d) < spec_factorial(d.len()),
    decreases d.len(),
{
    if d.len() > 0 {
        let rest = d.drop_first();
        assert forall|i: int| 0 <= i < rest.len() implies #[trigger] rest[i] < rest.len() - i by {
            assert(rest[i] == d[i + 1]);
        }
        lemma_mixed_radix_bound(rest);
        let l = d.len();
        let f = spec_factorial((l - 1) as nat);
        assert(d[0] * f + mixed_radix(rest) < l * f) by (nonlinear_arith)
            requires
                d[0] < l,
                mixed_radix(rest) < f,
        ;
    }
}

/// The values of `u` below `n` are counted by `u`'s length when `u` holds
/// distinct values, all below `n`.
pub proof fn lemma_taken_count(u: Seq<usize>, n: nat)
    requires
        forall|i: int| 0 <= i < u.len() ==> #[trigger] u[i] < n,
        forall|i: int, j: int| 0 <= i < u.len() && 0 <= j < u.len() && i != j ==> u[i] != u[j],
    ensures
        unused_below(u, n) + u.len() == n,
    decreases u.len(),
{
    let taken = |j: int| seq_has(u, j);
    if u.len() == 0 {
        lemma_count_none(n, taken);
        lemma_count_complement(n, taken, unused_pred(u));
    } else {
        let v = u.drop_last();
        let e = u.last();
        let taken_v = |j: int| seq_has(v, j);
        let single = |j: int| j == e;
        assert forall|j: int| 0 <= j < n implies (#[trigger] taken(j) <==> (taken_v(j) || single(j))) by {
            if taken(j) {
                let k = choose|k: int| 0 <= k < u.len() && u[k] == j;
                if k < u.len() - 1 {
                    assert(v[k] == j);
                }
            }
            if taken_v(j) {
                let k = choose|k: int| 0 <= k < v.len() && v[k] == j;
                assert(u[k] == j);
            }
            if single(j) {
                assert(u[u.len() - 1] == j);
            }
        }
        assert forall|j: int| 0 <= j < n implies !(#[trigger] taken_v(j) && single(j)) by {
            if taken_v(j) && single(j) {
                let k = choose|k: int| 0 <= k < v.len() && v[k] == j;
                assert(u[k] == u[u.len() - 1]);
            }
        }
        assert forall|i: int| 0 <= i < v.len() implies #[trigger] v[i] < n by {
            assert(v[i] == u[i]);
        }
        assert forall|i: int, j: int|
            0 <= i < v.len() && 0 <= j < v.len() && i != j implies v[i] != v[j] by {
            assert(v[i] == u[i] && v[j] == u[j]);
        }
        lemma_taken_count(v, n);
        lemma_count_disjoint_union(n, taken_v, single, taken);
        lemma_count_unique(n, single);
        assert(single(e as int));
        assert(exists|k: int| 0 <= k < n && #[trigger] single(k));
        assert(count_below(n, single) == 1);
        lemma_count_complement(n, taken, unused_pred(u));
        lemma_count_complement(n, taken_v, unused_pred(v));
        assert(count_below(n, taken_v) == v.len());
        assert(count_below(n, taken) == v.len() + 1);
        assert(unused_below(u, n) == count_below(n, unused_pred(u)));
    }
}

/// In a pattern of distinct values below its length, digit `i` is below
/// `len - i`.
pub proof fn lemma_lehmer_digit_bound(p: Seq<usize>, i: int)
    requires
        is_permutation(p),
        0 <= i < p.len(),
    ensures
        lehmer_digit(p, i) < p.len() - i,
{
    let n = p.len();
    let u = p.take(i);
    lemma_taken_count(u, n);
    let v = p[i] as nat;
    lemma_count_mono_range(v + 1, n, unused_pred(u));
    assert(unused_pred(u)(v as int)) by {
        if seq_has(u, v as int) {
            let k = choose|k: int| 0 <= k < u.len() && u[k] == v;
            assert(p[k] == p[i]);
        }
    }
}

/// The index of a permutation of length `n` is below `n!`.
pub proof fn lemma_pattern_index_bound(p: Seq<usize>)
    requires
        is_permutation(p),
    ensures
        spec_pattern_index(p) < spec_factorial(p.len()),
{
    let d = lehmer_digits(p);
    assert forall|i: int| 0 <= i < d.len() implies #[trigger] d[i] < d.len() - i by {
        lemma_lehmer_digit_bound(p, i);
    }
    lemma_mixed_radix_bound(d);
    lemma_horner_mixed_radix(d, d.len());
    assert(d.skip(d.len() as int) =~= Seq::<nat>::empty());
    assert(mixed_radix(d.skip(d.len() as int)) == 0);
    assert(spec_factorial(0) == 1);
    assert(d.len() == p.len());
    let h = horner(d, d.len(), d.len());
    assert(((d.len() - d.len()) as nat) == 0nat);
    assert(spec_factorial((d.len() - d.len()) as nat) == 1);
    assert(h * 1 == h) by (nonlinear_arith);
    assert(spec_pattern_index(p) == h);
}

/// Map an ordinal pattern to its index in `0..L!` (Lehmer code).
pub fn pattern_to_index(pattern: &[usize]) -> (index: usize)
    requires
        forall|i: int| 0 <= i < pattern@.len() ==> #[trigger] pattern@[i] < pattern@.len(),
        spec_pattern_index(pattern@) <= usize::MAX,
    ensures
        index == spec_pattern_index(pattern@),
{
    let n = pattern.len();
    let ghost p = pattern@;
    let ghost d = lehmer_digits(p);
    let mut index: usize = 0;
    let mut used: Vec<bool> = vec![false; n];
    let mut i: usize = 0;
    while i < n
        invariant
            n == p.len(),
            p == pattern@,
            d == lehmer_digits(p),
            forall|k: int| 0 <= k < p.len() ==> #[trigger] p[k] < p.len(),
            horner(d, n as nat, n as nat) <= usize::MAX,
            i <= n,
            used@.len() == n,
            forall|j: int| 0 <= j < n ==> (#[trigger] used@[j] <==> seq_has(p.take(i as int), j)),
            index == horner(d, n as nat, i as nat),
        decreases n - i,
    {
        let v = pattern[i];
        let mut count: usize = 0;
        let mut j: usize = 0;
        while j < v
            invariant
                v == p[i as int],
                v < n,
                j <= v,
                used@.len() == n,
                forall|x: int| 0 <= x < n ==> (#[trigger] used@[x] <==> seq_has(p.take(i as int), x)),
                count == count_below(j as nat, unused_pred(p.take(i as int))),
            decreases v - j,
        {
            proof {
                lemma_count_le(j as nat, unused_pred(p.take(i as int)));
            }
            if !used[j] {
                count = count + 1;
            }
            j = j + 1;
        }
        assert(count == d[i as int]);
        proof {
            lemma_horner_mono(d, n as nat, (i + 1) as nat, n as nat);
            let h = horner(d, n as nat, i as nat);
            let r = (n - i) as nat;
            assert(h * r <= h * r + d[i as int]);
        }
        index = index * (n - i) + count;
        used.set(v, true);
        proof {
            let ghost t = p.take(i as int);
            let ghost t1 = p.take(i + 1);
            assert forall|x: int| 0 <= x < n implies (#[trigger] used@[x] <==> seq_has(t1, x)) by {
                if seq_has(t, x) {
                    let k = choose|k: int| 0 <= k < t.len() && t[k] == x;
                    assert(t1[k] == x);
                }
                if seq_has(t1, x) && x != v {
                    let k = choose|k: int| 0 <= k < t1.len() && t1[k] == x;
                    assert(t[k] == x);
                }
                if x == v {
                    assert(t1[i as int] == x);
                }
            }
        }
        i = i + 1;
    }
    index
}

// ---------------------------------------------------------------------------
// From an index back to a pattern
// ---------------------------------------------------------------------------

/// `0, 1, ..., n-1`
pub open spec fn iota(n: nat) -> Seq<usize> {
    Seq::new(n, |i: int| i as usize)
}

/// Decode `index` against the still available values `avail` (in order):
/// the digit `index / (len-1)!` picks the value to take next; an
/// out-of-range digit takes the last available value.
pub open spec fn decode_pattern(index: nat, avail: Seq<usize>) -> Seq<usize>
    decreases avail.len(),
{
    if avail.len() == 0 {
        Seq::empty()
    } else {
        let f = spec_factorial((avail.len() - 1) as nat);
        let pos = index / f;
        if pos < avail.len() {
            proof {
                lemma_factorial_mono(0, (avail.len() - 1) as nat);
                assert(avail.remove(pos as int).len() == avail.len() - 1);
            }
            seq![avail[pos as int]] + decode_pattern(index % f, avail.remove(pos as int))
        } else {
            seq![avail.last()] + decode_pattern(index % f, avail.drop_last())
        }
    }
}

/// The pattern with index `index` among the patterns of length `order`.
pub open spec fn spec_index_to_pattern(index: nat, order: nat) -> Seq<usize> {
    decode_pattern(index, iota(order))
}

/// Reconstruct the ordinal pattern with a given index (inverse of
/// `pattern_to_index` on `0..order!`).
pub fn index_to_pattern(index: usize, order: usize) -> (pattern: Vec<usize>)
    requires
        order <= 1 || spec_factorial((order - 1) as nat) <= usize::MAX,
    ensures
        pattern@ == spec_index_to_pattern(index as nat, order as nat),
{
    let mut available: Vec<usize> = Vec::with_capacity(order);
    let mut k: usize = 0;
    while k < order
        invariant
            k <= order,
            available@ == iota(k as nat),
        decreases order - k,
    {
        available.push(k);
        k = k + 1;
        assert(available@ =~= iota(k as nat));
    }
    let mut index = index;
    let mut pattern: Vec<usize> = Vec::with_capacity(order);
    let ghost target = spec_index_to_pattern(index as nat, order as nat);
    let mut i: usize = 0;
    while i < order
        invariant
            i <= order,
            order <= 1 || spec_factorial((order - 1) as nat) <= usize::MAX,
            available@.len() == order - i,
            pattern@ + decode_pattern(index as nat, available@) == target,
        decreases order - i,
    {
        let remaining = order - i;
        proof {
            if remaining > 1 {
                lemma_factorial_mono((remaining - 1) as nat, (order - 1) as nat);
            }
        }
        let fact = if remaining > 1 {
            factorial(remaining - 1)
        } else {
            1
        };
        proof {
            lemma_factorial_mono((remaining - 1) as nat, (remaining - 1) as nat);
        }
        let ghost avail0 = available@;
        let ghost idx0 = index as nat;
        let pos = index / fact;
        index = index % fact;
        if pos < available.len() {
            let v = available.remove(pos);
            pattern.push(v);
            assert(decode_pattern(idx0, avail0) == seq![v] + decode_pattern(
                index as nat,
                available@,
            ));
        } else {
            let v = available.pop().unwrap();
            pattern.push(v);
            assert(decode_pattern(idx0, avail0) == seq![v] + decode_pattern(
                index as nat,
                available@,
            ));
        }
        i = i + 1;
    }
    assert(decode_pattern(index as nat, available@) =~= Seq::<usize>::empty());
    assert(pattern@ =~= target);
    pattern
}

// ---------------------------------------------------------------------------
// Round trip: index -> pattern -> index
// ---------------------------------------------------------------------------

/// Strictly increasing sequence.
pub open spec fn strictly_increasing(a: Seq<usize>) -> bool {
    forall|i: int, j: int| 0 <= i < j < a.len() ==> a[i] < a[j]
}

/// `avail` holds exactly the values below `n` that `used` does not hold.
pub open spec fn avail_exact(avail: Seq<usize>, used: Seq<usize>, n: nat) -> bool {
    forall|v: int| #![trigger seq_has(avail, v)] #![trigger seq_has(used, v)]
        seq_has(avail, v) <==> (0 <= v < n && !seq_has(used, v))
}

/// The predicate "element of `a` below `v`" over positions of `a`.
pub open spec fn lt_pred(a: Seq<usize>, v: int) -> spec_fn(int) -> bool {
    |k: int| a[k] < v
}

/// How many elements of `a` lie below `v`.
pub open spec fn lt_count(a: Seq<usize>, v: int) -> nat {
    count_below(a.len(), lt_pred(a, v))
}

/// The digits that `decode_pattern` reads off `index`.
pub open spec fn decode_digits(index: nat, avail: Seq<usize>) -> Seq<nat>
    decreases avail.len(),
{
    if avail.len() == 0 {
        Seq::empty()
    } else {
        let f = spec_factorial((avail.len() - 1) as nat);
        let pos = index / f;
        if pos < avail.len() {
            proof {
                lemma_factorial_mono(0, (avail.len() - 1) as nat);
                assert(avail.remove(pos as int).len() == avail.len() - 1);
            }
            seq![pos] + decode_digits(index % f, avail.remove(pos as int))
        } else {
            seq![pos] + decode_digits(index % f, avail.drop_last())
        }
    }
}

proof fn lemma_lt_count_step(a: Seq<usize>, v: int)
    requires
        strictly_increasing(a),
    ensures
        lt_count(a, v + 1) == lt_count(a, v) + if seq_has(a, v) {
            1nat
        } else {
            0nat
        },
{
    let n = a.len();
    let eq = |k: int| a[k] == v;
    assert forall|k: int| 0 <= k < n implies (#[trigger] lt_pred(a, v + 1)(k) <==> (lt_pred(a, v)(k)
        || eq(k))) by {}
    lemma_count_disjoint_union(n, lt_pred(a, v), eq, lt_pred(a, v + 1));
    assert forall|x: int, y: int| 0 <= x < n && 0 <= y < n && #[trigger] eq(x) && #[trigger] eq(
        y,
    ) implies x == y by {
        if x < y {
            assert(a[x] < a[y]);
        } else if y < x {
            assert(a[y] < a[x]);
        }
    }
    lemma_count_unique(n, eq);
    if seq_has(a, v) {
        let k = choose|k: int| 0 <= k < a.len() && a[k] == v;
        assert(eq(k));
    } else {
        assert(!exists|k: int| 0 <= k < n && #[trigger] eq(k));
    }
}

proof fn lemma_unused_is_lt_count(a: Seq<usize>, u: Seq<usize>, n: nat, v: nat)
    requires
        strictly_increasing(a),
        avail_exact(a, u, n),
        v <= n,
    ensures
        unused_below(u, v) == lt_count(a, v as int),
    decreases v,
{
    if v == 0 {
        lemma_count_none(a.len(), lt_pred(a, 0));
    } else {
        let w = (v - 1) as nat;
        lemma_unused_is_lt_count(a, u, n, w);
        lemma_lt_count_step(a, w as int);
        assert(seq_has(a, w as int) <==> !seq_has(u, w as int));
    }
}

proof fn lemma_lt_count_at(a: Seq<usize>, pos: int)
    requires
        strictly_increasing(a),
        0 <= pos < a.len(),
    ensures
        lt_count(a, a[pos] as int) == pos,
{
    let n = a.len();
    assert forall|k: int| 0 <= k < n implies (#[trigger] lt_pred(a, a[pos] as int)(k) <==> k < pos) by {
        if k < pos {
            assert(a[k] < a[pos]);
        } else if k > pos {
            assert(a[pos] < a[k]);
        }
    }
    lemma_count_prefix(n, pos as nat, lt_pred(a, a[pos] as int));
}

/// Decoding reads off digits whose factorial-base value is the index.
proof fn lemma_decode_digits_value(index: nat, avail: Seq<usize>)
    requires
        index < spec_factorial(avail.len()),
    ensures
        decode_digits(index, avail).len() == avail.len(),
        decode_pattern(index, avail).len() == avail.len(),
        mixed_radix(decode_digits(index, avail)) == index,
    decreases avail.len(),
{
    if avail.len() > 0 {
        let l = avail.len();
        let f = spec_factorial((l - 1) as nat);
        lemma_factorial_mono(0, (l - 1) as nat);
        let pos = index / f;
        let rest = index % f;
        assert(index == pos * f + rest && rest < f) by (nonlinear_arith)
            requires
                f > 0,
                pos == index / f,
                rest == index % f,
        ;
        assert(pos < l) by (nonlinear_arith)
            requires
                index < l * f,
                index == pos * f + rest,
                rest >= 0,
                f > 0,
        ;
        let a2 = avail.remove(pos as int);
        assert(a2.len() == l - 1);
        lemma_decode_digits_value(rest, a2);
        let d = decode_digits(index, avail);
        assert(d.drop_first() =~= decode_digits(rest, a2));
    }
}

/// Decoding against the values not yet used yields fresh values whose Lehmer
/// digits (relative to what was used before) are the decoded digits.
proof fn lemma_decode_digits_match(index: nat, avail: Seq<usize>, used: Seq<usize>, n: nat)
    requires
        index < spec_factorial(avail.len()),
        strictly_increasing(avail),
        avail_exact(avail, used, n),
        forall|i: int| 0 <= i < used.len() ==> #[trigger] used[i] < n,
        forall|i: int, j: int|
            0 <= i < used.len() && 0 <= j < used.len() && i != j ==> used[i] != used[j],
    ensures
        ({
            let q = decode_pattern(index, avail);
            let d = decode_digits(index, avail);
            let all = used + q;
            &&& q.len() == avail.len()
            &&& d.len() == avail.len()
            &&& forall|i: int| 0 <= i < all.len() ==> #[trigger] all[i] < n
            &&& forall|i: int, j: int|
                0 <= i < all.len() && 0 <= j < all.len() && i != j ==> all[i] != all[j]
            &&& forall|i: int|
                0 <= i < q.len() ==> unused_below(used + q.take(i), q[i] as nat) == #[trigger] d[i]
        }),
    decreases avail.len(),
{
    lemma_decode_digits_value(index, avail);
    let q = decode_pattern(index, avail);
    let d = decode_digits(index, avail);
    if avail.len() == 0 {
        assert(used + q =~= used);
    } else {
        let l = avail.len();
        let f = spec_factorial((l - 1) as nat);
        lemma_factorial_mono(0, (l - 1) as nat);
        let pos = index / f;
        let rest = index % f;
        assert(index == pos * f + rest && rest < f) by (nonlinear_arith)
            requires
                f > 0,
                pos == index / f,
                rest == index % f,
        ;
        assert(pos < l) by (nonlinear_arith)
            requires
                index < l * f,
                index == pos * f + rest,
                rest >= 0,
                f > 0,
        ;
        let e = avail[pos as int];
        let a2 = avail.remove(pos as int);
        let u2 = used.push(e);
        assert(seq_has(avail, e as int));
        // the new state is again exact
        assert(strictly_increasing(a2)) by {
            assert forall|i: int, j: int| 0 <= i < j < a2.len() implies a2[i] < a2[j] by {
                let ii = if i < pos { i } else { i + 1 };
                let jj = if j < pos { j } else { j + 1 };
                assert(a2[i] == avail[ii] && a2[j] == avail[jj]);
            }
        }
        assert forall|v: int| #[trigger] seq_has(a2, v) <==> (0 <= v < n && !seq_has(u2, v)) by {
            if seq_has(a2, v) {
                let k = choose|k: int| 0 <= k < a2.len() && a2[k] == v;
                let kk = if k < pos { k } else { k + 1 };
                assert(avail[kk] == v);
                assert(seq_has(avail, v));
                if seq_has(u2, v) {
                    let m = choose|m: int| 0 <= m < u2.len() && u2[m] == v;
                    if m < used.len() {
                        assert(used[m] == v);
                        assert(seq_has(used, v));
                    } else {
                        assert(kk != pos);
                        if kk < pos {
                            assert(avail[kk] < avail[pos as int]);
                        } else {
                            assert(avail[pos as int] < avail[kk]);
                        }
                    }
                }
            }
            if 0 <= v < n && !seq_has(u2, v) {
                assert(!seq_has(used, v)) by {
                    if seq_has(used, v) {
                        let m = choose|m: int| 0 <= m < used.len() && used[m] == v;
                        assert(u2[m] == v);
                    }
                }
                assert(seq_has(avail, v));
                let k = choose|k: int| 0 <= k < avail.len() && avail[k] == v;
                assert(k != pos) by {
                    if k == pos {
                        assert(u2[used.len() as int] == v);
                    }
                }
                let kk = if k < pos { k } else { k - 1 };
                assert(a2[kk] == v);
            }
        }
        assert(avail_exact(a2, u2, n));
        assert forall|i: int| 0 <= i < u2.len() implies #[trigger] u2[i] < n by {
            if i < used.len() {
                assert(u2[i] == used[i]);
            }
        }
        assert forall|i: int, j: int|
            0 <= i < u2.len() && 0 <= j < u2.len() && i != j implies u2[i] != u2[j] by {
            if i < used.len() && j < used.len() {
                assert(u2[i] == used[i] && u2[j] == used[j]);
            } else if i < used.len() {
                assert(u2[i] == used[i]);
                assert(seq_has(used, used[i] as int));
            } else if j < used.len() {
                assert(u2[j] == used[j]);
                assert(seq_has(used, used[j] as int));
            }
        }
        lemma_decode_digits_match(rest, a2, u2, n);
        let q2 = decode_pattern(rest, a2);
        let d2 = decode_digits(rest, a2);
        assert(q =~= seq![e] + q2);
        assert(d =~= seq![pos] + d2);
        assert(used + q =~= u2 + q2);
        // first digit
        lemma_unused_is_lt_count(avail, used, n, e as nat);
        lemma_lt_count_at(avail, pos as int);
        assert(q.take(0) =~= Seq::<usize>::empty());
        assert(used + q.take(0) =~= used);
        assert forall|i: int| 0 <= i < q.len() implies unused_below(
            used + q.take(i),
            q[i] as nat,
        ) == #[trigger] d[i] by {
            if i > 0 {
                assert(used + q.take(i) =~= u2 + q2.take(i - 1));
                assert(q[i] == q2[i - 1]);
                assert(d[i] == d2[i - 1]);
            }
        }
    }
}

/// Every index below `order!` decodes to a permutation whose index is the
/// one decoded: `pattern_to_index(index_to_pattern(i, order)) == i`.
pub proof fn lemma_index_pattern_roundtrip(index: nat, order: nat)
    requires
        index < spec_factorial(order),
        order <= usize::MAX,
    ensures
        is_permutation(spec_index_to_pattern(index, order)),
        spec_index_to_pattern(index, order).len() == order,
        spec_pattern_index(spec_index_to_pattern(index, order)) == index,
{
    let a = iota(order);
    let u = Seq::<usize>::empty();
    assert(strictly_increasing(a));
    assert forall|v: int| #[trigger] seq_has(a, v) <==> (0 <= v < order && !seq_has(u, v)) by {
        if 0 <= v < order {
            assert(a[v] == v);
        }
    }
    lemma_decode_digits_match(index, a, u, order);
    lemma_decode_digits_value(index, a);
    let q = decode_pattern(index, a);
    let d = decode_digits(index, a);
    assert(u + q =~= q);
    assert forall|i: int| 0 <= i < q.len() implies #[trigger] lehmer_digits(q)[i] == d[i] by {
        assert(u + q.take(i) =~= q.take(i));
    }
    assert(lehmer_digits(q) =~= d);
    lemma_horner_mixed_radix(d, d.len());
    assert(d.skip(d.len() as int) =~= Seq::<nat>::empty());
    assert(mixed_radix(d.skip(d.len() as int)) == 0);
    let h = horner(d, d.len(), d.len());
    assert(((d.len() - d.len()) as nat) == 0nat);
    assert(spec_factorial((d.len() - d.len()) as nat) == 1);
    assert(h * 1 == h) by (nonlinear_arith);
}

// ---------------------------------------------------------------------------
// Round trip: pattern -> index -> pattern
// ---------------------------------------------------------------------------

/// Digits within their factorial-base bounds are determined by their value.
proof fn lemma_mixed_radix_unique(d1: Seq<nat>, d2: Seq<nat>)
    requires
        d1.len() == d2.len(),
        forall|i: int| 0 <= i < d1.len() ==> #[trigger] d1[i] < d1.len() - i,
        forall|i: int| 0 <= i < d2.len() ==> #[trigger] d2[i] < d2.len() - i,
        mixed_radix(d1) == mixed_radix(d2),
    ensures
        d1 == d2,
    decreases d1.len(),
{
    if d1.len() > 0 {
        let r1 = d1.drop_first();
        let r2 = d2.drop_first();
        assert forall|i: int| 0 <= i < r1.len() implies #[trigger] r1[i] < r1.len() - i by {
            assert(r1[i] == d1[i + 1]);
        }
        assert forall|i: int| 0 <= i < r2.len() implies #[trigger] r2[i] < r2.len() - i by {
            assert(r2[i] == d2[i + 1]);
        }
        lemma_mixed_radix_bound(r1);
        lemma_mixed_radix_bound(r2);
        let f = spec_factorial((d1.len() - 1) as nat);
        let (a, b) = (d1[0], d2[0]);
        let (x, y) = (mixed_radix(r1), mixed_radix(r2));
        assert(a * f + x == b * f + y);
        assert(a == b && x == y) by (nonlinear_arith)
            requires
                a * f + x == b * f + y,
                0 <= x < f,
                0 <= y < f,
                a >= 0,
                b >= 0,
        ;
        lemma_mixed_radix_unique(r1, r2);
        assert(d1 =~= seq![a] + r1);
        assert(d2 =~= seq![b] + r2);
    }
}

/// An unused value below `b` adds one to the unused values below `b` over
/// those below it.
proof fn lemma_unused_below_step(u: Seq<usize>, a: nat, b: nat)
    requires
        a < b,
        !seq_has(u, a as int),
    ensures
        unused_below(u, a) < unused_below(u, b),
{
    assert(unused_pred(u)(a as int));
    assert(count_below(a + 1, unused_pred(u)) == count_below(a, unused_pred(u)) + 1);
    lemma_count_mono_range(a + 1, b, unused_pred(u));
}

/// Permutations with the same Lehmer digits agree on every prefix.
proof fn lemma_digits_determine(p: Seq<usize>, q: Seq<usize>, i: nat)
    requires
        is_permutation(p),
        is_permutation(q),
        p.len() == q.len(),
        lehmer_digits(p) == lehmer_digits(q),
        i <= p.len(),
    ensures
        p.take(i as int) == q.take(i as int),
    decreases i,
{
    if i > 0 {
        let k = (i - 1) as int;
        lemma_digits_determine(p, q, (i - 1) as nat);
        let u = p.take(k);
        assert(q.take(k) == u);
        assert(lehmer_digits(p)[k] == lehmer_digits(q)[k]);
        assert(lehmer_digits(p)[k] == unused_below(u, p[k] as nat));
        assert(lehmer_digits(q)[k] == unused_below(u, q[k] as nat));
        assert(!seq_has(u, p[k] as int)) by {
            if seq_has(u, p[k] as int) {
                let m = choose|m: int| 0 <= m < u.len() && u[m] == p[k];
                assert(p[m] == p[k]);
            }
        }
        assert(!seq_has(u, q[k] as int)) by {
            if seq_has(u, q[k] as int) {
                let m = choose|m: int| 0 <= m < u.len() && u[m] == q[k];
                assert(q.take(k)[m] == q[m]);
                assert(q[m] == q[k]);
            }
        }
        if p[k] < q[k] {
            lemma_unused_below_step(u, p[k] as nat, q[k] as nat);
        } else if q[k] < p[k] {
            lemma_unused_below_step(u, q[k] as nat, p[k] as nat);
        }
        assert(p[k] == q[k]);
        assert(p.take(i as int) =~= u.push(p[k]));
        assert(q.take(i as int) =~= q.take(k).push(q[k]));
    } else {
        assert(p.take(0) =~= q.take(0));
    }
}

/// Distinct permutations of the same length have distinct indices.
pub proof fn lemma_pattern_index_injective(p: Seq<usize>, q: Seq<usize>)
    requires
        is_permutation(p),
        is_permutation(q),
        p.len() == q.len(),
        spec_pattern_index(p) == spec_pattern_index(q),
    ensures
        p == q,
{
    let dp = lehmer_digits(p);
    let dq = lehmer_digits(q);
    assert forall|i: int| 0 <= i < dp.len() implies #[trigger] dp[i] < dp.len() - i by {
        lemma_lehmer_digit_bound(p, i);
    }
    assert forall|i: int| 0 <= i < dq.len() implies #[trigger] dq[i] < dq.len() - i by {
        lemma_lehmer_digit_bound(q, i);
    }
    lemma_horner_mixed_radix(dp, dp.len());
    lemma_horner_mixed_radix(dq, dq.len());
    assert(dp.skip(dp.len() as int) =~= Seq::<nat>::empty());
    assert(dq.skip(dq.len() as int) =~= Seq::<nat>::empty());
    assert(spec_factorial(0) == 1);
    let hp = horner(dp, dp.len(), dp.len());
    let hq = horner(dq, dq.len(), dq.len());
    assert(hp * 1 == hp && hq * 1 == hq) by (nonlinear_arith);
    assert(mixed_radix(dp) == mixed_radix(dq));
    lemma_mixed_radix_unique(dp, dq);
    lemma_digits_determine(p, q, p.len());
    assert(p.take(p.len() as int) =~= p);
    assert(q.take(q.len() as int) =~= q);
}

/// Every permutation is the pattern of its own index:
/// `index_to_pattern(pattern_to_index(p), p.len()) == p`. Together with
/// the other round trip, the Lehmer code is a bijection between the
/// permutations of `0..L` and `0..L!`.
pub proof fn lemma_pattern_index_pattern_roundtrip(p: Seq<usize>)
    requires
        is_permutation(p),
        p.len() <= usize::MAX,
    ensures
        spec_index_to_pattern(spec_pattern_index(p), p.len()) == p,
{
    let idx = spec_pattern_index(p);
    lemma_pattern_index_bound(p);
    lemma_index_pattern_roundtrip(idx, p.len());
    let q = spec_index_to_pattern(idx, p.len());
    lemma_pattern_index_injective(q, p);
}

// ---------------------------------------------------------------------------
// Pattern histogram and forbidden patterns
// ---------------------------------------------------------------------------

/// Number of windows of length `order` in `data`.
pub open spec fn n_windows(data: Seq<u8>, order: nat) -> nat {
    if data.len() < order {
        0
    } else {
        (data.len() - order + 1) as nat
    }
}

/// The pattern index of the window of length `order` starting at `i`.
pub open spec fn window_index(data: Seq<u8>, order: nat, i: int) -> nat {
    spec_pattern_index(spec_ordinal_pattern(data.subrange(i, i + order)))
}

/// The predicate "window `i` has pattern index `k`".
pub open spec fn window_pred(data: Seq<u8>, order: nat, k: nat) -> spec_fn(int) -> bool {
    |i: int| window_index(data, order, i) == k
}

/// The number of windows below `m` whose pattern has index `k`.
pub open spec fn window_count(data: Seq<u8>, order: nat, k: nat, m: nat) -> nat {
    count_below(m, window_pred(data, order, k))
}

/// The histogram of window patterns: entry `k` counts the windows whose
/// pattern has index `k`, for each of the `order!` patterns.
pub open spec fn spec_ordinal_distribution(data: Seq<u8>, order: nat) -> Seq<usize> {
    Seq::new(
        spec_factorial(order),
        |k: int| window_count(data, order, k as nat, n_windows(data, order)) as usize,
    )
}

/// Sum of the first `b` histogram bins over the first `m` windows.
pub open spec fn bins_total(data: Seq<u8>, order: nat, b: nat, m: nat) -> nat
    decreases b,
{
    if b == 0 {
        0
    } else {
        bins_total(data, order, (b - 1) as nat, m) + window_count(data, order, (b - 1) as nat, m)
    }
}

/// Sum of the first `j` entries of `s`.
pub open spec fn prefix_sum(s: Seq<usize>, j: nat) -> nat
    decreases j,
{
    if j == 0 {
        0
    } else {
        prefix_sum(s, (j - 1) as nat) + s[j - 1] as nat
    }
}

/// Every window pattern has an index below `order!`.
pub proof fn lemma_window_index_bound(data: Seq<u8>, order: nat, i: int)
    requires
        0 <= i,
        i + order <= data.len(),
        data.len() <= usize::MAX,
    ensures
        window_index(data, order, i) < spec_factorial(order),
{
    let w = data.subrange(i, i + order);
    lemma_ordinal_pattern_is_permutation(w);
    lemma_pattern_index_bound(spec_ordinal_pattern(w));
}

proof fn lemma_bins_total_step(data: Seq<u8>, order: nat, b: nat, m: nat)
    ensures
        bins_total(data, order, b, m + 1) == bins_total(data, order, b, m) + if window_index(
            data,
            order,
            m as int,
        ) < b {
            1nat
        } else {
            0nat
        },
    decreases b,
{
    if b > 0 {
        lemma_bins_total_step(data, order, (b - 1) as nat, m);
    }
}

/// The histogram bins add up to the number of windows counted.
proof fn lemma_bins_total_all(data: Seq<u8>, order: nat, m: nat)
    requires
        data.len() <= usize::MAX,
        m <= n_windows(data, order),
    ensures
        bins_total(data, order, spec_factorial(order), m) == m,
    decreases m,
{
    let f = spec_factorial(order);
    if m == 0 {
        assert forall|b: nat| #![auto] bins_total(data, order, b, 0) == 0 by {
            lemma_bins_total_zero(data, order, b);
        }
    } else {
        let m1 = (m - 1) as nat;
        lemma_bins_total_all(data, order, m1);
        lemma_bins_total_step(data, order, f, m1);
        lemma_window_index_bound(data, order, m1 as int);
    }
}

proof fn lemma_bins_total_zero(data: Seq<u8>, order: nat, b: nat)
    ensures
        bins_total(data, order, b, 0) == 0,
    decreases b,
{
    if b > 0 {
        lemma_bins_total_zero(data, order, (b - 1) as nat);
    }
}

/// Count all ordinal patterns of the given order in the data: a histogram
/// with `order!` bins, one per possible pattern.
pub fn ordinal_distribution(data: &[u8], order: usize) -> (counts: Vec<usize>)
    requires
        spec_factorial(order as nat) <= usize::MAX,
        order > 0 || data@.len() < usize::MAX,
    ensures
        counts@ == spec_ordinal_distribution(data@, order as nat),
{
    let n_patterns = factorial(order);
    let mut counts: Vec<usize> = vec![0usize; n_patterns];
    let data_len = data.len();
    let ghost nw = n_windows(data@, order as nat);
    if data.len() < order {
        proof {
            assert forall|k: int| 0 <= k < n_patterns implies #[trigger] counts@[k] == window_count(
                data@,
                order as nat,
                k as nat,
                0,
            ) as usize by {}
        }
        assert(counts@ =~= spec_ordinal_distribution(data@, order as nat));
        return counts;
    }
    let last = data.len() - order;
    let n_win = last + 1;
    let mut i: usize = 0;
    while i < n_win
        invariant
            i <= n_win,
            data_len == data@.len(),
            order <= data@.len(),
            last == data@.len() - order,
            n_win == last + 1,
            nw == n_win,
            n_patterns == spec_factorial(order as nat),
            counts@.len() == n_patterns,
            forall|k: int|
                0 <= k < n_patterns ==> #[trigger] counts@[k] == window_count(
                    data@,
                    order as nat,
                    k as nat,
                    i as nat,
                ) && counts@[k] <= i,
        decreases n_win - i,
    {
        let window = &data[i..i + order];
        let pattern = ordinal_pattern(window);
        proof {
            lemma_pattern_index_bound(pattern@);
        }
        let idx = pattern_to_index(&pattern);
        assert(idx == window_index(data@, order as nat, i as int));
        if idx < n_patterns {
            counts.set(idx, counts[idx] + 1);
        }
        proof {
            assert forall|k: int| 0 <= k < n_patterns implies #[trigger] counts@[k]
                == window_count(data@, order as nat, k as nat, (i + 1) as nat) && counts@[k] <= i
                + 1 by {}
        }
        i = i + 1;
    }
    assert(counts@ =~= spec_ordinal_distribution(data@, order as nat));
    counts
}

/// The patterns of index below `k` whose bin in `counts` is empty, in
/// increasing index order.
pub open spec fn zero_bin_patterns(counts: Seq<usize>, order: nat, k: nat) -> Seq<Seq<usize>>
    decreases k,
{
    if k == 0 {
        Seq::empty()
    } else {
        let prev = zero_bin_patterns(counts, order, (k - 1) as nat);
        if counts[k - 1] == 0 {
            prev.push(spec_index_to_pattern((k - 1) as nat, order))
        } else {
            prev
        }
    }
}

/// The forbidden patterns of `data`: with at least `5 * order!` windows,
/// every pattern that never occurs, in index order; otherwise none.
pub open spec fn spec_forbidden_patterns(data: Seq<u8>, order: nat) -> Seq<Seq<usize>> {
    let f = spec_factorial(order);
    if n_windows(data, order) < 5 * f {
        Seq::empty()
    } else {
        zero_bin_patterns(spec_ordinal_distribution(data, order), order, f)
    }
}

/// Find forbidden patterns (patterns with zero count), reported only when
/// there are at least `5 * order!` windows.
pub fn forbidden_patterns(data: &[u8], order: usize) -> (forbidden: Vec<Vec<usize>>)
    requires
        5 * spec_factorial(order as nat) <= usize::MAX,
        order > 0 || data@.len() < usize::MAX,
    ensures
        forbidden.deep_view() == spec_forbidden_patterns(data@, order as nat),
{
    proof {
        lemma_factorial_mono(order as nat, order as nat);
    }
    let counts = ordinal_distribution(data, order);
    let n_patterns = factorial(order);
    let data_len = data.len();
    let mut forbidden: Vec<Vec<usize>> = Vec::new();
    let ghost nw = n_windows(data@, order as nat);
    let ghost f = n_patterns as nat;
    proof {
        lemma_bins_total_all(data@, order as nat, nw);
    }
    let mut total: usize = 0;
    let mut j: usize = 0;
    while j < n_patterns
        invariant
            j <= n_patterns,
            counts@ == spec_ordinal_distribution(data@, order as nat),
            n_patterns == f,
            f == spec_factorial(order as nat),
            bins_total(data@, order as nat, f, nw) == nw,
            nw == n_windows(data@, order as nat),
            total == bins_total(data@, order as nat, j as nat, nw),
            data@.len() <= usize::MAX,
            order > 0 || data@.len() < usize::MAX,
        decreases n_patterns - j,
    {
        proof {
            lemma_bins_total_prefix_le(data@, order as nat, (j + 1) as nat, f, nw);
            lemma_count_le(nw, window_pred(data@, order as nat, j as nat));
            assert(counts@[j as int] == spec_ordinal_distribution(data@, order as nat)[j as int]);
            lemma_distribution_entry(data@, order as nat, j as int);
            assert(nw <= usize::MAX);
            assert(counts@[j as int] == window_count(data@, order as nat, j as nat, nw));
            assert(bins_total(data@, order as nat, (j + 1) as nat, nw) == bins_total(
                data@,
                order as nat,
                j as nat,
                nw,
            ) + window_count(data@, order as nat, j as nat, nw));
        }
        total = total + counts[j];
        j = j + 1;
    }
    if total < 5 * n_patterns {
        assert(forbidden.deep_view() =~= spec_forbidden_patterns(data@, order as nat));
        return forbidden;
    }
    let mut idx: usize = 0;
    while idx < n_patterns
        invariant
            idx <= n_patterns,
            n_patterns == spec_factorial(order as nat),
            n_patterns <= usize::MAX,
            counts@ == spec_ordinal_distribution(data@, order as nat),
            forbidden.deep_view() == zero_bin_patterns(counts@, order as nat, idx as nat),
        decreases n_patterns - idx,
    {
        if counts[idx] == 0 {
            proof {
                if order > 1 {
                    lemma_factorial_mono((order - 1) as nat, order as nat);
                }
            }
            let p = index_to_pattern(idx, order);
            assert(p.deep_view() =~= p@);
            forbidden.push(p);
            assert(forbidden.deep_view() =~= zero_bin_patterns(counts@, order as nat, (idx + 1) as nat));
        } else {
            assert(forbidden.deep_view() =~= zero_bin_patterns(counts@, order as nat, (idx + 1) as nat));
        }
        idx = idx + 1;
    }
    forbidden
}


proof fn lemma_zero_bin_member(counts: Seq<usize>, order: nat, k: nat, e: int) -> (x: nat)
    requires
        k <= counts.len(),
        0 <= e < zero_bin_patterns(counts, order, k).len(),
    ensures
        x < k,
        counts[x as int] == 0,
        zero_bin_patterns(counts, order, k)[e] == spec_index_to_pattern(x, order),
    decreases k,
{
    let prev = zero_bin_patterns(counts, order, (k - 1) as nat);
    if e < prev.len() {
        lemma_zero_bin_member(counts, order, (k - 1) as nat, e)
    } else {
        (k - 1) as nat
    }
}

proof fn lemma_zero_bin_contains(counts: Seq<usize>, order: nat, k: nat, x: nat) -> (e: int)
    requires
        x < k <= counts.len(),
        counts[x as int] == 0,
    ensures
        0 <= e < zero_bin_patterns(counts, order, k).len(),
        zero_bin_patterns(counts, order, k)[e] == spec_index_to_pattern(x, order),
    decreases k,
{
    if x < k - 1 {
        lemma_zero_bin_contains(counts, order, (k - 1) as nat, x)
    } else {
        zero_bin_patterns(counts, order, (k - 1) as nat).len() as int
    }
}

/// No pattern reported as forbidden is the ordinal pattern of any window of
/// the data: every reported pattern occurs in zero windows.
pub proof fn lemma_forbidden_patterns_never_occur(data: Seq<u8>, order: nat, e: int, i: int)
    requires
        data.len() <= usize::MAX,
        order > 0 || data.len() < usize::MAX,
        0 <= e < spec_forbidden_patterns(data, order).len(),
        0 <= i < n_windows(data, order),
    ensures
        spec_ordinal_pattern(data.subrange(i, i + order)) != spec_forbidden_patterns(data, order)[e],
{
    let f = spec_factorial(order);
    let nw = n_windows(data, order);
    let dist = spec_ordinal_distribution(data, order);
    lemma_factorial_mono(order, order);
    let x = lemma_zero_bin_member(dist, order, f, e);
    lemma_count_le(nw, window_pred(data, order, x));
    assert(nw <= usize::MAX);
    assert(dist[x as int] == window_count(data, order, x, nw) as usize);
    assert(window_count(data, order, x, nw) == 0);
    if spec_ordinal_pattern(data.subrange(i, i + order)) == spec_index_to_pattern(x, order) {
        lemma_index_pattern_roundtrip(x, order);
        assert(window_index(data, order, i) == x);
        assert(window_pred(data, order, x)(i));
        let never = |j: int| false;
        lemma_count_none(nw, never);
        lemma_count_mono_pred(nw, never, window_pred(data, order, x));
        assert(false);
    }
}

/// Given at least `5 * order!` windows, every permutation of `0..order`
/// that is the pattern of no window is reported as forbidden.
pub proof fn lemma_absent_patterns_are_forbidden(data: Seq<u8>, order: nat, p: Seq<usize>)
    requires
        data.len() <= usize::MAX,
        n_windows(data, order) >= 5 * spec_factorial(order),
        is_permutation(p),
        p.len() == order,
        forall|i: int| 0 <= i < n_windows(data, order) ==> #[trigger] spec_ordinal_pattern(data.subrange(i, i + order)) != p,
    ensures
        exists|e: int| 0 <= e < spec_forbidden_patterns(data, order).len() && #[trigger] spec_forbidden_patterns(data, order)[e] == p,
{
    let f = spec_factorial(order);
    let nw = n_windows(data, order);
    let dist = spec_ordinal_distribution(data, order);
    lemma_factorial_mono(order, order);
    let x = spec_pattern_index(p);
    lemma_pattern_index_bound(p);
    assert forall|i: int| 0 <= i < nw implies !#[trigger] window_pred(data, order, x)(i) by {
        let w = data.subrange(i, i + order);
        lemma_ordinal_pattern_is_permutation(w);
        if window_index(data, order, i) == x {
            lemma_pattern_index_injective(spec_ordinal_pattern(w), p);
            assert(spec_ordinal_pattern(data.subrange(i, i + order)) != p);
        }
    }
    lemma_count_none(nw, window_pred(data, order, x));
    assert(dist[x as int] == 0);
    let e = lemma_zero_bin_contains(dist, order, f, x);
    lemma_pattern_index_pattern_roundtrip(p);
    assert(spec_forbidden_patterns(data, order)[e] == p);
}

proof fn lemma_distribution_entry(data: Seq<u8>, order: nat, k: int)
    requires
        0 <= k < spec_factorial(order),
    ensures
        spec_ordinal_distribution(data, order)[k] == window_count(
            data,
            order,
            k as nat,
            n_windows(data, order),
        ) as usize,
{
}

proof fn lemma_bins_total_prefix_le(data: Seq<u8>, order: nat, j: nat, b: nat, m: nat)
    requires
        j <= b,
    ensures
        bins_total(data, order, j, m) <= bins_total(data, order, b, m),
    decreases b,
{
    if j < b {
        lemma_bins_total_prefix_le(data, order, j, (b - 1) as nat, m);
    }
}

/// Every window is counted exactly once: the histogram of `order!` bins
/// adds up to the number of windows.
pub proof fn lemma_distribution_counts_every_window(data: Seq<u8>, order: nat)
    requires
        data.len() <= usize::MAX,
        order > 0 || data.len() < usize::MAX,
    ensures
        prefix_sum(spec_ordinal_distribution(data, order), spec_factorial(order)) == n_windows(
            data,
            order,
        ),
{
    let nw = n_windows(data, order);
    lemma_bins_total_all(data, order, nw);
    lemma_prefix_sum_bins(data, order, spec_factorial(order));
}

proof fn lemma_prefix_sum_bins(data: Seq<u8>, order: nat, b: nat)
    requires
        data.len() <= usize::MAX,
        order > 0 || data.len() < usize::MAX,
        b <= spec_factorial(order),
    ensures
        prefix_sum(spec_ordinal_distribution(data, order), b) == bins_total(
            data,
            order,
            b,
            n_windows(data, order),
        ),
    decreases b,
{
    if b > 0 {
        let nw = n_windows(data, order);
        lemma_prefix_sum_bins(data, order, (b - 1) as nat);
        lemma_distribution_entry(data, order, b - 1);
        lemma_count_le(nw, window_pred(data, order, (b - 1) as nat));
        let wc = window_count(data, order, (b - 1) as nat, nw);
        assert(nw <= usize::MAX);
        assert(wc <= usize::MAX);
        assert(spec_ordinal_distribution(data, order)[b - 1] as nat == wc);
    }
}

} // verus!
