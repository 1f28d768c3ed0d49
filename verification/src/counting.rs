//! Counting over integer ranges: the number of indices below a bound that
//! satisfy a predicate, and the facts about it that the analyses use.

use vstd::prelude::*;

verus! {

/// The number of `k` in `[0, n)` for which `pred(k)` holds.
pub open spec fn count_below(n: nat, pred: spec_fn(int) -> bool) -> nat
    decreases n,
{
    if n == 0 {
        0
    } else {
        count_below((n - 1) as nat, pred) + if pred(n - 1) {
            1nat
        } else {
            0nat
        }
    }
}

/// The count never exceeds the size of the range.
pub proof fn lemma_count_le(n: nat, pred: spec_fn(int) -> bool)
    ensures
        count_below(n, pred) <= n,
    decreases n,
{
    if n > 0 {
        lemma_count_le((n - 1) as nat, pred);
    }
}

/// Counting over a longer range never gives less.
pub proof fn lemma_count_mono_range(m: nat, n: nat, pred: spec_fn(int) -> bool)
    requires
        m <= n,
    ensures
        count_below(m, pred) <= count_below(n, pred),
    decreases n,
{
    if m < n {
        lemma_count_mono_range(m, (n - 1) as nat, pred);
    }
}

/// Predicates that agree on the range have the same count.
pub proof fn lemma_count_ext(n: nat, p: spec_fn(int) -> bool, q: spec_fn(int) -> bool)
    requires
        forall|k: int| #![trigger p(k)] #![trigger q(k)] 0 <= k < n ==> (p(k) <==> q(k)),
    ensures
        count_below(n, p) == count_below(n, q),
    decreases n,
{
    if n > 0 {
        lemma_count_ext((n - 1) as nat, p, q);
    }
}

/// A weaker predicate has a count at least as large; one more witness makes
/// it strictly larger.
pub proof fn lemma_count_mono_pred(n: nat, p: spec_fn(int) -> bool, q: spec_fn(int) -> bool)
    requires
        forall|k: int| 0 <= k < n && #[trigger] p(k) ==> q(k),
    ensures
        count_below(n, p) <= count_below(n, q),
        (exists|k: int| 0 <= k < n && #[trigger] q(k) && !p(k)) ==> count_below(n, p) < count_below(n, q),
    decreases n,
{
    if n > 0 {
        lemma_count_mono_pred((n - 1) as nat, p, q);
        if exists|k: int| 0 <= k < n && #[trigger] q(k) && !p(k) {
            let k = choose|k: int| 0 <= k < n && #[trigger] q(k) && !p(k);
            if k < n - 1 {
                assert(exists|k: int| 0 <= k < n - 1 && #[trigger] q(k) && !p(k));
            }
        }
    }
}

/// The count of the always-true predicate is the size of the range.
pub proof fn lemma_count_all(n: nat, p: spec_fn(int) -> bool)
    requires
        forall|k: int| 0 <= k < n ==> #[trigger] p(k),
    ensures
        count_below(n, p) == n,
    decreases n,
{
    if n > 0 {
        lemma_count_all((n - 1) as nat, p);
    }
}

/// The count of the always-false predicate is zero.
pub proof fn lemma_count_none(n: nat, p: spec_fn(int) -> bool)
    requires
        forall|k: int| 0 <= k < n ==> !#[trigger] p(k),
    ensures
        count_below(n, p) == 0,
    decreases n,
{
    if n > 0 {
        lemma_count_none((n - 1) as nat, p);
    }
}

/// `k < m` holds for exactly `m` of the indices below `n >= m`.
pub proof fn lemma_count_prefix(n: nat, m: nat, p: spec_fn(int) -> bool)
    requires
        m <= n,
        forall|k: int| 0 <= k < n ==> (#[trigger] p(k) <==> k < m),
    ensures
        count_below(n, p) == m,
    decreases n,
{
    if n > m {
        lemma_count_prefix((n - 1) as nat, m, p);
    } else {
        lemma_count_all(n, p);
    }
}

/// Counts of a predicate and of its negation add up to the range size.
pub proof fn lemma_count_complement(n: nat, p: spec_fn(int) -> bool, q: spec_fn(int) -> bool)
    requires
        forall|k: int| #![trigger p(k)] #![trigger q(k)] 0 <= k < n ==> (q(k) <==> !p(k)),
    ensures
        count_below(n, p) + count_below(n, q) == n,
    decreases n,
{
    if n > 0 {
        lemma_count_complement((n - 1) as nat, p, q);
    }
}

/// Counts of two disjoint predicates add up to the count of their union.
pub proof fn lemma_count_disjoint_union(
    n: nat,
    p: spec_fn(int) -> bool,
    q: spec_fn(int) -> bool,
    r: spec_fn(int) -> bool,
)
    requires
        forall|k: int| #![trigger r(k)] #![trigger p(k)] #![trigger q(k)] 0 <= k < n ==> (r(k) <==> (p(k) || q(k))),
        forall|k: int| #![trigger p(k)] #![trigger q(k)] 0 <= k < n ==> !(p(k) && q(k)),
    ensures
        count_below(n, r) == count_below(n, p) + count_below(n, q),
    decreases n,
{
    if n > 0 {
        lemma_count_disjoint_union((n - 1) as nat, p, q, r);
    }
}

/// A predicate that holds for at most one index has count one exactly when
/// it holds somewhere in the range, and zero otherwise.
pub proof fn lemma_count_unique(n: nat, p: spec_fn(int) -> bool)
    requires
        forall|a: int, b: int| 0 <= a < n && 0 <= b < n && #[trigger] p(a) && #[trigger] p(b) ==> a == b,
    ensures
        count_below(n, p) == if exists|k: int| 0 <= k < n && #[trigger] p(k) {
            1nat
        } else {
            0nat
        },
    decreases n,
{
    if n > 0 {
        lemma_count_unique((n - 1) as nat, p);
        if p(n - 1) {
            assert(forall|k: int| 0 <= k < n - 1 ==> !#[trigger] p(k));
            lemma_count_none((n - 1) as nat, p);
        } else {
            if exists|k: int| 0 <= k < n && #[trigger] p(k) {
                let k = choose|k: int| 0 <= k < n && #[trigger] p(k);
                assert(0 <= k < n - 1 && p(k));
            }
        }
    }
}

} // verus!
