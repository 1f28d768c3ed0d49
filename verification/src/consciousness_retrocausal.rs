//! Retrocausal protocol: the trial data is collected first, and only then
//! is each trial assigned an intention direction by a generator that is
//! separate from the entropy sources under test.

use vstd::prelude::*;

use crate::consciousness::IntentionDirection;
use crate::consciousness_surrogate::xorshift_step;

verus! {

/// The generator state after `k` xorshift steps from `seed` (a zero seed
/// stays zero).
pub open spec fn xorshift_iter(seed: u64, k: nat) -> u64
    decreases k,
{
    if k == 0 {
        seed
    } else {
        xorshift_step(xorshift_iter(seed, (k - 1) as nat))
    }
}

/// The direction assigned to trial `k`: `High` when the state after
/// `k + 1` steps is even, `Low` when it is odd.
pub open spec fn spec_direction(seed: u64, k: nat) -> IntentionDirection {
    if xorshift_iter(seed, k + 1) % 2 == 0 {
        IntentionDirection::High
    } else {
        IntentionDirection::Low
    }
}

/// Assign directions to `n_trials` trials from a generator seeded with
/// `seed` (the caller seeds it from the clock, after the data is in).
pub fn assign_directions(seed: u64, n_trials: usize) -> (dirs: Vec<IntentionDirection>)
    ensures
        dirs@.len() == n_trials,
        forall|k: int| 0 <= k < n_trials ==> #[trigger] dirs@[k] == spec_direction(seed, k as nat),
{
    let mut state = seed;
    let mut dirs: Vec<IntentionDirection> = Vec::with_capacity(n_trials);
    let mut k: usize = 0;
    while k < n_trials
        invariant
            k <= n_trials,
            dirs@.len() == k,
            state == xorshift_iter(seed, k as nat),
            forall|i: int| 0 <= i < k ==> #[trigger] dirs@[i] == spec_direction(seed, i as nat),
        decreases n_trials - k,
    {
        state = state ^ (state << 13);
        state = state ^ (state >> 7);
        state = state ^ (state << 17);
        let d = if state % 2 == 0 {
            IntentionDirection::High
        } else {
            IntentionDirection::Low
        };
        dirs.push(d);
        k = k + 1;
    }
    dirs
}

} // verus!
