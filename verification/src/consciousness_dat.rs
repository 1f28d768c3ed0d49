//! Per-trial records for Decision Augmentation Theory (DAT) analysis.

use vstd::prelude::*;

verus! {

/// Per-trial data needed for DAT analysis.
#[derive(Debug, Clone, Copy, PartialEq, Eq, Structural)]
pub struct TrialData {
    /// Number of 1-bits observed.
    pub ones: u32,
    /// Total bits in this trial.
    pub n_bits: usize,
    /// Trial index within phase.
    pub trial_index: usize,
    /// Whether this was a "successful" trial (ones > n/2 for High, < n/2 for Low).
    pub success: bool,
}

} // verus!
