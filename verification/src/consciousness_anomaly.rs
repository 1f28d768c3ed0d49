//! Bit-level structure features used by the multivariate anomaly detector.

use vstd::prelude::*;

use crate::consciousness::stream_bit;

verus! {

/// Length of the run of equal stream bits that ends at bit `j`.
pub open spec fn bit_run_end(data: Seq<u8>, j: int) -> nat
    decreases j,
{
    if j <= 0 {
        1
    } else if stream_bit(data, j) != stream_bit(data, j - 1) {
        1
    } else {
        bit_run_end(data, j - 1) + 1
    }
}

/// The longest run of equal bits among the first `m` stream bits.
pub open spec fn longest_bit_run(data: Seq<u8>, m: nat) -> nat
    decreases m,
{
    if m == 0 {
        0
    } else {
        let prev = longest_bit_run(data, (m - 1) as nat);
        let here = bit_run_end(data, m - 1);
        if here > prev {
            here
        } else {
            prev
        }
    }
}

proof fn lemma_bit_run_end_bound(data: Seq<u8>, j: int)
    requires
        0 <= j,
    ensures
        1 <= bit_run_end(data, j) <= j + 1,
    decreases j,
{
    if j > 0 {
        lemma_bit_run_end_bound(data, j - 1);
    }
}

proof fn lemma_longest_bit_run_bound(data: Seq<u8>, m: nat)
    ensures
        longest_bit_run(data, m) <= m,
        m > 0 ==> longest_bit_run(data, m) >= 1,
    decreases m,
{
    if m > 0 {
        lemma_longest_bit_run_bound(data, (m - 1) as nat);
        lemma_bit_run_end_bound(data, m - 1);
    }
}

/// Find the longest run of identical bits (bytes in order, most significant
/// bit first); zero for empty data.
pub fn max_run_length(data: &[u8]) -> (run: usize)
    requires
        8 * data@.len() <= usize::MAX,
    ensures
        run == longest_bit_run(data@, 8 * data@.len()),
        run <= 8 * data@.len(),
        data@.len() > 0 ==> run >= 1,
{
    let total = data.len() * 8;
    proof {
        lemma_longest_bit_run_bound(data@, total as nat);
    }
    if total == 0 {
        return 0;
    }
    let mut max_run: usize = 0;
    let mut current_run: usize = 0;
    let mut prev_bit: u8 = 0;
    let mut j: usize = 0;
    while j < total
        invariant
            total == 8 * data@.len(),
            j <= total,
            max_run == longest_bit_run(data@, j as nat),
            j > 0 ==> current_run == bit_run_end(data@, j - 1),
            j > 0 ==> prev_bit == stream_bit(data@, j - 1),
            current_run <= j,
        decreases total - j,
    {
        let byte = data[j / 8];
        let bit = (byte >> ((7 - j % 8) as u8)) & 1;
        assert(bit == stream_bit(data@, j as int));
        if j > 0 && bit == prev_bit {
            current_run = current_run + 1;
        } else {
            current_run = 1;
        }
        if current_run > max_run {
            max_run = current_run;
        }
        prev_bit = bit;
        j = j + 1;
    }
    max_run
}

} // verus!
