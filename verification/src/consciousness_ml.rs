//! Byte-level features used by the epoch classifier.

use vstd::prelude::*;

verus! {

/// Length of the run of equal bytes that ends at position `j`.
pub open spec fn byte_run_end(data: Seq<u8>, j: int) -> nat
    decreases j,
{
    if j <= 0 {
        1
    } else if data[j] != data[j - 1] {
        1
    } else {
        byte_run_end(data, j - 1) + 1
    }
}

/// The longest run of equal bytes among the first `m` bytes.
pub open spec fn longest_byte_run(data: Seq<u8>, m: nat) -> nat
    decreases m,
{
    if m == 0 {
        0
    } else {
        let prev = longest_byte_run(data, (m - 1) as nat);
        let here = byte_run_end(data, m - 1);
        if here > prev {
            here
        } else {
            prev
        }
    }
}

/// The longest run of equal consecutive bytes; empty data counts as one
/// run of length 1.
pub open spec fn spec_max_byte_run(data: Seq<u8>) -> nat {
    if data.len() == 0 {
        1
    } else {
        longest_byte_run(data, data.len())
    }
}

proof fn lemma_byte_run_end_bound(data: Seq<u8>, j: int)
    requires
        0 <= j,
    ensures
        1 <= byte_run_end(data, j),
        byte_run_end(data, j) <= j + 1,
    decreases j,
{
    if j > 0 {
        lemma_byte_run_end_bound(data, j - 1);
    }
}

/// Length of the longest run of identical consecutive bytes.
pub fn max_run_length(data: &[u8]) -> (run: usize)
    ensures
        run == spec_max_byte_run(data@),
        run >= 1,
        data@.len() > 0 ==> run <= data@.len(),
{
    let n = data.len();
    let mut max_run: usize = 0;
    let mut current_run: usize = 1;
    if n == 0 {
        return 1;
    }
    assert(longest_byte_run(data@, 0) == 0);
    assert(byte_run_end(data@, 0) == 1);
    assert(longest_byte_run(data@, 1) == 1);
    let mut j: usize = 1;
    while j < n
        invariant
            n == data@.len(),
            1 <= j <= n,
            current_run == byte_run_end(data@, j - 1),
            (if current_run > max_run {
                current_run
            } else {
                max_run
            }) == longest_byte_run(data@, j as nat),
            current_run <= j,
            max_run <= j,
        decreases n - j,
    {
        if data[j - 1] == data[j] {
            current_run = current_run + 1;
        } else {
            if current_run > max_run {
                max_run = current_run;
            }
            current_run = 1;
        }
        proof {
            lemma_byte_run_end_bound(data@, j as int);
        }
        j = j + 1;
    }
    proof {
        lemma_byte_run_end_bound(data@, (n - 1) as int);
    }
    if current_run > max_run {
        current_run
    } else {
        max_run
    }
}

} // verus!
