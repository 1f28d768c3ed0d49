//! Recurrence Quantification Analysis: the line structure of a binary
//! recurrence matrix (diagonal and vertical lines of recurrent points).

use vstd::prelude::*;

verus! {

/// Scan the first `k` cells of `s`: the lengths of the runs of `true`
/// already closed (kept when at least `min_len`), and the length of the
/// run still open.
pub open spec fn run_scan(s: Seq<bool>, min_len: nat, k: nat) -> (Seq<usize>, nat)
    decreases k,
{
    if k == 0 {
        (Seq::empty(), 0)
    } else {
        let (closed, open) = run_scan(s, min_len, (k - 1) as nat);
        if s[k - 1] {
            (closed, open + 1)
        } else if open >= min_len {
            (closed.push(open as usize), 0)
        } else {
            (closed, 0)
        }
    }
}

/// The lengths, in order, of the maximal runs of `true` in `s` that are at
/// least `min_len` long.
pub open spec fn runs_at_least(s: Seq<bool>, min_len: nat) -> Seq<usize> {
    let (closed, open) = run_scan(s, min_len, s.len());
    if open >= min_len {
        closed.push(open as usize)
    } else {
        closed
    }
}

/// The `offset`-th diagonal above the main diagonal of the `n x n` matrix.
pub open spec fn diagonal(rm: Seq<Seq<bool>>, offset: nat) -> Seq<bool> {
    Seq::new((rm.len() - offset) as nat, |i: int| rm[i][i + offset])
}

/// Column `j` of the matrix.
pub open spec fn column(rm: Seq<Seq<bool>>, j: int) -> Seq<bool> {
    Seq::new(rm.len(), |i: int| rm[i][j])
}

/// Diagonal line lengths on the diagonals with offsets `1..o`.
pub open spec fn diagonal_runs_upto(rm: Seq<Seq<bool>>, min_len: nat, o: nat) -> Seq<usize>
    decreases o,
{
    if o <= 1 {
        Seq::empty()
    } else {
        diagonal_runs_upto(rm, min_len, (o - 1) as nat) + runs_at_least(
            diagonal(rm, (o - 1) as nat),
            min_len,
        )
    }
}

/// Vertical line lengths in the columns `0..c`.
pub open spec fn vertical_runs_upto(rm: Seq<Seq<bool>>, min_len: nat, c: nat) -> Seq<usize>
    decreases c,
{
    if c == 0 {
        Seq::empty()
    } else {
        vertical_runs_upto(rm, min_len, (c - 1) as nat) + runs_at_least(
            column(rm, c - 1),
            min_len,
        )
    }
}

/// The views of the matrix rows.
pub open spec fn rows(rm: Seq<Vec<bool>>) -> Seq<Seq<bool>> {
    Seq::new(rm.len(), |i: int| rm[i]@)
}

/// Every row is at least as long as the matrix has rows.
pub open spec fn square_enough(rm: Seq<Vec<bool>>) -> bool {
    forall|i: int| 0 <= i < rm.len() ==> #[trigger] rm[i]@.len() >= rm.len()
}

/// Append the run lengths of a cell sequence, read through `cell`.
fn push_runs(lengths: &mut Vec<usize>, cells: Ghost<Seq<bool>>, rm: &[Vec<bool>], min_len: usize, start_i: usize, start_j: usize, step_j: usize, count: usize)
    requires
        square_enough(rm@),
        cells@.len() == count,
        start_i + count <= rm@.len(),
        step_j <= 1,
        step_j == 1 ==> start_j + count <= rm@.len(),
        step_j == 0 ==> start_j < rm@.len(),
        forall|k: int| 0 <= k < count ==> #[trigger] cells@[k] == rm@[start_i + k]@[start_j + step_j * k],
    ensures
        final(lengths)@ == old(lengths)@ + runs_at_least(cells@, min_len as nat),
{
    let ghost start = lengths@;
    let n = rm.len();
    let mut current_len: usize = 0;
    let mut k: usize = 0;
    while k < count
        invariant
            n == rm@.len(),
            square_enough(rm@),
            cells@.len() == count,
            start_i + count <= rm@.len(),
            step_j <= 1,
            step_j == 1 ==> start_j + count <= rm@.len(),
            step_j == 0 ==> start_j < rm@.len(),
            forall|x: int| 0 <= x < count ==> #[trigger] cells@[x] == rm@[start_i + x]@[start_j + step_j * x],
            k <= count,
            current_len <= k,
            lengths@ == start + run_scan(cells@, min_len as nat, k as nat).0,
            current_len == run_scan(cells@, min_len as nat, k as nat).1,
        decreases count - k,
    {
        let row = &rm[start_i + k];
        assert(row@.len() >= rm@.len());
        let col = start_j + step_j * k;
        assert(cells@[k as int] == rm@[start_i + k]@[col as int]);
        if row[col] {
            current_len = current_len + 1;
        } else {
            if current_len >= min_len {
                lengths.push(current_len);
            }
            current_len = 0;
        }
        k = k + 1;
        assert(lengths@ =~= start + run_scan(cells@, min_len as nat, k as nat).0);
    }
    if current_len >= min_len {
        lengths.push(current_len);
    }
    assert(lengths@ =~= start + runs_at_least(cells@, min_len as nat));
}

/// Count diagonal line lengths (runs of recurrent points on the diagonals
/// above the main diagonal), diagonal by diagonal.
pub fn diagonal_lines(rm: &[Vec<bool>], min_len: usize) -> (lengths: Vec<usize>)
    requires
        square_enough(rm@),
    ensures
        lengths@ == diagonal_runs_upto(rows(rm@), min_len as nat, rm@.len()),
{
    let n = rm.len();
    let mut lengths: Vec<usize> = Vec::new();
    let mut offset: usize = 1;
    if n == 0 {
        return lengths;
    }
    while offset < n
        invariant
            n == rm@.len(),
            square_enough(rm@),
            1 <= offset <= n,
            lengths@ == diagonal_runs_upto(rows(rm@), min_len as nat, offset as nat),
        decreases n - offset,
    {
        let ghost cells = diagonal(rows(rm@), offset as nat);
        push_runs(&mut lengths, Ghost(cells), rm, min_len, 0, offset, 1, n - offset);
        offset = offset + 1;
    }
    lengths
}

/// Count vertical line lengths (runs of recurrent points in each column).
pub fn vertical_lines(rm: &[Vec<bool>], min_len: usize) -> (lengths: Vec<usize>)
    requires
        square_enough(rm@),
    ensures
        lengths@ == vertical_runs_upto(rows(rm@), min_len as nat, rm@.len()),
{
    let n = rm.len();
    let mut lengths: Vec<usize> = Vec::new();
    let mut j: usize = 0;
    while j < n
        invariant
            n == rm@.len(),
            square_enough(rm@),
            j <= n,
            lengths@ == vertical_runs_upto(rows(rm@), min_len as nat, j as nat),
        decreases n - j,
    {
        let ghost cells = column(rows(rm@), j as int);
        push_runs(&mut lengths, Ghost(cells), rm, min_len, 0, j, 0, n);
        j = j + 1;
    }
    lengths
}

/// The largest element of `s`, or 0 when empty.
pub open spec fn seq_max(s: Seq<usize>) -> nat
    decreases s.len(),
{
    if s.len() == 0 {
        0
    } else {
        let m = seq_max(s.drop_last());
        if s.last() > m {
            s.last() as nat
        } else {
            m
        }
    }
}

/// Length of the longest diagonal line.
pub fn longest_diagonal(rm: &[Vec<bool>]) -> (len: usize)
    requires
        square_enough(rm@),
    ensures
        len == seq_max(diagonal_runs_upto(rows(rm@), 1, rm@.len())),
{
    let lines = diagonal_lines(rm, 1);
    let mut best: usize = 0;
    let mut k: usize = 0;
    while k < lines.len()
        invariant
            k <= lines@.len(),
            best == seq_max(lines@.subrange(0, k as int)),
        decreases lines@.len() - k,
    {
        let ghost pre = lines@.subrange(0, k + 1);
        assert(pre.drop_last() =~= lines@.subrange(0, k as int));
        if lines[k] > best {
            best = lines[k];
        }
        k = k + 1;
    }
    assert(lines@.subrange(0, lines@.len() as int) =~= lines@);
    best
}

} // verus!
