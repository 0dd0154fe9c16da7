//! The 81-cell board and the 27 constraint-group index formulas.

use vstd::prelude::*;

use crate::bits::cells_subset;
use crate::bits::lemma_subset_popcount;
use crate::bits::lemma_subset_same_count_eq;
use crate::cell::Cell;
use crate::cell::lemma_count_from_bound;
use crate::cell::mask_wf;
use crate::cell::popcount;

verus! {

/// Well-formed board contents: exactly 81 cells, each with a well-formed mask.
pub open spec fn board_wf(s: Seq<Cell>) -> bool {
    s.len() == 81 && forall|i: int| 0 <= i < 81 ==> mask_wf(#[trigger] s[i].0)
}

/// Every cell of the board is solved.
pub open spec fn all_solved(s: Seq<Cell>) -> bool {
    forall|i: int| 0 <= i < s.len() ==> popcount(#[trigger] s[i].0) == 1
}

/// Total number of candidates left on the board.
pub open spec fn sum_candidates(s: Seq<Cell>) -> nat
    decreases s.len(),
{
    if s.len() == 0 {
        0
    } else {
        sum_candidates(s.drop_last()) + popcount(s.last().0)
    }
}

/// The convergence score: total candidates minus the 81 of a solved board.
pub open spec fn score_of(s: Seq<Cell>) -> int {
    sum_candidates(s) - 81
}

/// A group is 9 pairwise-distinct board indices.
pub open spec fn valid_group(g: Seq<usize>) -> bool {
    &&& g.len() == 9
    &&& forall|k: int| 0 <= k < 9 ==> #[trigger] g[k] < 81
    &&& forall|k1: int, k2: int| 0 <= k1 < k2 < 9 ==> g[k1] != g[k2]
}

/// `idx` is one of the indices of group `g`.
pub open spec fn in_group(g: Seq<usize>, idx: int) -> bool {
    exists|k: int| 0 <= k < g.len() && g[k] == idx
}

/// The indices of row `i`: `9i .. 9i+8`.
pub open spec fn row_seq(i: int) -> Seq<usize> {
    Seq::new(9, |j: int| (9 * i + j) as usize)
}

/// The indices of column `i`: `i, i+9, ..., i+72`.
pub open spec fn col_seq(i: int) -> Seq<usize> {
    Seq::new(9, |j: int| (i + 9 * j) as usize)
}

/// The indices of the 3x3 box `i`.
pub open spec fn box_seq(i: int) -> Seq<usize> {
    Seq::new(9, |j: int| ((i / 3) * 27 + (i % 3) * 3 + (j / 3) * 9 + j % 3) as usize)
}

/// The 27 groups in application order: rows, then columns, then boxes.
pub open spec fn group_seq(k: int) -> Seq<usize> {
    if k < 9 {
        row_seq(k)
    } else if k < 18 {
        col_seq(k - 9)
    } else {
        box_seq(k - 18)
    }
}

/// The 9 board indices of row `i`.
pub fn row_indicies(i: usize) -> (r: [usize; 9])
    requires
        i < 9,
    ensures
        r@ == row_seq(i as int),
        valid_group(r@),
{
    let start: usize = i * 9;
    let r = [start, start + 1, start + 2, start + 3, start + 4, start + 5, start + 6, start + 7,
        start + 8];
    proof {
        assert(r@ =~= row_seq(i as int));
    }
    r
}

/// The 9 board indices of column `i`.
pub fn col_indicies(i: usize) -> (r: [usize; 9])
    requires
        i < 9,
    ensures
        r@ == col_seq(i as int),
        valid_group(r@),
{
    let stride: usize = 9;
    let offset = i;
    let r = [
        offset,
        offset + stride,
        offset + stride * 2,
        offset + stride * 3,
        offset + stride * 4,
        offset + stride * 5,
        offset + stride * 6,
        offset + stride * 7,
        offset + stride * 8,
    ];
    proof {
        assert(r@ =~= col_seq(i as int));
        lemma_col_valid(i as int);
    }
    r
}

/// The 9 board indices of the 3x3 box `i`.
pub fn chunk_indicies(i: usize) -> (r: [usize; 9])
    requires
        i < 9,
    ensures
        r@ == box_seq(i as int),
        valid_group(r@),
{
    let loff: usize = (i % 3) * 3;
    let toff: usize = (i / 3) * 3 * 9;
    let r = [
        toff + loff,
        toff + loff + 1,
        toff + loff + 2,
        toff + 9 + loff,
        toff + 9 + loff + 1,
        toff + 9 + loff + 2,
        toff + 18 + loff,
        toff + 18 + loff + 1,
        toff + 18 + loff + 2,
    ];
    proof {
        assert(r@[0] == box_seq(i as int)[0]);
        assert(r@[1] == box_seq(i as int)[1]);
        assert(r@[2] == box_seq(i as int)[2]);
        assert(r@[3] == box_seq(i as int)[3]);
        assert(r@[4] == box_seq(i as int)[4]);
        assert(r@[5] == box_seq(i as int)[5]);
        assert(r@[6] == box_seq(i as int)[6]);
        assert(r@[7] == box_seq(i as int)[7]);
        assert(r@[8] == box_seq(i as int)[8]);
        assert(r@ =~= box_seq(i as int));
        lemma_box_valid(i as int);
    }
    r
}

/// Rows are valid groups.
pub proof fn lemma_row_valid(i: int)
    requires
        0 <= i < 9,
    ensures
        valid_group(row_seq(i)),
{
}

/// Columns are valid groups.
pub proof fn lemma_col_valid(i: int)
    requires
        0 <= i < 9,
    ensures
        valid_group(col_seq(i)),
{
}

/// Boxes are valid groups.
pub proof fn lemma_box_valid(i: int)
    requires
        0 <= i < 9,
    ensures
        valid_group(box_seq(i)),
{
    assert forall|k1: int, k2: int| 0 <= k1 < k2 < 9 implies box_seq(i)[k1] != box_seq(i)[k2] by {
        assert((k1 / 3) * 9 + k1 % 3 != (k2 / 3) * 9 + k2 % 3) by (nonlinear_arith)
            requires
                0 <= k1 < k2 < 9,
            ;
    }
    assert forall|k: int| 0 <= k < 9 implies #[trigger] box_seq(i)[k] < 81 by {
        assert((i / 3) * 27 + (i % 3) * 3 + (k / 3) * 9 + k % 3 < 81) by (nonlinear_arith)
            requires
                0 <= i < 9,
                0 <= k < 9,
            ;
    }
}

/// Every one of the 27 groups is valid.
pub proof fn lemma_group_seq_valid(k: int)
    requires
        0 <= k < 27,
    ensures
        valid_group(group_seq(k)),
{
    if k < 9 {
        lemma_row_valid(k);
    } else if k < 18 {
        lemma_col_valid(k - 9);
    } else {
        lemma_box_valid(k - 18);
    }
}

/// The row family partitions the board: each index lies in exactly the row
/// given by `idx / 9`, so the 9 rows are pairwise disjoint and cover 0..81.
pub proof fn lemma_row_partition()
    ensures
        forall|idx: int| 0 <= idx < 81 ==> in_group(#[trigger] row_seq(idx / 9), idx),
        forall|k: int, idx: int|
            0 <= k < 9 && #[trigger] in_group(row_seq(k), idx) ==> 0 <= idx < 81 && k == idx / 9,
{
    assert forall|idx: int| 0 <= idx < 81 implies in_group(#[trigger] row_seq(idx / 9), idx) by {
        let j = idx % 9;
        assert(9 * (idx / 9) + j == idx) by (nonlinear_arith)
            requires
                0 <= idx,
                j == idx % 9,
            ;
        assert(row_seq(idx / 9)[j] == idx);
    }
    assert forall|k: int, idx: int|
        0 <= k < 9 && #[trigger] in_group(row_seq(k), idx) implies 0 <= idx < 81 && k == idx
        / 9 by {
        let j = choose|j: int| 0 <= j < 9 && row_seq(k)[j] == idx;
        assert(idx == 9 * k + j);
        assert((9 * k + j) / 9 == k) by (nonlinear_arith)
            requires
                0 <= k,
                0 <= j < 9,
            ;
    }
}

/// The column family partitions the board: each index lies in exactly the
/// column given by `idx % 9`.
pub proof fn lemma_col_partition()
    ensures
        forall|idx: int| 0 <= idx < 81 ==> in_group(#[trigger] col_seq(idx % 9), idx),
        forall|k: int, idx: int|
            0 <= k < 9 && #[trigger] in_group(col_seq(k), idx) ==> 0 <= idx < 81 && k == idx % 9,
{
    assert forall|idx: int| 0 <= idx < 81 implies in_group(#[trigger] col_seq(idx % 9), idx) by {
        let j = idx / 9;
        assert(idx % 9 + 9 * j == idx && 0 <= j < 9) by (nonlinear_arith)
            requires
                0 <= idx < 81,
                j == idx / 9,
            ;
        assert(col_seq(idx % 9)[j] == idx);
    }
    assert forall|k: int, idx: int|
        0 <= k < 9 && #[trigger] in_group(col_seq(k), idx) implies 0 <= idx < 81 && k == idx
        % 9 by {
        let j = choose|j: int| 0 <= j < 9 && col_seq(k)[j] == idx;
        assert(idx == k + 9 * j);
        assert((k + 9 * j) % 9 == k) by (nonlinear_arith)
            requires
                0 <= k < 9,
                0 <= j,
            ;
    }
}

/// The box that board index `idx` belongs to.
pub open spec fn box_of(idx: int) -> int {
    (idx / 27) * 3 + (idx % 9) / 3
}

/// The box family partitions the board: each index lies in exactly the box
/// given by `box_of`.
pub proof fn lemma_box_partition()
    ensures
        forall|idx: int|
            0 <= idx < 81 ==> 0 <= box_of(idx) < 9 && in_group(#[trigger] box_seq(box_of(idx)), idx),
        forall|k: int, idx: int|
            0 <= k < 9 && #[trigger] in_group(box_seq(k), idx) ==> 0 <= idx < 81 && k == box_of(
                idx,
            ),
{
    assert forall|idx: int| 0 <= idx < 81 implies 0 <= box_of(idx) < 9 && in_group(
        #[trigger] box_seq(box_of(idx)),
        idx,
    ) by {
        let b = box_of(idx);
        let j = ((idx / 9) % 3) * 3 + idx % 3;
        assert(0 <= b < 9 && 0 <= j < 9 && (b / 3) * 27 + (b % 3) * 3 + (j / 3) * 9 + j % 3 == idx)
            by (nonlinear_arith)
            requires
                0 <= idx < 81,
                b == (idx / 27) * 3 + (idx % 9) / 3,
                j == ((idx / 9) % 3) * 3 + idx % 3,
            ;
        assert(box_seq(b)[j] == idx);
    }
    assert forall|k: int, idx: int|
        0 <= k < 9 && #[trigger] in_group(box_seq(k), idx) implies 0 <= idx < 81 && k == box_of(
        idx,
    ) by {
        let j = choose|j: int| 0 <= j < 9 && box_seq(k)[j] == idx;
        assert(idx == (k / 3) * 27 + (k % 3) * 3 + (j / 3) * 9 + j % 3);
        assert(0 <= idx < 81 && (idx / 27) * 3 + (idx % 9) / 3 == k) by (nonlinear_arith)
            requires
                0 <= k < 9,
                0 <= j < 9,
                idx == (k / 3) * 27 + (k % 3) * 3 + (j / 3) * 9 + j % 3,
            ;
    }
}

/// Candidate sums respect the pointwise sub-mask order.
pub proof fn lemma_sum_subset(s1: Seq<Cell>, s2: Seq<Cell>)
    requires
        cells_subset(s1, s2),
    ensures
        sum_candidates(s1) <= sum_candidates(s2),
    decreases s1.len(),
{
    if s1.len() > 0 {
        assert(cells_subset(s1.drop_last(), s2.drop_last()));
        lemma_sum_subset(s1.drop_last(), s2.drop_last());
        lemma_subset_popcount(s1.last().0, s2.last().0);
    }
}

/// If a pointwise sub-mask board keeps the same candidate sum, no cell
/// changed at all.
pub proof fn lemma_sum_eq_same(s1: Seq<Cell>, s2: Seq<Cell>)
    requires
        cells_subset(s1, s2),
        sum_candidates(s1) == sum_candidates(s2),
        forall|i: int| 0 <= i < s1.len() ==> mask_wf(#[trigger] s1[i].0),
        forall|i: int| 0 <= i < s2.len() ==> mask_wf(#[trigger] s2[i].0),
    ensures
        s1 == s2,
    decreases s1.len(),
{
    if s1.len() == 0 {
        assert(s1 =~= s2);
    } else {
        let n = s1.len() - 1;
        assert(s1.last() == s1[n] && s2.last() == s2[n]);
        assert(mask_wf(s1[n].0) && mask_wf(s2[n].0));
        assert(cells_subset(s1.drop_last(), s2.drop_last()));
        lemma_sum_subset(s1.drop_last(), s2.drop_last());
        lemma_subset_popcount(s1[n].0, s2[n].0);
        lemma_sum_eq_same(s1.drop_last(), s2.drop_last());
        lemma_subset_same_count_eq(s1[n].0, s2[n].0);
        assert forall|i: int| 0 <= i < s1.len() implies s1[i] == s2[i] by {
            if i < n {
                assert(s1[i] == s1.drop_last()[i]);
                assert(s2[i] == s2.drop_last()[i]);
                assert(s1.drop_last() == s2.drop_last());
            } else {
                assert(s1[n].0 == s2[n].0);
                assert(s1[n] == Cell(s1[n].0) && s2[n] == Cell(s2[n].0));
            }
        }
        assert(s1 =~= s2);
    }
}

/// On a board whose cells all keep at least one candidate, the sum reaches
/// its minimum `len` exactly when every cell is solved.
pub proof fn lemma_sum_min_iff_solved(s: Seq<Cell>)
    requires
        forall|i: int| 0 <= i < s.len() ==> popcount(#[trigger] s[i].0) >= 1,
    ensures
        sum_candidates(s) >= s.len(),
        sum_candidates(s) == s.len() <==> all_solved(s),
    decreases s.len(),
{
    if s.len() > 0 {
        lemma_sum_min_iff_solved(s.drop_last());
        if sum_candidates(s) == s.len() {
            assert(forall|i: int|
                0 <= i < s.len() - 1 ==> #[trigger] s[i] == s.drop_last()[i]);
        }
        if all_solved(s) {
            assert(forall|i: int|
                0 <= i < s.len() - 1 ==> #[trigger] s.drop_last()[i] == s[i]);
        }
    }
}

/// The score is zero exactly when the board is solved, on any board whose
/// cells all keep at least one candidate.
pub proof fn lemma_score_zero_iff_solved(s: Seq<Cell>)
    requires
        s.len() == 81,
        forall|i: int| 0 <= i < 81 ==> popcount(#[trigger] s[i].0) >= 1,
    ensures
        score_of(s) == 0 <==> all_solved(s),
{
    lemma_sum_min_iff_solved(s);
}

/// A well-formed board's candidate sum is at most `81 * 9`.
pub proof fn lemma_sum_bound(s: Seq<Cell>)
    ensures
        sum_candidates(s) <= 9 * s.len(),
    decreases s.len(),
{
    if s.len() > 0 {
        lemma_sum_bound(s.drop_last());
        lemma_count_from_bound(s.last().0, 1);
    }
}

/// The 81-cell Sudoku board, row-major: index `row * 9 + col`.
#[derive(Debug, Clone)]
pub struct Sudoku {
    pub state: [Cell; 81],
}

impl View for Sudoku {
    type V = Seq<Cell>;

    open spec fn view(&self) -> Seq<Cell> {
        self.state@
    }
}

impl PartialEq for Sudoku {
    fn eq(&self, other: &Sudoku) -> (r: bool) {
        let mut i: usize = 0;
        while i < 81
            invariant
                i <= 81,
                forall|j: int| 0 <= j < i ==> self@[j] == other@[j],
            decreases 81 - i,
        {
            if self.state[i] != other.state[i] {
                assert(self@[i as int] != other@[i as int]);
                assert(!(self@ =~= other@));
                return false;
            }
            i = i + 1;
        }
        assert(self@ =~= other@);
        true
    }
}

impl vstd::std_specs::cmp::PartialEqSpecImpl for Sudoku {
    open spec fn obeys_eq_spec() -> bool {
        true
    }

    open spec fn eq_spec(&self, other: &Sudoku) -> bool {
        self@ == other@
    }
}

impl Eq for Sudoku {}

impl Sudoku {
    /// Whether the board's contents are well formed.
    pub open spec fn wf(&self) -> bool {
        board_wf(self@)
    }

    /// A board made of the caller's 81 cells.
    pub fn new(cells: [Cell; 81]) -> (r: Self)
        ensures
            r@ == cells@,
    {
        Sudoku { state: cells }
    }

    /// A board of 81 unknown cells.
    pub fn new_empty() -> (r: Self)
        ensures
            r@.len() == 81,
            forall|i: int| 0 <= i < 81 ==> r@[i] == Cell(crate::cell::UNKNOWN_MASK),
            r.wf(),
    {
        let r = Sudoku { state: [Cell::unknown(); 81] };
        proof {
            crate::cell::lemma_unknown_mask();
        }
        r
    }

    /// True iff every cell is solved.
    pub fn is_solved(&self) -> (r: bool)
        ensures
            r == all_solved(self@),
    {
        let mut i: usize = 0;
        while i < 81
            invariant
                i <= 81,
                forall|j: int| 0 <= j < i ==> popcount(#[trigger] self@[j].0) == 1,
            decreases 81 - i,
        {
            if !self.state[i].is_solved() {
                return false;
            }
            i = i + 1;
        }
        true
    }

    /// Total number of candidates left across all 81 cells.
    pub fn total_candidates(&self) -> (n: usize)
        ensures
            n == sum_candidates(self@),
            n <= 729,
    {
        proof {
            lemma_sum_bound(self@);
        }
        let mut n: usize = 0;
        let mut i: usize = 0;
        while i < 81
            invariant
                i <= 81,
                n == sum_candidates(self@.subrange(0, i as int)),
                n <= 9 * i,
            decreases 81 - i,
        {
            proof {
                assert(self@.subrange(0, i + 1).drop_last() =~= self@.subrange(0, i as int));
                assert(self@.subrange(0, i + 1).last() == self@[i as int]);
                lemma_count_from_bound(self@[i as int].0, 1);
            }
            n = n + self.state[i].candidate_count();
            i = i + 1;
        }
        proof {
            assert(self@.subrange(0, 81) =~= self@);
        }
        n
    }

    /// The convergence score: total candidates minus 81; zero exactly on a
    /// solved board (among boards whose cells all keep a candidate).
    pub fn score(&self) -> (n: usize)
        requires
            sum_candidates(self@) >= 81,
        ensures
            n == score_of(self@),
    {
        self.total_candidates() - 81
    }

    /// The cell at `(row, col)`.
    pub fn get(&self, row: usize, col: usize) -> (r: Cell)
        requires
            row < 9,
            col < 9,
        ensures
            r == self@[row * 9 + col],
    {
        self.state[row * 9 + col]
    }

    /// Replace the 9 cells of row `row` with the given cells, in order.
    pub fn set_row(&mut self, row: usize, cells: [Cell; 9])
        requires
            row < 9,
        ensures
            final(self)@.len() == 81,
            forall|j: int| 0 <= j < 9 ==> final(self)@[9 * row + j] == cells@[j],
            forall|i: int|
                0 <= i < 81 && !(9 * row <= i < 9 * row + 9) ==> final(self)@[i] == old(self)@[i],
    {
        let mut j: usize = 0;
        while j < 9
            invariant
                j <= 9,
                row < 9,
                self@.len() == 81,
                forall|k: int| 0 <= k < j ==> self@[9 * row + k] == cells@[k],
                forall|i: int|
                    0 <= i < 81 && !(9 * row <= i < 9 * row + j) ==> self@[i] == old(self)@[i],
            decreases 9 - j,
        {
            self.state[row * 9 + j] = cells[j];
            j = j + 1;
        }
    }
}

} // verus!
