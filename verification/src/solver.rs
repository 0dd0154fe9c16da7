//! The fixed-point solver loop: apply both rules over all groups until the
//! board is solved or a full double-pass makes no progress.

use vstd::prelude::*;

use crate::basic::SinglePossibility;
use crate::basic::Uniqueness;
use crate::basic::apply_groups_spec;
use crate::basic::lemma_apply_groups_props;
use crate::bits::cells_subset;
use crate::bits::lemma_cells_subset_refl;
use crate::bits::lemma_cells_subset_trans;
use crate::board::Sudoku;
use crate::board::all_solved;
use crate::board::board_wf;
use crate::cell::Cell;

verus! {

/// One solver iteration: a full `uniqueness_eliminate` pass over all 27
/// groups, then a full `single_possibility` pass.
pub open spec fn double_pass(s: Seq<Cell>) -> Seq<Cell> {
    apply_groups_spec::<SinglePossibility>(apply_groups_spec::<Uniqueness>(s))
}

/// The board after `n` double-passes.
pub open spec fn iterate_passes(s: Seq<Cell>, n: nat) -> Seq<Cell>
    decreases n,
{
    if n == 0 {
        s
    } else {
        double_pass(iterate_passes(s, (n - 1) as nat))
    }
}

/// A double-pass preserves well-formedness and only narrows cells.
pub proof fn lemma_double_pass_props(s: Seq<Cell>)
    requires
        board_wf(s),
    ensures
        board_wf(double_pass(s)),
        cells_subset(double_pass(s), s),
        crate::board::sum_candidates(double_pass(s)) <= crate::board::sum_candidates(s),
{
    lemma_apply_groups_props::<Uniqueness>(s, 27);
    lemma_apply_groups_props::<SinglePossibility>(apply_groups_spec::<Uniqueness>(s), 27);
    lemma_cells_subset_trans(double_pass(s), apply_groups_spec::<Uniqueness>(s), s);
    crate::board::lemma_sum_subset(double_pass(s), s);
}

/// Any number of double-passes preserves well-formedness and only narrows
/// cells.
pub proof fn lemma_iterate_passes_subset(s: Seq<Cell>, n: nat)
    requires
        board_wf(s),
    ensures
        board_wf(iterate_passes(s, n)),
        cells_subset(iterate_passes(s, n), s),
    decreases n,
{
    if n == 0 {
        lemma_cells_subset_refl(s);
    } else {
        lemma_iterate_passes_subset(s, (n - 1) as nat);
        lemma_double_pass_props(iterate_passes(s, (n - 1) as nat));
        lemma_cells_subset_trans(iterate_passes(s, n), iterate_passes(s, (n - 1) as nat), s);
    }
}

impl Sudoku {
    /// Drive the two elimination rules to a fixed point: repeat full
    /// double-passes while the score still drops.  Terminates with the board
    /// either solved, or stalled: one more double-pass would change nothing.
    /// The final board is always reachable from the initial one by some
    /// number of double-passes.
    pub fn solve(&mut self)
        requires
            old(self).wf(),
        ensures
            final(self).wf(),
            exists|n: nat| final(self)@ == iterate_passes(old(self)@, n),
            cells_subset(final(self)@, old(self)@),
            all_solved(final(self)@) || double_pass(final(self)@) == final(self)@,
    {
        let ghost s0 = self@;
        let ghost mut iters: nat = 0;
        let ghost mut prev_state: Seq<Cell> = s0;
        let mut prev: usize = usize::MAX;
        loop
            invariant
                self.wf(),
                board_wf(s0),
                s0 == old(self)@,
                self@ == iterate_passes(s0, iters),
                prev != usize::MAX ==> board_wf(prev_state) && self@ == double_pass(prev_state)
                    && prev == crate::board::sum_candidates(prev_state),
            decreases prev,
        {
            let cur = self.total_candidates();
            if self.is_solved() {
                proof {
                    assert(self@ == iterate_passes(old(self)@, iters));
                    lemma_iterate_passes_subset(s0, iters);
                }
                return ;
            }
            if cur == prev {
                proof {
                    lemma_double_pass_props(prev_state);
                    crate::board::lemma_sum_eq_same(self@, prev_state);
                    assert(self@ == prev_state);
                    assert(double_pass(self@) == self@);
                    assert(self@ == iterate_passes(old(self)@, iters));
                    lemma_iterate_passes_subset(s0, iters);
                }
                return ;
            }
            proof {
                if prev != usize::MAX {
                    lemma_double_pass_props(prev_state);
                }
            }
            prev = cur;
            proof {
                prev_state = self@;
            }
            self.apply_to_groups(Uniqueness);
            self.apply_to_groups(SinglePossibility);
            proof {
                iters = iters + 1;
                assert(self@ == iterate_passes(s0, iters));
            }
        }
    }
}

} // verus!
