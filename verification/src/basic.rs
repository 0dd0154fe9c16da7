//! The two elimination rules, and the `Rule` abstraction through which the
//! board applies a rule to every constraint group.

use vstd::prelude::*;

use crate::bits::cells_subset;
use crate::bits::lemma_and_subset;
use crate::bits::lemma_andnot_idem;
use crate::bits::lemma_andnot_bits;
use crate::bits::lemma_andnot_wf;
use crate::bits::lemma_bit_subset;
use crate::bits::lemma_cells_subset_refl;
use crate::bits::lemma_cells_subset_trans;
use crate::bits::lemma_or_zero;
use crate::bits::lemma_subset_refl;
use crate::bits::mask_subset;
use crate::board::Sudoku;
use crate::board::board_wf;
use crate::board::group_seq;
use crate::board::in_group;
use crate::board::valid_group;
use crate::cell::Cell;
use crate::cell::digit_mask;
use crate::cell::has_bit;
use crate::cell::lemma_digit_mask_bits;
use crate::cell::lemma_digit_mask_popcount;
use crate::cell::mask_wf;
use crate::cell::popcount;

verus! {

/// `idx` occurs among the first `n` slots of group `g`.
pub open spec fn in_group_upto(g: Seq<usize>, n: int, idx: int) -> bool {
    exists|k: int| 0 <= k < n && k < g.len() && g[k] == idx
}

/// Union of the masks of the solved cells among the first `k` slots of `g`.
pub open spec fn knowns_up_to(s: Seq<Cell>, g: Seq<usize>, k: int) -> u16
    decreases k,
{
    if k <= 0 {
        0
    } else {
        knowns_up_to(s, g, k - 1) | (if popcount(s[g[k - 1] as int].0) == 1 {
            s[g[k - 1] as int].0
        } else {
            0
        })
    }
}

/// Union of the masks of all solved cells of group `g` ("knowns").
pub open spec fn group_knowns(s: Seq<Cell>, g: Seq<usize>) -> u16 {
    knowns_up_to(s, g, 9)
}

/// The board after one `uniqueness_eliminate` pass over group `g`: every
/// unsolved cell of the group loses the candidates fixed by the group's
/// solved cells; everything else is untouched.
pub open spec fn eliminate_spec(s: Seq<Cell>, g: Seq<usize>) -> Seq<Cell> {
    Seq::new(
        s.len(),
        |i: int|
            if in_group(g, i) && popcount(s[i].0) != 1 {
                Cell(s[i].0 & !group_knowns(s, g))
            } else {
                s[i]
            },
    )
}

/// Given 9 cells, eliminate options in all unsolved cells of the group for
/// each known (solved) cell.
pub fn uniqueness_eliminate(puz: &mut Sudoku, group: [usize; 9])
    requires
        old(puz).wf(),
        valid_group(group@),
    ensures
        final(puz)@ == eliminate_spec(old(puz)@, group@),
        final(puz).wf(),
{
    let ghost s0 = puz@;
    let ghost g = group@;
    let mut knowns: u16 = 0;
    let mut k: usize = 0;
    while k < 9
        invariant
            k <= 9,
            puz@ == s0,
            puz.wf(),
            valid_group(g),
            group@ == g,
            knowns == knowns_up_to(s0, g, k as int),
        decreases 9 - k,
    {
        let i = group[k];
        if puz.state[i].is_solved() {
            knowns = knowns | puz.state[i].0;
        } else {
            proof {
                lemma_or_zero(knowns);
            }
        }
        k = k + 1;
    }
    let mask = !knowns;
    let mut k: usize = 0;
    while k < 9
        invariant
            k <= 9,
            puz@.len() == 81,
            board_wf(s0),
            valid_group(g),
            group@ == g,
            knowns == group_knowns(s0, g),
            mask == !knowns,
            forall|i: int| 0 <= i < 81 && !in_group_upto(g, k as int, i) ==> puz@[i] == s0[i],
            forall|i: int|
                0 <= i < 81 && in_group_upto(g, k as int, i) ==> puz@[i] == (if popcount(s0[i].0)
                    != 1 {
                    Cell(s0[i].0 & !group_knowns(s0, g))
                } else {
                    s0[i]
                }),
            forall|i: int| 0 <= i < 81 ==> mask_wf(#[trigger] puz@[i].0),
        decreases 9 - k,
    {
        let i = group[k];
        proof {
            assert(!in_group_upto(g, k as int, i as int));
            assert(puz@[i as int] == s0[i as int]);
        }
        if !puz.state[i].is_solved() {
            let narrowed = puz.state[i].0 & mask;
            proof {
                lemma_andnot_wf(s0[i as int].0, knowns);
            }
            puz.state[i] = Cell(narrowed);
        }
        proof {
            assert(g[k as int] == i);
            assert(in_group_upto(g, k + 1, i as int));
            assert forall|j: int|
                0 <= j < 81 && in_group_upto(g, k + 1, j) implies in_group_upto(g, k as int, j)
                || j == i by {
                let kk = choose|kk: int| 0 <= kk < k + 1 && kk < g.len() && g[kk] == j;
                if kk < k {
                    assert(in_group_upto(g, k as int, j));
                }
            }
            assert forall|j: int|
                0 <= j < 81 && in_group_upto(g, k + 1, j) implies puz@[j] == (if popcount(
                s0[j].0,
            ) != 1 {
                Cell(s0[j].0 & !group_knowns(s0, g))
            } else {
                s0[j]
            }) by {
                if j != i {
                    assert(in_group_upto(g, k as int, j));
                }
            }
            assert forall|j: int|
                0 <= j < 81 && !in_group_upto(g, k + 1, j) implies puz@[j] == s0[j] by {
                assert(!in_group_upto(g, k as int, j));
                assert(j != i);
            }
        }
        k = k + 1;
    }
    proof {
        assert forall|i: int| 0 <= i < 81 implies in_group_upto(g, 9, i) == in_group(g, i) by {
            if in_group(g, i) {
                let kk = choose|kk: int| 0 <= kk < g.len() && g[kk] == i;
                assert(0 <= kk < 9 && kk < g.len() && g[kk] == i);
            }
        }
        assert(puz@ =~= eliminate_spec(s0, g));
    }
}

/// One `uniqueness_eliminate` pass only narrows cells: the result is a
/// well-formed, pointwise sub-mask board.
pub proof fn lemma_eliminate_subset(s: Seq<Cell>, g: Seq<usize>)
    requires
        board_wf(s),
        valid_group(g),
    ensures
        board_wf(eliminate_spec(s, g)),
        cells_subset(eliminate_spec(s, g), s),
{
    let r = eliminate_spec(s, g);
    assert forall|i: int| 0 <= i < 81 implies mask_wf(#[trigger] r[i].0) && mask_subset(
        r[i].0,
        s[i].0,
    ) by {
        if in_group(g, i) && popcount(s[i].0) != 1 {
            lemma_andnot_wf(s[i].0, group_knowns(s, g));
            lemma_and_subset(s[i].0, !group_knowns(s, g));
        } else {
            lemma_subset_refl(s[i].0);
        }
    }
}

/// `uniqueness_eliminate` never sets a candidate bit that was not already
/// set, and never changes an already-solved cell's bitmask.
pub proof fn lemma_uniqueness_monotone(s: Seq<Cell>, g: Seq<usize>)
    requires
        board_wf(s),
        valid_group(g),
    ensures
        forall|i: int, d: u16|
            0 <= i < 81 && d <= 15 && #[trigger] has_bit(eliminate_spec(s, g)[i].0, d) ==> has_bit(
                s[i].0,
                d,
            ),
        forall|i: int|
            0 <= i < 81 && popcount(#[trigger] s[i].0) == 1 ==> eliminate_spec(s, g)[i] == s[i],
{
    assert forall|i: int, d: u16|
        0 <= i < 81 && d <= 15 && #[trigger] has_bit(eliminate_spec(s, g)[i].0, d) implies has_bit(
        s[i].0,
        d,
    ) by {
        if in_group(g, i) && popcount(s[i].0) != 1 {
            lemma_andnot_bits(s[i].0, group_knowns(s, g), d);
        }
    }
}

/// `uniqueness_eliminate` is idempotent as long as the pass did not solve a
/// new cell (the group's knowns are unchanged): a second application over
/// the same group is a no-op.
pub proof fn lemma_uniqueness_idempotent(s: Seq<Cell>, g: Seq<usize>)
    requires
        board_wf(s),
        valid_group(g),
        group_knowns(eliminate_spec(s, g), g) == group_knowns(s, g),
    ensures
        eliminate_spec(eliminate_spec(s, g), g) == eliminate_spec(s, g),
{
    let s1 = eliminate_spec(s, g);
    let s2 = eliminate_spec(s1, g);
    lemma_eliminate_subset(s, g);
    assert forall|i: int| 0 <= i < 81 implies s2[i] == s1[i] by {
        if in_group(g, i) && popcount(s1[i].0) != 1 {
            if popcount(s[i].0) == 1 {
                assert(s1[i] == s[i]);
            } else {
                assert(s1[i].0 == s[i].0 & !group_knowns(s, g));
                lemma_andnot_idem(s[i].0, group_knowns(s, g));
            }
        }
    }
    assert(s2 =~= s1);
}

/// How many cells among the first `k` slots of `g` admit digit `d`.
pub open spec fn digit_count_upto(s: Seq<Cell>, g: Seq<usize>, d: u16, k: int) -> nat
    decreases k,
{
    if k <= 0 {
        0
    } else {
        digit_count_upto(s, g, d, k - 1) + (if has_bit(s[g[k - 1] as int].0, d) {
            1nat
        } else {
            0nat
        })
    }
}

/// How many cells of group `g` admit digit `d`.
pub open spec fn digit_count(s: Seq<Cell>, g: Seq<usize>, d: u16) -> nat {
    digit_count_upto(s, g, d, 9)
}

/// The board index of the last slot among the first `k` of `g` whose cell
/// admits digit `d`, or 0 if none does.
pub open spec fn last_home_upto(s: Seq<Cell>, g: Seq<usize>, d: u16, k: int) -> usize
    decreases k,
{
    if k <= 0 {
        0
    } else if has_bit(s[g[k - 1] as int].0, d) {
        g[k - 1]
    } else {
        last_home_upto(s, g, d, k - 1)
    }
}

/// The board index of the last cell of group `g` that admits digit `d`.
pub open spec fn last_home(s: Seq<Cell>, g: Seq<usize>, d: u16) -> usize {
    last_home_upto(s, g, d, 9)
}

/// One assignment step of `single_possibility`: if digit `d` has exactly one
/// home in the group (counted on the pass's initial board `s0`), solve that
/// cell to `d`.
pub open spec fn assign_step(s0: Seq<Cell>, g: Seq<usize>, cur: Seq<Cell>, d: u16) -> Seq<Cell> {
    if digit_count(s0, g, d) == 1 {
        cur.update(last_home(s0, g, d) as int, Cell(digit_mask(d)))
    } else {
        cur
    }
}

/// The board after the assignment steps for digits `1 .. d`, in order.
pub open spec fn assign_upto(s0: Seq<Cell>, g: Seq<usize>, d: u16) -> Seq<Cell>
    decreases d,
{
    if d <= 1 {
        s0
    } else {
        assign_step(s0, g, assign_upto(s0, g, (d - 1) as u16), (d - 1) as u16)
    }
}

/// The board after one `single_possibility` pass over group `g`.
pub open spec fn single_spec(s: Seq<Cell>, g: Seq<usize>) -> Seq<Cell> {
    assign_upto(s, g, 10)
}

/// At most `k` cells among the first `k` slots admit a digit.
pub proof fn lemma_digit_count_bound(s: Seq<Cell>, g: Seq<usize>, d: u16, k: int)
    requires
        0 <= k,
    ensures
        digit_count_upto(s, g, d, k) <= k,
    decreases k,
{
    if k > 0 {
        lemma_digit_count_bound(s, g, d, k - 1);
    }
}

/// If some cell among the first `k` slots admits `d`, the recorded home is a
/// group cell that admits `d`.
pub proof fn lemma_last_home_props(s: Seq<Cell>, g: Seq<usize>, d: u16, k: int)
    requires
        valid_group(g),
        0 <= k <= 9,
        digit_count_upto(s, g, d, k) >= 1,
    ensures
        last_home_upto(s, g, d, k) < 81,
        has_bit(s[last_home_upto(s, g, d, k) as int].0, d),
        in_group(g, last_home_upto(s, g, d, k) as int),
    decreases k,
{
    if k > 0 {
        if has_bit(s[g[k - 1] as int].0, d) {
            assert(g[k - 1] == last_home_upto(s, g, d, k));
            assert(in_group(g, g[k - 1] as int));
        } else {
            lemma_last_home_props(s, g, d, k - 1);
        }
    }
}

/// The assignment steps only narrow cells: after any prefix of digits the
/// board is well formed and a pointwise sub-mask of the initial board.
pub proof fn lemma_assign_upto_subset(s: Seq<Cell>, g: Seq<usize>, d: u16)
    requires
        board_wf(s),
        valid_group(g),
        1 <= d <= 10,
    ensures
        board_wf(assign_upto(s, g, d)),
        cells_subset(assign_upto(s, g, d), s),
    decreases d,
{
    if d <= 1 {
        lemma_cells_subset_refl(s);
    } else {
        let e = (d - 1) as u16;
        lemma_assign_upto_subset(s, g, e);
        let cur = assign_upto(s, g, e);
        if digit_count(s, g, e) == 1 {
            lemma_last_home_props(s, g, e, 9);
            let home = last_home(s, g, e) as int;
            lemma_digit_mask_bits(e);
            lemma_bit_subset(s[home].0, e);
            assert forall|i: int|
                0 <= i < 81 implies mask_wf(#[trigger] assign_upto(s, g, d)[i].0) && mask_subset(
                assign_upto(s, g, d)[i].0,
                s[i].0,
            ) by {
                if i != home {
                    assert(assign_upto(s, g, d)[i] == cur[i]);
                }
            }
        }
    }
}

/// `single_possibility` only ever changes a cell from unsolved to solved,
/// and only to a digit that was a candidate of that cell before the pass.
pub proof fn lemma_single_changes(s: Seq<Cell>, g: Seq<usize>)
    requires
        board_wf(s),
        valid_group(g),
    ensures
        forall|i: int|
            0 <= i < 81 && #[trigger] single_spec(s, g)[i] != s[i] ==> popcount(s[i].0) != 1
                && popcount(single_spec(s, g)[i].0) == 1 && (exists|e: u16|
                1 <= e <= 9 && single_spec(s, g)[i].0 == digit_mask(e) && has_bit(s[i].0, e)),
{
    lemma_assign_changes(s, g, 10);
    assert forall|i: int| 0 <= i < 81 && #[trigger] single_spec(s, g)[i] != s[i] implies popcount(
        s[i].0,
    ) != 1 && popcount(single_spec(s, g)[i].0) == 1 && (exists|e: u16|
        1 <= e <= 9 && single_spec(s, g)[i].0 == digit_mask(e) && has_bit(s[i].0, e)) by {
        let e = choose|e: u16|
            1 <= e < 10 && single_spec(s, g)[i].0 == digit_mask(e) && has_bit(s[i].0, e);
        lemma_digit_mask_popcount(e);
    }
}

/// Induction for `lemma_single_changes` over the digit prefix.
proof fn lemma_assign_changes(s: Seq<Cell>, g: Seq<usize>, d: u16)
    requires
        board_wf(s),
        valid_group(g),
        1 <= d <= 10,
    ensures
        forall|i: int|
            0 <= i < 81 && #[trigger] assign_upto(s, g, d)[i] != s[i] ==> popcount(s[i].0) != 1 && (
            exists|e: u16|
                1 <= e < d && assign_upto(s, g, d)[i].0 == digit_mask(e) && has_bit(s[i].0, e)),
    decreases d,
{
    if d > 1 {
        let e0 = (d - 1) as u16;
        lemma_assign_changes(s, g, e0);
        lemma_assign_upto_subset(s, g, e0);
        let cur = assign_upto(s, g, e0);
        let r = assign_upto(s, g, d);
        if digit_count(s, g, e0) == 1 {
            lemma_last_home_props(s, g, e0, 9);
            let home = last_home(s, g, e0) as int;
            assert forall|i: int| 0 <= i < 81 && #[trigger] r[i] != s[i] implies popcount(s[i].0)
                != 1 && (exists|e: u16|
                1 <= e < d && r[i].0 == digit_mask(e) && has_bit(s[i].0, e)) by {
                if i == home {
                    assert(r[i].0 == digit_mask(e0));
                    if popcount(s[i].0) == 1 {
                        crate::cell::lemma_solved_is_digit_mask(s[i].0, e0);
                        assert(s[i] == Cell(digit_mask(e0)));
                        assert(r[i] == Cell(digit_mask(e0)));
                        assert(false);
                    }
                    assert(1 <= e0 < d && r[i].0 == digit_mask(e0) && has_bit(s[i].0, e0));
                } else {
                    assert(r[i] == cur[i]);
                    let e = choose|e: u16|
                        1 <= e < e0 && cur[i].0 == digit_mask(e) && has_bit(s[i].0, e);
                    assert(1 <= e < d && r[i].0 == digit_mask(e) && has_bit(s[i].0, e));
                }
            }
        }
    }
}

/// The per-digit candidate counts of a group, as a 9-element sequence.
pub open spec fn counts_seq(s: Seq<Cell>, g: Seq<usize>) -> Seq<usize> {
    Seq::new(9, |idx: int| digit_count(s, g, (idx + 1) as u16) as usize)
}

/// The per-digit last homes of a group, as a 9-element sequence.
pub open spec fn homes_seq(s: Seq<Cell>, g: Seq<usize>) -> Seq<usize> {
    Seq::new(9, |idx: int| last_home(s, g, (idx + 1) as u16))
}

/// Scan the group once for one digit: how many cells admit it, and the
/// board index of the last one that does.
fn count_digit(puz: &Sudoku, group: [usize; 9], d: u16) -> (r: (usize, usize))
    requires
        puz.wf(),
        valid_group(group@),
        1 <= d <= 9,
    ensures
        r.0 == digit_count(puz@, group@, d),
        r.1 == last_home(puz@, group@, d),
{
    let ghost s0 = puz@;
    let ghost g = group@;
    let mut count: usize = 0;
    let mut home: usize = 0;
    let mut k: usize = 0;
    while k < 9
        invariant
            k <= 9,
            puz.wf(),
            valid_group(g),
            group@ == g,
            puz@ == s0,
            1 <= d <= 9,
            count == digit_count_upto(s0, g, d, k as int),
            home == last_home_upto(s0, g, d, k as int),
        decreases 9 - k,
    {
        proof {
            lemma_digit_count_bound(s0, g, d, k as int);
        }
        let i = group[k];
        if (puz.state[i].0 >> d) & 1 == 1 {
            count = count + 1;
            home = i;
        }
        k = k + 1;
    }
    (count, home)
}

/// Count, for each digit in order, how many cells of the group admit it and
/// record the last such cell's board index, all on the board as it stands.
fn tally_group(puz: &Sudoku, group: [usize; 9]) -> (r: (Vec<usize>, Vec<usize>))
    requires
        puz.wf(),
        valid_group(group@),
    ensures
        r.0@ == counts_seq(puz@, group@),
        r.1@ == homes_seq(puz@, group@),
{
    let ghost s0 = puz@;
    let ghost g = group@;
    let mut counts: Vec<usize> = Vec::new();
    let mut homes: Vec<usize> = Vec::new();
    let mut d: u16 = 1;
    while d <= 9
        invariant
            1 <= d <= 10,
            puz.wf(),
            valid_group(g),
            group@ == g,
            puz@ == s0,
            counts@ == counts_seq(s0, g).take(d - 1),
            homes@ == homes_seq(s0, g).take(d - 1),
        decreases 10 - d,
    {
        let (count, home) = count_digit(puz, group, d);
        counts.push(count);
        homes.push(home);
        proof {
            assert(counts@ =~= counts_seq(s0, g).take(d as int));
            assert(homes@ =~= homes_seq(s0, g).take(d as int));
        }
        d = d + 1;
    }
    proof {
        assert(counts@ =~= counts_seq(s0, g));
        assert(homes@ =~= homes_seq(s0, g));
    }
    (counts, homes)
}

/// For each digit, count how many cells of the group admit it and remember
/// the last such cell.  Every digit with a unique home is then assigned.
#[verifier::loop_isolation(false)]
pub fn single_possibility(puz: &mut Sudoku, group: [usize; 9])
    requires
        old(puz).wf(),
        valid_group(group@),
    ensures
        final(puz)@ == single_spec(old(puz)@, group@),
        final(puz).wf(),
{
    let ghost s0 = puz@;
    let ghost g = group@;
    let (counts, homes) = tally_group(puz, group);
    let mut d: u16 = 1;
    while d <= 9
        invariant
            1 <= d <= 10,
            counts@ == counts_seq(s0, g),
            homes@ == homes_seq(s0, g),
            puz@ == assign_upto(s0, g, d),
            puz.wf(),
        decreases 10 - d,
    {
        proof {
            lemma_digit_count_bound(s0, g, d, 9);
            assert(counts@[d - 1] == digit_count(s0, g, d) as usize);
            assert(counts@[d - 1] == digit_count(s0, g, d));
            assert(homes@[d - 1] == last_home(s0, g, d));
        }
        if counts[(d - 1) as usize] == 1 {
            let i = homes[(d - 1) as usize];
            proof {
                assert(digit_count_upto(s0, g, d, 9) == 1);
                lemma_last_home_props(s0, g, d, 9);
                assert(i < 81);
            }
            let solved = Cell::known(d as usize);
            proof {
                assert(solved == Cell(digit_mask(d)));
            }
            puz.state[i] = solved;
            proof {
                assert(puz@ == assign_step(s0, g, assign_upto(s0, g, d), d));
                assert(puz@ == assign_upto(s0, g, (d + 1) as u16));
            }
        }
        d = d + 1;
    }
    proof {
        assert(puz@ == single_spec(s0, g));
    }
}

/// A rule narrows the cells of one constraint group of the board, given the
/// group's 9 indices.  `rule_spec` says exactly what a pass computes, and
/// every rule may only narrow the board (clear candidate bits or solve a
/// cell to one of its candidates), never widen it.
pub trait Rule: Sized {
    /// The board a pass over group `g` leaves behind.
    spec fn rule_spec(s: Seq<Cell>, g: Seq<usize>) -> Seq<Cell>;

    /// A pass preserves well-formedness and only narrows cells.
    proof fn rule_spec_props(s: Seq<Cell>, g: Seq<usize>)
        requires
            board_wf(s),
            valid_group(g),
        ensures
            board_wf(Self::rule_spec(s, g)),
            cells_subset(Self::rule_spec(s, g), s),
    ;

    /// Run one pass of the rule over group `group` of the board.
    fn apply(puz: &mut Sudoku, group: [usize; 9])
        requires
            old(puz).wf(),
            valid_group(group@),
        ensures
            final(puz).wf(),
            final(puz)@ == Self::rule_spec(old(puz)@, group@),
    ;
}

/// The `uniqueness_eliminate` rule, as a value.
#[derive(Debug, Clone, Copy)]
pub struct Uniqueness;

impl Rule for Uniqueness {
    open spec fn rule_spec(s: Seq<Cell>, g: Seq<usize>) -> Seq<Cell> {
        eliminate_spec(s, g)
    }

    proof fn rule_spec_props(s: Seq<Cell>, g: Seq<usize>) {
        lemma_eliminate_subset(s, g);
    }

    fn apply(puz: &mut Sudoku, group: [usize; 9]) {
        uniqueness_eliminate(puz, group);
    }
}

/// The `single_possibility` rule, as a value.
#[derive(Debug, Clone, Copy)]
pub struct SinglePossibility;

impl Rule for SinglePossibility {
    open spec fn rule_spec(s: Seq<Cell>, g: Seq<usize>) -> Seq<Cell> {
        single_spec(s, g)
    }

    proof fn rule_spec_props(s: Seq<Cell>, g: Seq<usize>) {
        lemma_assign_upto_subset(s, g, 10);
    }

    fn apply(puz: &mut Sudoku, group: [usize; 9]) {
        single_possibility(puz, group);
    }
}

/// A rule that changes nothing.  Applying it over the groups leaves the
/// board exactly as it was.
#[derive(Debug, Clone, Copy)]
pub struct NoOp;

impl Rule for NoOp {
    open spec fn rule_spec(s: Seq<Cell>, g: Seq<usize>) -> Seq<Cell> {
        s
    }

    proof fn rule_spec_props(s: Seq<Cell>, g: Seq<usize>) {
        lemma_cells_subset_refl(s);
    }

    fn apply(puz: &mut Sudoku, group: [usize; 9]) {
    }
}

/// The board after rule `R` has been applied to the first `k` of the 27
/// groups, in order.
pub open spec fn apply_groups_upto<R: Rule>(s: Seq<Cell>, k: int) -> Seq<Cell>
    decreases k,
{
    if k <= 0 {
        s
    } else {
        R::rule_spec(apply_groups_upto::<R>(s, k - 1), group_seq(k - 1))
    }
}

/// The board after rule `R` has been applied to all 27 groups: all 9 rows,
/// then all 9 columns, then all 9 boxes.
pub open spec fn apply_groups_spec<R: Rule>(s: Seq<Cell>) -> Seq<Cell> {
    apply_groups_upto::<R>(s, 27)
}

/// A full pass of a rule over any prefix of the groups preserves
/// well-formedness and only narrows cells.
pub proof fn lemma_apply_groups_props<R: Rule>(s: Seq<Cell>, k: int)
    requires
        board_wf(s),
        0 <= k <= 27,
    ensures
        board_wf(apply_groups_upto::<R>(s, k)),
        cells_subset(apply_groups_upto::<R>(s, k), s),
    decreases k,
{
    if k <= 0 {
        lemma_cells_subset_refl(s);
    } else {
        lemma_apply_groups_props::<R>(s, k - 1);
        crate::board::lemma_group_seq_valid(k - 1);
        R::rule_spec_props(apply_groups_upto::<R>(s, k - 1), group_seq(k - 1));
        lemma_cells_subset_trans(
            apply_groups_upto::<R>(s, k),
            apply_groups_upto::<R>(s, k - 1),
            s,
        );
    }
}

/// The score never increases across an `apply_to_groups` pass of any rule.
pub proof fn lemma_score_nonincreasing<R: Rule>(s: Seq<Cell>)
    requires
        board_wf(s),
    ensures
        crate::board::score_of(apply_groups_spec::<R>(s)) <= crate::board::score_of(s),
{
    lemma_apply_groups_props::<R>(s, 27);
    crate::board::lemma_sum_subset(apply_groups_spec::<R>(s), s);
}

impl Sudoku {
    /// Apply one pass of rule `R` to each of the 27 groups: all 9 rows,
    /// then all 9 columns, then all 9 boxes.
    pub fn apply_to_groups<R: Rule>(&mut self, _rule: R)
        requires
            old(self).wf(),
        ensures
            final(self).wf(),
            final(self)@ == apply_groups_spec::<R>(old(self)@),
    {
        let ghost s0 = self@;
        let mut i: usize = 0;
        while i < 9
            invariant
                i <= 9,
                board_wf(s0),
                self.wf(),
                self@ == apply_groups_upto::<R>(s0, i as int),
            decreases 9 - i,
        {
            proof {
                crate::board::lemma_group_seq_valid(i as int);
            }
            R::apply(self, crate::board::row_indicies(i));
            i = i + 1;
        }
        let mut i: usize = 0;
        while i < 9
            invariant
                i <= 9,
                board_wf(s0),
                self.wf(),
                self@ == apply_groups_upto::<R>(s0, 9 + i as int),
            decreases 9 - i,
        {
            proof {
                crate::board::lemma_group_seq_valid(9 + i as int);
            }
            R::apply(self, crate::board::col_indicies(i));
            i = i + 1;
        }
        let mut i: usize = 0;
        while i < 9
            invariant
                i <= 9,
                board_wf(s0),
                self.wf(),
                self@ == apply_groups_upto::<R>(s0, 18 + i as int),
            decreases 9 - i,
        {
            proof {
                crate::board::lemma_group_seq_valid(18 + i as int);
            }
            R::apply(self, crate::board::chunk_indicies(i));
            i = i + 1;
        }
    }
}

} // verus!
