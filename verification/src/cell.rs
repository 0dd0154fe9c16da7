//! A single Sudoku cell, represented as a bitmask of candidate digits.

use vstd::prelude::*;

verus! {

/// Mask of an unknown cell: all nine candidate bits (digits 1..=9) set,
/// bit 0 unused and always clear.
pub const UNKNOWN_MASK: u16 = 0b111_111_111_0;

/// True iff bit `d` of `m` is set.
pub open spec fn has_bit(m: u16, d: u16) -> bool {
    (m >> d) & 1 == 1
}

/// Mask with exactly the bit for digit `d` set.
pub open spec fn digit_mask(d: u16) -> u16 {
    1u16 << d
}

/// A well-formed cell mask only uses the candidate bits 1..=9:
/// bit 0 is clear and bits 10..16 are clear.
pub open spec fn mask_wf(m: u16) -> bool {
    m < 1024 && m & 1 == 0
}

/// Number of candidate digits in `d..=9` that `m` admits.
pub open spec fn count_from(m: u16, d: u16) -> nat
    decreases 10 - d,
{
    if 1 <= d <= 9 {
        (if has_bit(m, d) {
            1nat
        } else {
            0nat
        }) + count_from(m, (d + 1) as u16)
    } else {
        0
    }
}

/// Number of candidate digits (1..=9) that `m` admits.
pub open spec fn popcount(m: u16) -> nat {
    count_from(m, 1)
}

/// A single cell: the set of digits it can still hold, as a bitmask.
/// Bit `d` (1..=9) set means digit `d` is still a candidate; bit 0 is unused.
#[derive(Debug, Clone, Copy, PartialEq, Eq, Structural)]
pub struct Cell(pub u16);

impl Cell {
    /// Whether this cell's mask is well formed (only candidate bits used).
    pub open spec fn wf(self) -> bool {
        mask_wf(self.0)
    }

    /// A cell solved to digit `n`: exactly that candidate bit set.
    pub fn known(n: usize) -> (r: Self)
        requires
            1 <= n <= 9,
        ensures
            r.0 == digit_mask(n as u16),
            r.wf(),
            popcount(r.0) == 1,
            forall|d: u16| 1 <= d <= 9 ==> (has_bit(r.0, d) <==> d == n),
    {
        let r = Cell(1u16 << (n as u16));
        proof {
            lemma_digit_mask_bits(n as u16);
            lemma_digit_mask_popcount(n as u16);
        }
        r
    }

    /// A cell with no information: every digit 1..=9 still possible.
    pub fn unknown() -> (r: Self)
        ensures
            r.0 == UNKNOWN_MASK,
            r.wf(),
            popcount(r.0) == 9,
            forall|d: u16| 1 <= d <= 9 ==> has_bit(r.0, d),
    {
        proof {
            lemma_unknown_mask();
        }
        Cell(UNKNOWN_MASK)
    }

    /// How many candidate digits this cell still admits.
    pub fn candidate_count(&self) -> (n: usize)
        ensures
            n == popcount(self.0),
    {
        proof {
            lemma_count_from_bound(self.0, 1);
        }
        let mut n: usize = 0;
        let mut d: u16 = 1;
        while d <= 9
            invariant
                1 <= d <= 10,
                n + count_from(self.0, d) == popcount(self.0),
                popcount(self.0) <= 9,
            decreases 10 - d,
        {
            if (self.0 >> d) & 1 == 1 {
                n = n + 1;
            }
            d = d + 1;
        }
        n
    }

    /// True iff the cell is solved: exactly one candidate left.
    pub fn is_solved(&self) -> (r: bool)
        ensures
            r == (popcount(self.0) == 1),
    {
        self.candidate_count() == 1
    }

    /// True iff `digit` is still a candidate of this cell.
    pub fn can_be(&self, digit: usize) -> (r: bool)
        requires
            1 <= digit <= 9,
        ensures
            r == has_bit(self.0, digit as u16),
    {
        (self.0 >> (digit as u16)) & 1 == 1
    }

    /// The solved digit, if the cell is solved; `None` otherwise.
    pub fn value(&self) -> (r: Option<usize>)
        ensures
            r == (if popcount(self.0) == 1 {
                Some(first_digit(self.0) as usize)
            } else {
                Option::<usize>::None
            }),
    {
        if self.is_solved() {
            let mut d: u16 = 1;
            while d <= 9
                invariant
                    1 <= d <= 10,
                    popcount(self.0) == 1,
                    forall|e: u16| 1 <= e < d ==> !has_bit(self.0, e),
                    first_digit(self.0) == first_from(self.0, d),
                decreases 10 - d,
            {
                if (self.0 >> d) & 1 == 1 {
                    return Some(d as usize);
                }
                d = d + 1;
            }
            proof {
                lemma_count_from_none(self.0, 1);
                assert(false);
            }
            None
        } else {
            None
        }
    }
}

/// The smallest candidate digit >= `d` of `m`, or 0 if there is none.
pub open spec fn first_from(m: u16, d: u16) -> u16
    decreases 10 - d,
{
    if 1 <= d <= 9 {
        if has_bit(m, d) {
            d
        } else {
            first_from(m, (d + 1) as u16)
        }
    } else {
        0
    }
}

/// The smallest candidate digit of `m`, or 0 if there is none.
pub open spec fn first_digit(m: u16) -> u16 {
    first_from(m, 1)
}

/// `count_from` only counts digits in `d..=9`, so it is at most `10 - d`.
pub proof fn lemma_count_from_bound(m: u16, d: u16)
    requires
        1 <= d <= 10,
    ensures
        count_from(m, d) <= 10 - d,
    decreases 10 - d,
{
    if d <= 9 {
        lemma_count_from_bound(m, (d + 1) as u16);
    }
}

/// A mask with no candidate bit in `d..=9` counts zero from `d`.
pub proof fn lemma_count_from_none(m: u16, d: u16)
    requires
        1 <= d <= 10,
        forall|e: u16| d <= e <= 9 ==> !has_bit(m, e),
    ensures
        count_from(m, d) == 0,
    decreases 10 - d,
{
    if d <= 9 {
        lemma_count_from_none(m, (d + 1) as u16);
    }
}

/// The bits of a single-digit mask: only the bit for that digit is set.
pub proof fn lemma_digit_mask_bits(n: u16)
    requires
        1 <= n <= 9,
    ensures
        mask_wf(digit_mask(n)),
        forall|d: u16| d <= 15 ==> (has_bit(digit_mask(n), d) <==> d == n),
{
    assert forall|d: u16| d <= 15 implies (has_bit(digit_mask(n), d) <==> d == n) by {
        assert(((1u16 << n) >> d) & 1 == 1 <==> d == n) by (bit_vector)
            requires
                1 <= n <= 9,
                d <= 15,
            ;
    }
    assert(1u16 << n < 1024 && (1u16 << n) & 1 == 0) by (bit_vector)
        requires
            1 <= n <= 9,
        ;
}

/// A single-digit mask has exactly one candidate.
pub proof fn lemma_digit_mask_popcount(n: u16)
    requires
        1 <= n <= 9,
    ensures
        popcount(digit_mask(n)) == 1,
{
    lemma_digit_mask_bits(n);
    lemma_count_single(digit_mask(n), n, 1);
}

/// Counting from `d`: a mask whose only candidate is `n` counts 1 if `n >= d`.
proof fn lemma_count_single(m: u16, n: u16, d: u16)
    requires
        1 <= d <= 10,
        1 <= n <= 9,
        forall|e: u16| 1 <= e <= 9 ==> (has_bit(m, e) <==> e == n),
    ensures
        count_from(m, d) == if d <= n {
            1nat
        } else {
            0nat
        },
    decreases 10 - d,
{
    if d <= 9 {
        lemma_count_single(m, n, (d + 1) as u16);
    }
}

/// A mask with at least one candidate has a first digit, and it is one of
/// its candidates.
pub proof fn lemma_first_digit(m: u16)
    requires
        popcount(m) >= 1,
    ensures
        1 <= first_digit(m) <= 9,
        has_bit(m, first_digit(m)),
{
    lemma_first_from(m, 1);
}

/// Induction for `lemma_first_digit` over the starting digit.
proof fn lemma_first_from(m: u16, d: u16)
    requires
        1 <= d <= 9,
        count_from(m, d) >= 1,
    ensures
        d <= first_from(m, d) <= 9,
        has_bit(m, first_from(m, d)),
    decreases 10 - d,
{
    if !has_bit(m, d) {
        if d == 9 {
            assert(count_from(m, 10) == 0);
        } else {
            lemma_first_from(m, (d + 1) as u16);
        }
    }
}

/// Counting from an earlier digit never counts less.
pub proof fn lemma_count_from_le(m: u16, a: u16, b: u16)
    requires
        1 <= a <= b <= 10,
    ensures
        count_from(m, a) >= count_from(m, b),
    decreases b - a,
{
    if a < b {
        lemma_count_from_le(m, (a + 1) as u16, b);
    }
}

/// A mask with two distinct candidates has at least two candidates counted.
pub proof fn lemma_count_pair(m: u16, d: u16, e: u16)
    requires
        1 <= d < e <= 9,
        has_bit(m, d),
        has_bit(m, e),
    ensures
        popcount(m) >= 2,
{
    lemma_count_from_le(m, 1, d);
    lemma_count_from_le(m, (d + 1) as u16, e);
}

/// A solved, well-formed mask that admits digit `d` is exactly that digit's
/// mask.
pub proof fn lemma_solved_is_digit_mask(m: u16, d: u16)
    requires
        mask_wf(m),
        popcount(m) == 1,
        1 <= d <= 9,
        has_bit(m, d),
    ensures
        m == digit_mask(d),
{
    assert forall|e: u16| 1 <= e <= 9 implies (has_bit(m, e) <==> has_bit(digit_mask(d), e)) by {
        lemma_digit_mask_bits(d);
        if e != d && has_bit(m, e) {
            if e < d {
                lemma_count_pair(m, e, d);
            } else {
                lemma_count_pair(m, d, e);
            }
        }
    }
    lemma_digit_mask_bits(d);
    crate::bits::lemma_eq_from_digit_bits(m, digit_mask(d));
}

/// The all-candidates mask is well formed and admits every digit.
pub proof fn lemma_unknown_mask()
    ensures
        mask_wf(UNKNOWN_MASK),
        forall|d: u16| 1 <= d <= 9 ==> has_bit(UNKNOWN_MASK, d),
        popcount(UNKNOWN_MASK) == 9,
{
    assert forall|d: u16| 1 <= d <= 9 implies has_bit(UNKNOWN_MASK, d) by {
        assert((0b111_111_111_0u16 >> d) & 1 == 1) by (bit_vector)
            requires
                1 <= d <= 9,
            ;
    }
    lemma_count_all(UNKNOWN_MASK, 1);
    assert(mask_wf(UNKNOWN_MASK)) by (bit_vector);
}

/// Counting from `d` on a mask that admits every digit yields `10 - d`.
proof fn lemma_count_all(m: u16, d: u16)
    requires
        1 <= d <= 10,
        forall|e: u16| 1 <= e <= 9 ==> has_bit(m, e),
    ensures
        count_from(m, d) == 10 - d,
    decreases 10 - d,
{
    if d <= 9 {
        lemma_count_all(m, (d + 1) as u16);
    }
}

} // verus!
