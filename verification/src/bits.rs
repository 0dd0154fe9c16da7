//! Bit-level facts about candidate masks, shared by the elimination rules
//! and the solver's convergence argument.

use vstd::prelude::*;

use crate::cell::Cell;
use crate::cell::count_from;
use crate::cell::has_bit;
use crate::cell::mask_wf;
use crate::cell::popcount;

verus! {

/// `a` is a sub-mask of `b`: every bit set in `a` is set in `b`.
pub open spec fn mask_subset(a: u16, b: u16) -> bool {
    a | b == b
}

/// A sub-mask's bits are all present in the larger mask.
pub proof fn lemma_subset_bits(a: u16, b: u16)
    requires
        mask_subset(a, b),
    ensures
        forall|d: u16| d <= 15 ==> (has_bit(a, d) ==> has_bit(b, d)),
{
    assert forall|d: u16| d <= 15 && has_bit(a, d) implies has_bit(b, d) by {
        assert((a | b == b && (a >> d) & 1 == 1) ==> (b >> d) & 1 == 1) by (bit_vector)
            requires
                d <= 15,
            ;
    }
}

/// Sub-masks are transitively ordered.
pub proof fn lemma_subset_trans(a: u16, b: u16, c: u16)
    requires
        mask_subset(a, b),
        mask_subset(b, c),
    ensures
        mask_subset(a, c),
{
    assert((a | b == b && b | c == c) ==> a | c == c) by (bit_vector);
}

/// Every mask is a sub-mask of itself.
pub proof fn lemma_subset_refl(a: u16)
    ensures
        mask_subset(a, a),
{
    assert(a | a == a) by (bit_vector);
}

/// Clearing bits (`x & m`) yields a sub-mask of `x`.
pub proof fn lemma_and_subset(x: u16, m: u16)
    ensures
        mask_subset(x & m, x),
{
    assert((x & m) | x == x) by (bit_vector);
}

/// A digit mask of a present candidate is a sub-mask of the cell's mask.
pub proof fn lemma_bit_subset(b: u16, d: u16)
    requires
        d <= 15,
        has_bit(b, d),
    ensures
        mask_subset(1u16 << d, b),
{
    assert((b >> d) & 1 == 1 ==> (1u16 << d) | b == b) by (bit_vector)
        requires
            d <= 15,
        ;
}

/// Union with the empty mask changes nothing.
pub proof fn lemma_or_zero(x: u16)
    ensures
        x | 0 == x,
        0 | x == x,
{
    assert(x | 0 == x && 0 | x == x) by (bit_vector);
}

/// Bits of a union: set iff set in either operand.
pub proof fn lemma_or_bits(a: u16, b: u16, d: u16)
    requires
        d <= 15,
    ensures
        has_bit(a | b, d) <==> has_bit(a, d) || has_bit(b, d),
{
    assert((((a | b) >> d) & 1 == 1) <==> ((a >> d) & 1 == 1 || (b >> d) & 1 == 1))
        by (bit_vector)
        requires
            d <= 15,
        ;
}

/// Bits of `x & !k`: set iff set in `x` and clear in `k`.
pub proof fn lemma_andnot_bits(x: u16, k: u16, d: u16)
    requires
        d <= 15,
    ensures
        has_bit(x & !k, d) <==> has_bit(x, d) && !has_bit(k, d),
{
    assert((((x & !k) >> d) & 1 == 1) <==> ((x >> d) & 1 == 1 && !((k >> d) & 1 == 1)))
        by (bit_vector)
        requires
            d <= 15,
        ;
}

/// Masking preserves well-formedness.
pub proof fn lemma_andnot_wf(x: u16, k: u16)
    requires
        mask_wf(x),
    ensures
        mask_wf(x & !k),
{
    assert((x < 1024 && x & 1 == 0) ==> ((x & !k) < 1024 && (x & !k) & 1 == 0)) by (bit_vector);
}

/// Applying the same clearing mask twice changes nothing.
pub proof fn lemma_andnot_idem(x: u16, k: u16)
    ensures
        (x & !k) & !k == x & !k,
{
    assert((x & !k) & !k == x & !k) by (bit_vector);
}

/// The union of two well-formed masks is well formed.
pub proof fn lemma_or_wf(a: u16, b: u16)
    requires
        mask_wf(a),
        mask_wf(b),
    ensures
        mask_wf(a | b),
{
    assert((a < 1024 && a & 1 == 0 && b < 1024 && b & 1 == 0) ==> ((a | b) < 1024 && (a | b) & 1
        == 0)) by (bit_vector);
}

/// A sub-mask admits at most as many candidates, digit range `d..=9`.
pub proof fn lemma_subset_count_from(a: u16, b: u16, d: u16)
    requires
        1 <= d <= 10,
        mask_subset(a, b),
    ensures
        count_from(a, d) <= count_from(b, d),
    decreases 10 - d,
{
    if d <= 9 {
        lemma_subset_bits(a, b);
        lemma_subset_count_from(a, b, (d + 1) as u16);
    }
}

/// A sub-mask admits at most as many candidates.
pub proof fn lemma_subset_popcount(a: u16, b: u16)
    requires
        mask_subset(a, b),
    ensures
        popcount(a) <= popcount(b),
{
    lemma_subset_count_from(a, b, 1);
}

/// A sub-mask with the same candidate count has the same bits, digit by digit.
proof fn lemma_subset_count_eq_bits(a: u16, b: u16, d: u16)
    requires
        1 <= d <= 10,
        mask_subset(a, b),
        count_from(a, d) == count_from(b, d),
    ensures
        forall|e: u16| d <= e <= 9 ==> (has_bit(a, e) <==> has_bit(b, e)),
    decreases 10 - d,
{
    if d <= 9 {
        lemma_subset_bits(a, b);
        lemma_subset_count_from(a, b, (d + 1) as u16);
        lemma_subset_count_eq_bits(a, b, (d + 1) as u16);
    }
}

/// Two well-formed masks that agree on every candidate digit are equal.
pub proof fn lemma_eq_from_digit_bits(a: u16, b: u16)
    requires
        mask_wf(a),
        mask_wf(b),
        forall|e: u16| 1 <= e <= 9 ==> (has_bit(a, e) <==> has_bit(b, e)),
    ensures
        a == b,
{
    assert(has_bit(a, 1) <==> has_bit(b, 1));
    assert(has_bit(a, 2) <==> has_bit(b, 2));
    assert(has_bit(a, 3) <==> has_bit(b, 3));
    assert(has_bit(a, 4) <==> has_bit(b, 4));
    assert(has_bit(a, 5) <==> has_bit(b, 5));
    assert(has_bit(a, 6) <==> has_bit(b, 6));
    assert(has_bit(a, 7) <==> has_bit(b, 7));
    assert(has_bit(a, 8) <==> has_bit(b, 8));
    assert(has_bit(a, 9) <==> has_bit(b, 9));
    assert(a == b) by (bit_vector)
        requires
            a < 1024,
            a & 1 == 0,
            b < 1024,
            b & 1 == 0,
            ((a >> 1u16) & 1 == 1) == ((b >> 1u16) & 1 == 1),
            ((a >> 2u16) & 1 == 1) == ((b >> 2u16) & 1 == 1),
            ((a >> 3u16) & 1 == 1) == ((b >> 3u16) & 1 == 1),
            ((a >> 4u16) & 1 == 1) == ((b >> 4u16) & 1 == 1),
            ((a >> 5u16) & 1 == 1) == ((b >> 5u16) & 1 == 1),
            ((a >> 6u16) & 1 == 1) == ((b >> 6u16) & 1 == 1),
            ((a >> 7u16) & 1 == 1) == ((b >> 7u16) & 1 == 1),
            ((a >> 8u16) & 1 == 1) == ((b >> 8u16) & 1 == 1),
            ((a >> 9u16) & 1 == 1) == ((b >> 9u16) & 1 == 1),
        ;
}

/// A well-formed sub-mask with the same candidate count is the same mask.
pub proof fn lemma_subset_same_count_eq(a: u16, b: u16)
    requires
        mask_wf(a),
        mask_wf(b),
        mask_subset(a, b),
        popcount(a) == popcount(b),
    ensures
        a == b,
{
    lemma_subset_count_eq_bits(a, b, 1);
    lemma_eq_from_digit_bits(a, b);
}

/// Pointwise sub-mask relation between two boards of cells.
pub open spec fn cells_subset(s1: Seq<Cell>, s2: Seq<Cell>) -> bool {
    &&& s1.len() == s2.len()
    &&& forall|i: int| 0 <= i < s1.len() ==> mask_subset(#[trigger] s1[i].0, s2[i].0)
}

/// `cells_subset` is reflexive.
pub proof fn lemma_cells_subset_refl(s: Seq<Cell>)
    ensures
        cells_subset(s, s),
{
    assert forall|i: int| 0 <= i < s.len() implies mask_subset(#[trigger] s[i].0, s[i].0) by {
        lemma_subset_refl(s[i].0);
    }
}

/// `cells_subset` is transitive.
pub proof fn lemma_cells_subset_trans(s1: Seq<Cell>, s2: Seq<Cell>, s3: Seq<Cell>)
    requires
        cells_subset(s1, s2),
        cells_subset(s2, s3),
    ensures
        cells_subset(s1, s3),
{
    assert forall|i: int| 0 <= i < s1.len() implies mask_subset(#[trigger] s1[i].0, s3[i].0) by {
        lemma_subset_trans(s1[i].0, s2[i].0, s3[i].0);
    }
}

} // verus!
