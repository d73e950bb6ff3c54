//! Nine-bit candidate masks.
//!
//! A cell's remaining candidates are kept in the low nine bits of a `u16`:
//! bit `b` (zero-based) stands for digit `b + 1`.

use vstd::prelude::*;

verus! {

/// The mask in which every digit 1..=9 is still a candidate.
pub const FILLED_BITSET: u16 = 0x1ff;

/// Bit `b` of `m` is set.
pub open spec fn bit_set(m: u16, b: u16) -> bool {
    b < 16 && (m >> b) & 1 == 1
}

/// Digit `d` (1..=9) is still a candidate in mask `m`.
pub open spec fn has_digit(m: u16, d: int) -> bool {
    1 <= d <= 9 && bit_set(m, (d - 1) as u16)
}

/// Every candidate of `a` is a candidate of `b`.
pub open spec fn mask_le(a: u16, b: u16) -> bool {
    forall|d: int| #[trigger] has_digit(a, d) ==> has_digit(b, d)
}

pub proof fn lemma_and_bit(x: u16, y: u16, b: u16)
    by (bit_vector)
    ensures
        bit_set(x & y, b) <==> (bit_set(x, b) && bit_set(y, b)),
{
}

pub proof fn lemma_andnot_bit(x: u16, y: u16, b: u16)
    by (bit_vector)
    ensures
        bit_set(x & !y, b) <==> (bit_set(x, b) && !bit_set(y, b)),
{
}

pub proof fn lemma_clear_bit(x: u16, b: u16, b2: u16)
    by (bit_vector)
    requires
        b < 16,
    ensures
        bit_set(x & !(1u16 << b), b2) <==> (bit_set(x, b2) && b2 != b),
{
}

pub proof fn lemma_set_bit(x: u16, b: u16, b2: u16)
    by (bit_vector)
    requires
        b < 16,
    ensures
        bit_set(x | (1u16 << b), b2) <==> (bit_set(x, b2) || b2 == b),
        (x < 512 && b < 9) ==> (x | (1u16 << b)) < 512,
{
}

pub proof fn lemma_test_bit(x: u16, b: u16)
    by (bit_vector)
    requires
        b < 16,
    ensures
        ((x & (1u16 << b)) != 0) <==> bit_set(x, b),
{
}

pub proof fn lemma_zero_bit(b: u16)
    by (bit_vector)
    ensures
        !bit_set(0u16, b),
{
}

pub proof fn lemma_full_bit(b: u16)
    by (bit_vector)
    ensures
        bit_set(0x1ffu16, b) <==> b < 9,
{
}

pub proof fn lemma_mask_bounds(x: u16, y: u16)
    by (bit_vector)
    ensures
        x < 512 ==> (x & y) < 512,
        (x < 512 && y < 512) ==> (x | y) < 512,
        x < 512 ==> (x & !y) < 512,
{
}

pub proof fn lemma_high_bits(x: u16, b: u16)
    by (bit_vector)
    requires
        x < 512,
        9 <= b,
    ensures
        !bit_set(x, b),
{
}

pub proof fn lemma_bit_nonzero(x: u16, b: u16)
    by (bit_vector)
    ensures
        bit_set(x, b) ==> x != 0,
{
}

pub proof fn lemma_nonzero_bit(x: u16)
    by (bit_vector)
    requires
        x < 512,
        x != 0,
    ensures
        bit_set(x, 0) || bit_set(x, 1) || bit_set(x, 2) || bit_set(x, 3) || bit_set(x, 4)
            || bit_set(x, 5) || bit_set(x, 6) || bit_set(x, 7) || bit_set(x, 8),
{
}

/// A mask grows past `y` exactly when it still holds a bit outside `y`.
pub proof fn lemma_outside_flag(x: u16, y: u16)
    by (bit_vector)
    ensures
        ((x | y) != y) <==> ((x & y) != x),
{
}

/// Clearing the bits of `y` changes `x` exactly when `x` shares a bit with `y`.
pub proof fn lemma_shared_flag(x: u16, y: u16)
    by (bit_vector)
    ensures
        ((x & y) != 0) <==> ((x & !y) != x),
{
}

/// A nonzero well-formed mask still holds some digit.
pub proof fn lemma_nonzero_has_digit(m: u16)
    requires
        m < 512,
        m != 0,
    ensures
        exists|d: int| has_digit(m, d),
{
    lemma_nonzero_bit(m);
    if bit_set(m, 0) {
        assert(has_digit(m, 1));
    } else if bit_set(m, 1) {
        assert(has_digit(m, 2));
    } else if bit_set(m, 2) {
        assert(has_digit(m, 3));
    } else if bit_set(m, 3) {
        assert(has_digit(m, 4));
    } else if bit_set(m, 4) {
        assert(has_digit(m, 5));
    } else if bit_set(m, 5) {
        assert(has_digit(m, 6));
    } else if bit_set(m, 6) {
        assert(has_digit(m, 7));
    } else if bit_set(m, 7) {
        assert(has_digit(m, 8));
    } else {
        assert(has_digit(m, 9));
    }
}

/// Whatever digits a nonzero mask holds survive into any mask above it, so
/// that mask is nonzero too.
pub proof fn lemma_mask_le_nonzero(a: u16, b: u16)
    requires
        a < 512,
        a != 0,
        mask_le(a, b),
    ensures
        b != 0,
{
    lemma_nonzero_has_digit(a);
    let d = choose|d: int| has_digit(a, d);
    assert(has_digit(b, d));
    lemma_bit_nonzero(b, (d - 1) as u16);
}

/// Two well-formed masks with the same digits are the same mask.
pub proof fn lemma_mask_ext(a: u16, b: u16)
    requires
        a < 512,
        b < 512,
        mask_le(a, b),
        mask_le(b, a),
    ensures
        a == b,
{
    assert(has_digit(a, 1) <==> has_digit(b, 1));
    assert(has_digit(a, 2) <==> has_digit(b, 2));
    assert(has_digit(a, 3) <==> has_digit(b, 3));
    assert(has_digit(a, 4) <==> has_digit(b, 4));
    assert(has_digit(a, 5) <==> has_digit(b, 5));
    assert(has_digit(a, 6) <==> has_digit(b, 6));
    assert(has_digit(a, 7) <==> has_digit(b, 7));
    assert(has_digit(a, 8) <==> has_digit(b, 8));
    assert(has_digit(a, 9) <==> has_digit(b, 9));
    assert(a == b) by (bit_vector)
        requires
            a < 512,
            b < 512,
            (bit_set(a, 0) <==> bit_set(b, 0)),
            (bit_set(a, 1) <==> bit_set(b, 1)),
            (bit_set(a, 2) <==> bit_set(b, 2)),
            (bit_set(a, 3) <==> bit_set(b, 3)),
            (bit_set(a, 4) <==> bit_set(b, 4)),
            (bit_set(a, 5) <==> bit_set(b, 5)),
            (bit_set(a, 6) <==> bit_set(b, 6)),
            (bit_set(a, 7) <==> bit_set(b, 7)),
            (bit_set(a, 8) <==> bit_set(b, 8)),
    ;
}

/// Number of set bits among the low `n` bits of `m`.
pub open spec fn popcount_upto(m: u16, n: nat) -> nat
    decreases n,
{
    if n == 0 {
        0
    } else {
        popcount_upto(m, (n - 1) as nat) + if bit_set(m, (n - 1) as u16) {
            1nat
        } else {
            0nat
        }
    }
}

/// Number of set bits of `m`.
pub open spec fn popcount(m: u16) -> nat {
    popcount_upto(m, 16)
}

pub proof fn lemma_popcount_zero(n: nat)
    ensures
        popcount_upto(0u16, n) == 0,
    decreases n,
{
    if n > 0 {
        lemma_popcount_zero((n - 1) as nat);
        lemma_zero_bit((n - 1) as u16);
    }
}

/// Count the set bits of a mask.
pub fn count_ones(m: u16) -> (r: u32)
    ensures
        r == popcount(m),
{
    let mut r: u32 = 0;
    let mut b: u16 = 0;
    while b < 16
        invariant
            b <= 16,
            r == popcount_upto(m, b as nat),
            r <= b,
        decreases 16 - b,
    {
        if (m >> b) & 1 == 1 {
            r = r + 1;
        }
        b = b + 1;
    }
    r
}

} // verus!
