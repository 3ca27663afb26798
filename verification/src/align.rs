//! Rounding offsets up to an alignment.

use vstd::arithmetic::power2::{
    lemma2_to64_rest, lemma_pow2_pos, lemma_pow2_strictly_increases, pow2,
};
use vstd::bits::{lemma_u64_low_bits_mask_is_mod, low_bits_mask};
use vstd::prelude::*;

verus! {

/// Whether `x` is a power of two.
pub open spec fn is_power_of_two(x: int) -> bool {
    exists|k: nat| x == pow2(k)
}

/// `offset - 1` with the bits of `alignment - 1` set in it, plus one; and
/// `offset` itself where it or the alignment is zero. For an alignment that
/// is a power of two this is the least multiple of it that is not below
/// `offset`.
pub open spec fn spec_shift_for_alignment(alignment: u64, offset: u64) -> int {
    if offset > 0 && alignment > 0 {
        (((offset - 1) as u64) | ((alignment - 1) as u64)) + 1
    } else {
        offset as int
    }
}

/// The distance from `offset` up to `spec_shift_for_alignment`.
pub open spec fn spec_alignment_shift(alignment: u64, offset: u64) -> int {
    spec_shift_for_alignment(alignment, offset) - offset
}

/// A power of two that fits in 64 bits has an exponent below 64.
pub proof fn lemma_power_of_two_exponent(x: u64) -> (k: nat)
    requires
        is_power_of_two(x as int),
    ensures
        k < 64,
        x == pow2(k),
{
    let k = choose|k: nat| x as int == pow2(k);
    if k >= 64 {
        lemma2_to64_rest();
        if k > 64 {
            lemma_pow2_strictly_increases(64, k);
        }
    }
    k
}

/// With a power of two as alignment the shifted offset is the least multiple
/// of the alignment that is not below the offset.
pub proof fn lemma_alignment_shift(alignment: u64, offset: u64)
    requires
        is_power_of_two(alignment as int),
    ensures
        0 <= spec_alignment_shift(alignment, offset) < alignment,
        (offset + spec_alignment_shift(alignment, offset)) % (alignment as int) == 0,
{
    let k = lemma_power_of_two_exponent(alignment);
    lemma_pow2_pos(k);
    if offset > 0 {
        let x: u64 = (offset - 1) as u64;
        let m: u64 = (alignment - 1) as u64;
        assert((x | m) - x == m - (x & m) && (x | m) >= x && (x & m) <= m) by (bit_vector);
        assert(low_bits_mask(k) == m);
        lemma_u64_low_bits_mask_is_mod(x, k);
        assert(x & m == x % alignment);
        let a = alignment as int;
        let t = (offset as int) % a;
        assert(a > 0);
        if t == 0 {
            assert((x as int) % a == a - 1) by (nonlinear_arith)
                requires
                    x == offset - 1,
                    offset > 0,
                    a > 0,
                    (offset as int) % a == 0,
            ;
        } else {
            assert((x as int) % a == t - 1 && (offset + (a - t)) % a == 0) by (nonlinear_arith)
                requires
                    x == offset - 1,
                    a > 0,
                    t == (offset as int) % a,
                    t != 0,
            ;
        }
    } else {
        assert(0int % (alignment as int) == 0);
    }
}

/// Whatever the alignment, the shift is not negative, and the shifted offset
/// exceeds 64 bits by one at most.
pub proof fn lemma_alignment_shift_bounds(alignment: u64, offset: u64)
    ensures
        0 <= spec_alignment_shift(alignment, offset),
        offset + spec_alignment_shift(alignment, offset) <= u64::MAX + 1,
        offset == 0 ==> spec_alignment_shift(alignment, offset) == 0,
{
    if offset > 0 && alignment > 0 {
        let x: u64 = (offset - 1) as u64;
        let m: u64 = (alignment - 1) as u64;
        assert((x | m) >= x) by (bit_vector);
    }
}

/// Rounds `offset` up for `alignment`.
pub fn shift_for_alignment(alignment: u64, offset: u64) -> (shifted: u64)
    requires
        spec_shift_for_alignment(alignment, offset) <= u64::MAX,
    ensures
        shifted == spec_shift_for_alignment(alignment, offset),
{
    if offset > 0 && alignment > 0 {
        ((offset - 1) | (alignment - 1)) + 1
    } else {
        offset
    }
}

/// The number of bytes to skip from `offset` to satisfy `alignment`.
pub fn alignment_shift(alignment: u64, offset: u64) -> (shift: u64)
    ensures
        shift == spec_alignment_shift(alignment, offset),
        is_power_of_two(alignment as int) ==> shift < alignment && (offset + shift) % (
        alignment as int) == 0,
{
    proof {
        if is_power_of_two(alignment as int) {
            lemma_alignment_shift(alignment, offset);
        }
    }
    if offset > 0 && alignment > 0 {
        let low: u64 = offset - 1;
        let mask: u64 = alignment - 1;
        assert((low | mask) >= low) by (bit_vector);
        (low | mask) - low
    } else {
        0
    }
}

} // verus!
