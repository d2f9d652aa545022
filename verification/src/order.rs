//! The order of single-precision numbers, read off their bit patterns.
//!
//! A number is given as the 32 bits that IEEE 754 `binary32` gives it: one sign bit, then the
//! magnitude, which grows with the absolute value of the number.
use vstd::prelude::*;

verus! {

/// The bits of the largest finite number.
pub const LARGEST: u32 = 0x7F7F_FFFF;

/// The bits of the smallest finite number.
pub const SMALLEST: u32 = 0xFF7F_FFFF;

/// The bits of positive infinity, above which a magnitude is not a number.
pub const INFINITE: u32 = 0x7F80_0000;

/// The bits of the number one.
pub const ONE: u32 = 0x3F80_0000;

/// The first pattern with the sign bit set.
pub const SIGN: u32 = 0x8000_0000;

/// The bits without the sign.
pub open spec fn magnitude(bits: u32) -> int {
    if bits < SIGN {
        bits as int
    } else {
        bits - SIGN
    }
}

/// Whether the pattern is not a number.
pub open spec fn is_nan(bits: u32) -> bool {
    magnitude(bits) > INFINITE
}

/// The place of a number among all numbers; both zeros have the same place.
pub open spec fn rank(bits: u32) -> int {
    if bits < SIGN {
        magnitude(bits)
    } else {
        -magnitude(bits)
    }
}

/// The relation `a < b` of IEEE 754: false where either side is not a number.
pub open spec fn below(a: u32, b: u32) -> bool {
    !is_nan(a) && !is_nan(b) && rank(a) < rank(b)
}

/// Decides `a < b` for the numbers with these bits.
pub fn less(a: u32, b: u32) -> (r: bool)
    ensures
        r == below(a, b),
{
    let ma: u32 = if a < SIGN {
        a
    } else {
        a - SIGN
    };
    let mb: u32 = if b < SIGN {
        b
    } else {
        b - SIGN
    };
    if ma > INFINITE || mb > INFINITE {
        false
    } else if a < SIGN {
        b < SIGN && ma < mb
    } else if b < SIGN {
        ma > 0 || mb > 0
    } else {
        mb < ma
    }
}

/// `<` is a strict order: nothing is below itself, and it is transitive.
pub proof fn below_is_a_strict_order(a: u32, b: u32, c: u32)
    ensures
        !below(a, a),
        below(a, b) ==> !below(b, a),
        below(a, b) && below(b, c) ==> below(a, c),
{
}

/// Two numbers are ordered one way or the other unless they have the same place.
pub proof fn below_is_total_on_numbers(a: u32, b: u32)
    requires
        !is_nan(a),
        !is_nan(b),
    ensures
        below(a, b) || below(b, a) || rank(a) == rank(b),
{
}

/// Where neither sign bit is set, numbers are ordered as their bits are.
pub proof fn positive_numbers_are_ordered_by_their_bits(a: u32, b: u32)
    requires
        a <= 0x7F80_0000,
        b <= 0x7F80_0000,
    ensures
        below(a, b) <==> a < b,
{
}

/// Where both sign bits are set, numbers are ordered against their bits.
pub proof fn negative_numbers_are_ordered_against_their_bits(a: u32, b: u32)
    requires
        0x8000_0000 <= a <= 0xFF80_0000,
        0x8000_0000 <= b <= 0xFF80_0000,
    ensures
        below(a, b) <==> b < a,
{
}

/// A number with the sign bit set is below every one without, but for the two zeros, which are
/// equal.
pub proof fn negative_numbers_are_below_positive_ones(a: u32, b: u32)
    requires
        0x8000_0000 <= a <= 0xFF80_0000,
        b <= 0x7F80_0000,
    ensures
        below(a, b) <==> !(a == 0x8000_0000 && b == 0),
        !below(b, a),
{
}

/// What is not a number, its bits lying above those of an infinity, is below nothing, and
/// nothing is below it.
pub proof fn what_is_no_number_is_not_ordered(a: u32, b: u32)
    requires
        0x7F80_0000 < a < 0x8000_0000 || 0xFF80_0000 < a,
    ensures
        is_nan(a),
        !below(a, b),
        !below(b, a),
{
}

/// The patterns up to an infinity are numbers.
pub proof fn the_others_are_numbers(a: u32)
    requires
        a <= 0x7F80_0000 || 0x8000_0000 <= a <= 0xFF80_0000,
    ensures
        !is_nan(a),
{
}

/// Only infinity is above the largest finite number, and only negative infinity below the
/// smallest.
pub proof fn finite_numbers_lie_between_the_ends(a: u32)
    ensures
        below(LARGEST, a) <==> a == 0x7F80_0000,
        below(a, SMALLEST) <==> a == 0xFF80_0000,
{
}

} // verus!
