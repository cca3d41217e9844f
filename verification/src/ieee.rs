//! The order of IEEE-754 numbers, read off their bit patterns.
use vstd::prelude::*;

verus! {

/// The pattern with the sign taken off.
pub open spec fn single_magnitude(bits: u32) -> int {
    if bits >= 0x8000_0000 {
        bits - 0x8000_0000
    } else {
        bits as int
    }
}

/// Whether the pattern stands for no number.
pub open spec fn single_is_nan(bits: u32) -> bool {
    single_magnitude(bits) > 0x7f80_0000
}

/// A place on the integer line that keeps the order of the numbers; both
/// zeros have the same place.
pub open spec fn single_rank(bits: u32) -> int {
    if bits >= 0x8000_0000 {
        -single_magnitude(bits)
    } else {
        single_magnitude(bits)
    }
}

/// `a < b` of two single-precision numbers.
pub open spec fn single_less(a: u32, b: u32) -> bool {
    !single_is_nan(a) && !single_is_nan(b) && single_rank(a) < single_rank(b)
}

/// `a >= b` of two single-precision numbers.
pub open spec fn single_at_least(a: u32, b: u32) -> bool {
    !single_is_nan(a) && !single_is_nan(b) && single_rank(a) >= single_rank(b)
}

/// The pattern with the sign taken off.
pub open spec fn double_magnitude(bits: u64) -> int {
    if bits >= 0x8000_0000_0000_0000 {
        bits - 0x8000_0000_0000_0000
    } else {
        bits as int
    }
}

/// Whether the pattern stands for no number.
pub open spec fn double_is_nan(bits: u64) -> bool {
    double_magnitude(bits) > 0x7ff0_0000_0000_0000
}

/// A place on the integer line that keeps the order of the numbers; both
/// zeros have the same place.
pub open spec fn double_rank(bits: u64) -> int {
    if bits >= 0x8000_0000_0000_0000 {
        -double_magnitude(bits)
    } else {
        double_magnitude(bits)
    }
}

/// `a < b` of two double-precision numbers.
pub open spec fn double_less(a: u64, b: u64) -> bool {
    !double_is_nan(a) && !double_is_nan(b) && double_rank(a) < double_rank(b)
}

fn single_sign_magnitude(bits: u32) -> (r: (bool, u32))
    ensures
        r.0 == (bits >= 0x8000_0000),
        r.1 == single_magnitude(bits),
{
    if bits >= 0x8000_0000 {
        (true, bits - 0x8000_0000)
    } else {
        (false, bits)
    }
}

fn double_sign_magnitude(bits: u64) -> (r: (bool, u64))
    ensures
        r.0 == (bits >= 0x8000_0000_0000_0000),
        r.1 == double_magnitude(bits),
{
    if bits >= 0x8000_0000_0000_0000 {
        (true, bits - 0x8000_0000_0000_0000)
    } else {
        (false, bits)
    }
}

/// Whether the single-precision number `a` is less than `b`.
pub fn is_single_less(a: u32, b: u32) -> (r: bool)
    ensures
        r == single_less(a, b),
{
    let (a_neg, a_mag) = single_sign_magnitude(a);
    let (b_neg, b_mag) = single_sign_magnitude(b);
    if a_mag > 0x7f80_0000 || b_mag > 0x7f80_0000 {
        false
    } else if a_neg {
        if b_neg {
            b_mag < a_mag
        } else {
            a_mag != 0 || b_mag != 0
        }
    } else {
        !b_neg && a_mag < b_mag
    }
}

/// Whether the single-precision number `a` is at least `b`.
pub fn is_single_at_least(a: u32, b: u32) -> (r: bool)
    ensures
        r == single_at_least(a, b),
{
    let (_, a_mag) = single_sign_magnitude(a);
    let (_, b_mag) = single_sign_magnitude(b);
    a_mag <= 0x7f80_0000 && b_mag <= 0x7f80_0000 && !is_single_less(a, b)
}

/// Whether the double-precision number `a` is less than `b`.
pub fn is_double_less(a: u64, b: u64) -> (r: bool)
    ensures
        r == double_less(a, b),
{
    let (a_neg, a_mag) = double_sign_magnitude(a);
    let (b_neg, b_mag) = double_sign_magnitude(b);
    if a_mag > 0x7ff0_0000_0000_0000 || b_mag > 0x7ff0_0000_0000_0000 {
        false
    } else if a_neg {
        if b_neg {
            b_mag < a_mag
        } else {
            a_mag != 0 || b_mag != 0
        }
    } else {
        !b_neg && a_mag < b_mag
    }
}

/// The order of the numbers is strict: nothing is less than itself, and what
/// is less than something smaller is less than the greater one too.
pub proof fn law_double_order_is_strict(a: u64, b: u64, c: u64)
    ensures
        !double_less(a, a),
        double_less(a, b) ==> !double_less(b, a),
        double_less(a, b) && double_less(b, c) ==> double_less(a, c),
{
}

/// Of two single-precision numbers exactly one of `a < b` and `a >= b` holds;
/// beside something that is no number neither does.
pub proof fn law_single_order_is_total(a: u32, b: u32)
    ensures
        !single_is_nan(a) && !single_is_nan(b) ==> single_less(a, b) != single_at_least(a, b),
        single_is_nan(a) || single_is_nan(b) ==> !single_less(a, b) && !single_at_least(a, b),
{
}

/// The order of single-precision numbers goes by their patterns: upwards without a sign
/// and downwards with one, numbers with a sign before those without, both zeros the
/// same; a pattern that is no number is not less and has nothing less.
pub proof fn law_singles_are_ordered_by_their_bits(a: u32, b: u32)
    ensures
        a <= 0x7F80_0000 && b <= 0x7F80_0000 ==> (single_less(a, b) <==> a < b),
        0x8000_0000 <= a <= 0xFF80_0000 && 0x8000_0000 <= b <= 0xFF80_0000 ==> (
        single_less(a, b) <==> a > b),
        0x8000_0000 <= a <= 0xFF80_0000 && b <= 0x7F80_0000 ==> (single_less(a, b) <==> a
            != 0x8000_0000 || b != 0),
        a <= 0x7F80_0000 && 0x8000_0000 <= b ==> !single_less(a, b),
        0x7F80_0000 < a < 0x8000_0000 || 0xFF80_0000 < a ==> !single_less(a, b),
        0x7F80_0000 < b < 0x8000_0000 || 0xFF80_0000 < b ==> !single_less(a, b),
        single_is_nan(a) <==> 0x7F80_0000 < a < 0x8000_0000 || 0xFF80_0000 < a,
{
}

/// The order of double-precision numbers goes by their patterns: upwards without a sign
/// and downwards with one, numbers with a sign before those without, both zeros the
/// same; a pattern that is no number is not less and has nothing less.
pub proof fn law_doubles_are_ordered_by_their_bits(a: u64, b: u64)
    ensures
        a <= 0x7FF0_0000_0000_0000 && b <= 0x7FF0_0000_0000_0000 ==> (double_less(a, b) <==> a < b),
        0x8000_0000_0000_0000 <= a <= 0xFFF0_0000_0000_0000 && 0x8000_0000_0000_0000 <= b
            <= 0xFFF0_0000_0000_0000 ==> (double_less(a, b) <==> a > b),
        0x8000_0000_0000_0000 <= a <= 0xFFF0_0000_0000_0000 && b <= 0x7FF0_0000_0000_0000 ==> (double_less(a, b) <==> a
            != 0x8000_0000_0000_0000 || b != 0),
        a <= 0x7FF0_0000_0000_0000 && 0x8000_0000_0000_0000 <= b ==> !double_less(a, b),
        0x7FF0_0000_0000_0000 < a < 0x8000_0000_0000_0000 || 0xFFF0_0000_0000_0000 < a ==> !double_less(a, b),
        0x7FF0_0000_0000_0000 < b < 0x8000_0000_0000_0000 || 0xFFF0_0000_0000_0000 < b ==> !double_less(a, b),
        double_is_nan(a) <==> 0x7FF0_0000_0000_0000 < a < 0x8000_0000_0000_0000
            || 0xFFF0_0000_0000_0000 < a,
{
}

} // verus!
