//! Single-precision floating-point numbers by their bit patterns.
use vstd::prelude::*;

verus! {

/// The bit pattern of one.
pub const ONE: u32 = 0x3f80_0000;

/// The bits without the sign.
pub open spec fn magnitude(x: u32) -> int {
    x as int % 0x8000_0000
}

/// The bit pattern stands for no number.
pub open spec fn is_nan(x: u32) -> bool {
    magnitude(x) > 0x7f80_0000
}

/// Both bit patterns stand for the same number: the same bits, or zero with either sign.
pub open spec fn equal_numbers(a: u32, b: u32) -> bool {
    &&& !is_nan(a)
    &&& !is_nan(b)
    &&& a == b || magnitude(a) == 0 && magnitude(b) == 0
}

/// Where the number lies among all numbers: zeros of both signs at the same place.
pub open spec fn rank(x: u32) -> int {
    if x < 0x8000_0000 {
        magnitude(x)
    } else {
        -magnitude(x)
    }
}

/// The first number is less than the second or equal to it.
pub open spec fn at_most(a: u32, b: u32) -> bool {
    !is_nan(a) && !is_nan(b) && rank(a) <= rank(b)
}

/// The first number is less than the second.
pub open spec fn less(a: u32, b: u32) -> bool {
    !is_nan(a) && !is_nan(b) && rank(a) < rank(b)
}

fn ranked(x: u32) -> (r: i64)
    ensures
        r == rank(x),
{
    let m = (x % 0x8000_0000) as i64;
    if x < 0x8000_0000 {
        m
    } else {
        -m
    }
}

fn no_number(x: u32) -> (b: bool)
    ensures
        b == is_nan(x),
{
    x % 0x8000_0000 > 0x7f80_0000
}

/// Whether the first number is less than the second or equal to it.
pub fn number_at_most(a: u32, b: u32) -> (r: bool)
    ensures
        r == at_most(a, b),
{
    !no_number(a) && !no_number(b) && ranked(a) <= ranked(b)
}

/// Whether the first number is less than the second.
pub fn number_less(a: u32, b: u32) -> (r: bool)
    ensures
        r == less(a, b),
{
    !no_number(a) && !no_number(b) && ranked(a) < ranked(b)
}

/// Whether both bit patterns stand for the same number.
pub fn same_number(a: u32, b: u32) -> (same: bool)
    ensures
        same == equal_numbers(a, b),
{
    let m = a % 0x8000_0000;
    let n = b % 0x8000_0000;
    m <= 0x7f80_0000 && n <= 0x7f80_0000 && (a == b || m == 0 && n == 0)
}

/// Numbers are in order: of two numbers one is at most the other, both are only where they are
/// equal, and the order carries over.
pub proof fn numbers_are_ordered(a: u32, b: u32, c: u32)
    ensures
        !is_nan(a) && !is_nan(b) ==> at_most(a, b) || at_most(b, a),
        at_most(a, b) && at_most(b, a) <==> equal_numbers(a, b),
        at_most(a, b) && at_most(b, c) ==> at_most(a, c),
        less(a, b) <==> at_most(a, b) && !equal_numbers(a, b),
{
}

/// Equality of numbers goes both ways and carries over, and every number equals itself.
pub proof fn equal_numbers_is_an_equivalence(a: u32, b: u32, c: u32)
    ensures
        !is_nan(a) ==> equal_numbers(a, a),
        equal_numbers(a, b) ==> equal_numbers(b, a),
        equal_numbers(a, b) && equal_numbers(b, c) ==> equal_numbers(a, c),
{
}

/// A bit pattern stands for no number exactly where all bits of the exponent are set and some bit
/// behind them is.
pub proof fn patterns_beyond_infinity_are_no_numbers(x: u32)
    ensures
        is_nan(x) <==> 0x7f80_0000 < x < 0x8000_0000 || 0xff80_0000 < x,
{
}

/// Numbers above zero are in the order of their bit patterns, numbers below zero in the opposite
/// order, and those below zero come before those above it. Both zeros are one number. What is no
/// number is in no order.
pub proof fn numbers_follow_their_bit_patterns(a: u32, b: u32)
    ensures
        a <= 0x7f80_0000 && b <= 0x7f80_0000 ==> (at_most(a, b) <==> a <= b),
        0x8000_0000 <= a <= 0xff80_0000 && 0x8000_0000 <= b <= 0xff80_0000 ==> (at_most(a, b) <==> b
            <= a),
        0x8000_0000 <= a <= 0xff80_0000 && b <= 0x7f80_0000 ==> at_most(a, b),
        0x8000_0000 < a <= 0xff80_0000 && b <= 0x7f80_0000 ==> !at_most(b, a),
        equal_numbers(0, 0x8000_0000),
        equal_numbers(a, b) && a != b ==> (a == 0 || a == 0x8000_0000) && (b == 0 || b
            == 0x8000_0000),
        0x7f80_0000 < a < 0x8000_0000 || 0xff80_0000 < a ==> !at_most(a, b) && !at_most(b, a)
            && !less(a, b) && !less(b, a) && !equal_numbers(a, b),
{
}

} // verus!
