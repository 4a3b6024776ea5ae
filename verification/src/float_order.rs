//! Ordering of single-precision numbers by their bit patterns.
//!
//! Distances, similarities and scores enter the library as the 32 bits of an IEEE-754
//! number. Everything the library decides about them is a comparison, and a comparison
//! can be read off the bits: the sign bit, then the magnitude. This module gives the two
//! orders in use. The total order ranks every pattern, NaNs included, with a negative
//! zero below a positive one. The partial order is the one of the operators `<` and
//! `<=`: a NaN stands in no relation, and the two zeros are equal.
use vstd::prelude::*;

verus! {

/// The sign bit of a pattern.
pub const SIGN_BIT: u32 = 0x8000_0000;

/// Positive infinity.
pub const INFINITY: u32 = 0x7f80_0000;

/// Negative infinity.
pub const NEG_INFINITY: u32 = 0xff80_0000;

/// The quiet NaN that stands for a missing number.
pub const NAN: u32 = 0x7fc0_0000;

/// The number one.
pub const ONE: u32 = 0x3f80_0000;

/// The pattern without its sign bit.
pub open spec fn magnitude(bits: u32) -> int {
    if bits < SIGN_BIT {
        bits as int
    } else {
        bits - SIGN_BIT
    }
}

/// Whether the pattern is a NaN: all exponent bits set and some fraction bit.
pub open spec fn not_a_number(bits: u32) -> bool {
    magnitude(bits) > INFINITY
}

/// The place of a pattern in the total order.
pub open spec fn total_rank(bits: u32) -> int {
    if bits < SIGN_BIT {
        magnitude(bits)
    } else {
        -magnitude(bits) - 1
    }
}

/// The place of a number among the numbers; both zeros stand at nought.
pub open spec fn number_rank(bits: u32) -> int {
    if bits < SIGN_BIT {
        magnitude(bits)
    } else {
        -magnitude(bits)
    }
}

/// `a < b` between numbers.
pub open spec fn below(a: u32, b: u32) -> bool {
    !not_a_number(a) && !not_a_number(b) && number_rank(a) < number_rank(b)
}

/// `a <= b` between numbers.
pub open spec fn at_most(a: u32, b: u32) -> bool {
    !not_a_number(a) && !not_a_number(b) && number_rank(a) <= number_rank(b)
}

/// The larger of two numbers; a NaN gives way to the other side.
pub open spec fn larger(a: u32, b: u32) -> u32 {
    if not_a_number(a) || below(a, b) {
        b
    } else {
        a
    }
}

/// The smaller of two numbers; a NaN gives way to the other side.
pub open spec fn smaller(a: u32, b: u32) -> u32 {
    if not_a_number(a) || below(b, a) {
        b
    } else {
        a
    }
}

/// `x` brought into the closed range from `low` to `high`; a NaN stays.
pub open spec fn clamped(x: u32, low: u32, high: u32) -> u32 {
    if below(x, low) {
        low
    } else if below(high, x) {
        high
    } else {
        x
    }
}

/// The same magnitude with the other sign.
pub open spec fn negated(bits: u32) -> u32 {
    if bits < SIGN_BIT {
        (bits + SIGN_BIT) as u32
    } else {
        (bits - SIGN_BIT) as u32
    }
}

/// The rank of `bits` in the total order.
pub fn total_key(bits: u32) -> (key: i32)
    ensures
        key == total_rank(bits),
{
    if bits < SIGN_BIT {
        bits as i32
    } else {
        -((bits - SIGN_BIT) as i32) - 1
    }
}

/// Whether `bits` is a NaN.
pub fn is_nan(bits: u32) -> (r: bool)
    ensures
        r == not_a_number(bits),
{
    if bits < SIGN_BIT {
        bits > INFINITY
    } else {
        bits - SIGN_BIT > INFINITY
    }
}

fn number_key(bits: u32) -> (key: i32)
    ensures
        key == number_rank(bits),
{
    if bits < SIGN_BIT {
        bits as i32
    } else {
        -((bits - SIGN_BIT) as i32)
    }
}

/// `a < b`.
pub fn less(a: u32, b: u32) -> (r: bool)
    ensures
        r == below(a, b),
{
    !is_nan(a) && !is_nan(b) && number_key(a) < number_key(b)
}

/// `a <= b`.
pub fn less_or_equal(a: u32, b: u32) -> (r: bool)
    ensures
        r == at_most(a, b),
{
    !is_nan(a) && !is_nan(b) && number_key(a) <= number_key(b)
}

/// The same magnitude with the other sign.
pub fn negate(bits: u32) -> (r: u32)
    ensures
        r == negated(bits),
{
    if bits < SIGN_BIT {
        bits + SIGN_BIT
    } else {
        bits - SIGN_BIT
    }
}

/// The larger of two numbers.
pub fn max(a: u32, b: u32) -> (r: u32)
    ensures
        r == larger(a, b),
{
    if is_nan(a) || less(a, b) {
        b
    } else {
        a
    }
}

/// The smaller of two numbers.
pub fn min(a: u32, b: u32) -> (r: u32)
    ensures
        r == smaller(a, b),
{
    if is_nan(a) || less(b, a) {
        b
    } else {
        a
    }
}

/// `x` brought into the range from `low` to `high`.
pub fn clamp(x: u32, low: u32, high: u32) -> (r: u32)
    ensures
        r == clamped(x, low, high),
{
    if less(x, low) {
        low
    } else if less(high, x) {
        high
    } else {
        x
    }
}

/// The smaller and the larger of two numbers are one of them each, and no other is smaller or
/// larger; where one is a NaN both are the other.
pub proof fn extremes_hold(a: u32, b: u32)
    ensures
        !not_a_number(a) && !not_a_number(b) ==> {
            &&& smaller(a, b) == a || smaller(a, b) == b
            &&& at_most(smaller(a, b), a) && at_most(smaller(a, b), b)
            &&& larger(a, b) == a || larger(a, b) == b
            &&& at_most(a, larger(a, b)) && at_most(b, larger(a, b))
        },
        not_a_number(a) ==> smaller(a, b) == b && larger(a, b) == b,
        not_a_number(b) && !not_a_number(a) ==> smaller(a, b) == a && larger(a, b) == a,
{
}

/// A number brought into a range lies in it, and one that lies in it stays as it is.
pub proof fn clamped_lies_between(x: u32, low: u32, high: u32)
    requires
        !not_a_number(x),
        at_most(low, high),
    ensures
        at_most(low, clamped(x, low, high)),
        at_most(clamped(x, low, high), high),
        at_most(low, x) && at_most(x, high) ==> clamped(x, low, high) == x,
        below(x, low) ==> clamped(x, low, high) == low,
        below(high, x) ==> clamped(x, low, high) == high,
{
}

/// Negation turns the total order round.
pub proof fn negated_ranks(bits: u32)
    ensures
        total_rank(negated(bits)) == -total_rank(bits) - 1,
        negated(negated(bits)) == bits,
{
}

/// The total order refines the order of the operators.
pub proof fn below_is_lower_rank(a: u32, b: u32)
    ensures
        below(a, b) ==> total_rank(a) < total_rank(b),
        total_rank(a) == total_rank(b) ==> a == b,
{
}

} // verus!
