//! Order on doubles given as IEEE-754 bit patterns.
use vstd::prelude::*;

verus! {

/// The bit pattern of positive infinity.
pub const INFINITY: u64 = 0x7ff0_0000_0000_0000;

/// The bit pattern of negative infinity.
pub const NEG_INFINITY: u64 = 0xfff0_0000_0000_0000;

/// The weight of the sign bit.
pub const SIGN: u64 = 0x8000_0000_0000_0000;

/// Whether the pattern is not a number: a magnitude beyond infinity's.
pub open spec fn is_nan(bits: u64) -> bool {
    bits % SIGN > INFINITY
}

/// An integer that orders the patterns of numbers as the numbers are ordered.
/// Both zeros have the order zero.
pub open spec fn order(bits: u64) -> int {
    if bits >= SIGN {
        SIGN - bits
    } else {
        bits as int
    }
}

/// The smaller of two doubles; the other one where one is not a number.
pub open spec fn lesser(a: u64, b: u64) -> u64 {
    if is_nan(a) || (!is_nan(b) && order(b) < order(a)) {
        b
    } else {
        a
    }
}

/// The larger of two doubles; the other one where one is not a number.
pub open spec fn greater(a: u64, b: u64) -> u64 {
    if is_nan(a) || (!is_nan(b) && order(b) > order(a)) {
        b
    } else {
        a
    }
}

/// Whether `a` is a larger number than `b`.
pub open spec fn is_above(a: u64, b: u64) -> bool {
    !is_nan(a) && !is_nan(b) && order(a) > order(b)
}

fn not_a_number(bits: u64) -> (r: bool)
    ensures
        r == is_nan(bits),
{
    bits % SIGN > INFINITY
}

fn order_of(bits: u64) -> (r: i64)
    requires
        !is_nan(bits),
    ensures
        r == order(bits),
{
    if bits >= SIGN {
        -((bits - SIGN) as i64)
    } else {
        bits as i64
    }
}

pub fn lesser_of(a: u64, b: u64) -> (r: u64)
    ensures
        r == lesser(a, b),
{
    if not_a_number(a) {
        b
    } else if !not_a_number(b) && order_of(b) < order_of(a) {
        b
    } else {
        a
    }
}

pub fn greater_of(a: u64, b: u64) -> (r: u64)
    ensures
        r == greater(a, b),
{
    if not_a_number(a) {
        b
    } else if !not_a_number(b) && order_of(b) > order_of(a) {
        b
    } else {
        a
    }
}

pub fn value_above(a: u64, b: u64) -> (r: bool)
    ensures
        r == is_above(a, b),
{
    !not_a_number(a) && !not_a_number(b) && order_of(a) > order_of(b)
}

} // verus!
