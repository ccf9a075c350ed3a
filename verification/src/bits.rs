//! Ordering of single-precision numbers by their bit patterns.
//!
//! A sample, a level or a parameter is held as the 32 bits of an IEEE 754
//! binary32 number. Sign, magnitude and order can be read off those bits with
//! integer comparisons alone, which is what every decision of the signal chain
//! rests on.
use vstd::prelude::*;

verus! {

/// The lowest bit pattern with the sign bit set.
pub const SIGN: u32 = 0x8000_0000;

/// The bit pattern of positive infinity; larger magnitudes are not numbers.
pub const INFINITY: u32 = 0x7f80_0000;

/// Silence.
pub const ZERO: u32 = 0;

/// The number one half, the switching point of every on/off parameter.
pub const HALF: u32 = 0x3f00_0000;

/// The number one.
pub const ONE: u32 = 0x3f80_0000;

/// The number two.
pub const TWO: u32 = 0x4000_0000;

/// The bits without the sign.
pub open spec fn magnitude(b: u32) -> u32 {
    if b < SIGN {
        b
    } else {
        (b - SIGN) as u32
    }
}

/// Whether the pattern encodes no number at all.
pub open spec fn not_a_number(b: u32) -> bool {
    magnitude(b) > INFINITY
}

/// The place of a number in the numeric order; both zeros share one place.
pub open spec fn rank(b: u32) -> int {
    if b < SIGN {
        b as int
    } else {
        SIGN - b
    }
}

/// Numeric `a < b`: false as soon as one side is not a number.
pub open spec fn below(a: u32, b: u32) -> bool {
    !not_a_number(a) && !not_a_number(b) && rank(a) < rank(b)
}

/// Numeric `a >= b`: false as soon as one side is not a number.
pub open spec fn at_least(a: u32, b: u32) -> bool {
    !not_a_number(a) && !not_a_number(b) && rank(a) >= rank(b)
}

/// The number with the opposite sign.
pub open spec fn negated(b: u32) -> u32 {
    if b < SIGN {
        (b + SIGN) as u32
    } else {
        (b - SIGN) as u32
    }
}

/// `x` pulled into `lo ..= hi`; what is not a number stays as it is.
pub open spec fn clamped(x: u32, lo: u32, hi: u32) -> u32 {
    if below(x, lo) {
        lo
    } else if below(hi, x) {
        hi
    } else {
        x
    }
}

/// The larger of two numbers; a side that is not a number gives way.
pub open spec fn larger(a: u32, b: u32) -> u32 {
    if not_a_number(a) {
        b
    } else if not_a_number(b) || rank(b) <= rank(a) {
        a
    } else {
        b
    }
}

/// The smaller of two numbers; a side that is not a number gives way.
pub open spec fn lesser(a: u32, b: u32) -> u32 {
    if not_a_number(a) {
        b
    } else if not_a_number(b) || rank(a) <= rank(b) {
        a
    } else {
        b
    }
}

/// Whether an on/off parameter stands at "off": it is on only above one half, so
/// what is not a number is off too.
pub open spec fn is_off(enabled: u32) -> bool {
    !below(HALF, enabled)
}

/// The magnitude of a number.
pub fn abs(b: u32) -> (r: u32)
    ensures
        r == magnitude(b),
{
    if b < SIGN {
        b
    } else {
        b - SIGN
    }
}

/// Whether the pattern encodes no number.
pub fn is_nan(b: u32) -> (r: bool)
    ensures
        r == not_a_number(b),
{
    abs(b) > INFINITY
}

/// Numeric `a < b`.
pub fn lt(a: u32, b: u32) -> (r: bool)
    ensures
        r == below(a, b),
{
    if is_nan(a) || is_nan(b) {
        false
    } else if a < SIGN {
        b < SIGN && a < b
    } else if b < SIGN {
        a != SIGN || b != ZERO
    } else {
        b < a
    }
}

/// Numeric `a >= b`.
pub fn ge(a: u32, b: u32) -> (r: bool)
    ensures
        r == at_least(a, b),
{
    !is_nan(a) && !is_nan(b) && !lt(a, b)
}

/// The number with the opposite sign.
pub fn neg(b: u32) -> (r: u32)
    ensures
        r == negated(b),
{
    if b < SIGN {
        b + SIGN
    } else {
        b - SIGN
    }
}

/// `x` pulled into `lo ..= hi`.
pub fn clamp(x: u32, lo: u32, hi: u32) -> (r: u32)
    ensures
        r == clamped(x, lo, hi),
{
    if lt(x, lo) {
        lo
    } else if lt(hi, x) {
        hi
    } else {
        x
    }
}

/// The larger of two numbers.
pub fn max(a: u32, b: u32) -> (r: u32)
    ensures
        r == larger(a, b),
{
    if is_nan(a) {
        b
    } else if is_nan(b) {
        a
    } else if lt(a, b) {
        b
    } else {
        a
    }
}

/// The smaller of two numbers.
pub fn min(a: u32, b: u32) -> (r: u32)
    ensures
        r == lesser(a, b),
{
    if is_nan(a) {
        b
    } else if is_nan(b) {
        a
    } else if lt(b, a) {
        b
    } else {
        a
    }
}

/// Whether an on/off parameter stands at "off".
pub fn off(enabled: u32) -> (r: bool)
    ensures
        r == is_off(enabled),
{
    !lt(HALF, enabled)
}

/// Among patterns without a sign, the numeric order is the integer order.
pub proof fn unsigned_order_is_integer_order(a: u32, b: u32)
    requires
        a <= INFINITY,
        b <= INFINITY,
    ensures
        below(a, b) <==> a < b,
        larger(a, b) == (if a < b {
            b
        } else {
            a
        }),
{
}

/// The numeric order is irreflexive, transitive and, among numbers, total up
/// to the two zeros.
pub proof fn below_is_a_strict_order(a: u32, b: u32, c: u32)
    ensures
        !below(a, a),
        below(a, b) && below(b, c) ==> below(a, c),
        !not_a_number(a) && !not_a_number(b) ==> (below(a, b) || below(b, a) || rank(a) == rank(
            b,
        )),
        rank(a) == rank(b) ==> a == b || (magnitude(a) == 0 && magnitude(b) == 0),
{
}

/// Changing the sign twice changes nothing and mirrors the order.
pub proof fn negation_mirrors(a: u32, b: u32)
    ensures
        negated(negated(a)) == a,
        magnitude(negated(a)) == magnitude(a),
        below(a, b) <==> below(negated(b), negated(a)),
{
}

/// A clamped number lies within its bounds, and clamping again is idle.
pub proof fn clamped_is_bounded(x: u32, lo: u32, hi: u32)
    requires
        at_least(hi, lo),
        !not_a_number(x),
    ensures
        at_least(clamped(x, lo, hi), lo),
        at_least(hi, clamped(x, lo, hi)),
        clamped(clamped(x, lo, hi), lo, hi) == clamped(x, lo, hi),
{
}

} // verus!
