//! Arithmetic on samples, supplied from outside.
//!
//! The library routes samples, keeps their history and takes decisions on
//! them. What two samples add up to, or the sine of one, is the business of an
//! [`Arith`]: a set of operations on single-precision bit patterns, of which
//! nothing is taken for granted here. A contract says which operation was
//! applied to which operands, in the form "`r` is a result of that operation".
use crate::bits::{neg, negated, ONE, ZERO};
use vstd::prelude::*;

verus! {

/// The operations that samples are computed with.
pub trait Arith {
    /// `a + b`
    fn plus(a: u32, b: u32) -> u32;

    /// `a - b`
    fn minus(a: u32, b: u32) -> u32;

    /// `a * b`
    fn times(a: u32, b: u32) -> u32;

    /// `a / b`
    fn over(a: u32, b: u32) -> u32;

    /// `e` to the power of `a`
    fn exp(a: u32) -> u32;

    /// ten to the power of `a`
    fn exp10(a: u32) -> u32;

    /// decimal logarithm of `a`
    fn log10(a: u32) -> u32;

    /// square root of `a`
    fn sqrt(a: u32) -> u32;

    /// sine of `a`
    fn sin(a: u32) -> u32;

    /// cosine of `a`
    fn cos(a: u32) -> u32;

    /// hyperbolic tangent of `a`
    fn tanh(a: u32) -> u32;

    /// largest whole number up to `a`
    fn floor(a: u32) -> u32;

    /// whole number nearest to `a`
    fn round(a: u32) -> u32;

    /// the number `n`
    fn of_count(n: usize) -> u32;

    /// the whole part of `a`, pulled into the range of counts
    fn to_count(a: u32) -> usize;

    /// the number `i`
    fn of_int(i: i32) -> u32;

    /// the number `i`
    fn of_wide(i: i64) -> u32;

    /// the whole part of `a`, pulled into the range of integers
    fn to_int(a: u32) -> i32;

    /// the whole part of `a * i32::MAX`, the product taken in double precision
    fn to_full_scale(a: u32) -> i32;

    /// the double-precision number `a`, in single precision
    fn narrow(a: u64) -> u32;
}

/// `r` is a result of `a + b`.
pub open spec fn sum_is<F: Arith>(a: u32, b: u32, r: u32) -> bool {
    call_ensures(F::plus, (a, b), r)
}

/// `r` is a result of `a - b`.
pub open spec fn difference_is<F: Arith>(a: u32, b: u32, r: u32) -> bool {
    call_ensures(F::minus, (a, b), r)
}

/// `r` is a result of `a * b`.
pub open spec fn product_is<F: Arith>(a: u32, b: u32, r: u32) -> bool {
    call_ensures(F::times, (a, b), r)
}

/// `r` is a result of `a / b`.
pub open spec fn quotient_is<F: Arith>(a: u32, b: u32, r: u32) -> bool {
    call_ensures(F::over, (a, b), r)
}

/// `r` is a result of the exponential of `a`.
pub open spec fn exp_is<F: Arith>(a: u32, r: u32) -> bool {
    call_ensures(F::exp, (a,), r)
}

/// `r` is a result of ten to the power of `a`.
pub open spec fn exp10_is<F: Arith>(a: u32, r: u32) -> bool {
    call_ensures(F::exp10, (a,), r)
}

/// `r` is a result of the decimal logarithm of `a`.
pub open spec fn log10_is<F: Arith>(a: u32, r: u32) -> bool {
    call_ensures(F::log10, (a,), r)
}

/// `r` is a result of the square root of `a`.
pub open spec fn sqrt_is<F: Arith>(a: u32, r: u32) -> bool {
    call_ensures(F::sqrt, (a,), r)
}

/// `r` is a result of the sine of `a`.
pub open spec fn sin_is<F: Arith>(a: u32, r: u32) -> bool {
    call_ensures(F::sin, (a,), r)
}

/// `r` is a result of the cosine of `a`.
pub open spec fn cos_is<F: Arith>(a: u32, r: u32) -> bool {
    call_ensures(F::cos, (a,), r)
}

/// `r` is a result of the hyperbolic tangent of `a`.
pub open spec fn tanh_is<F: Arith>(a: u32, r: u32) -> bool {
    call_ensures(F::tanh, (a,), r)
}

/// `r` is a result of rounding `a` down.
pub open spec fn floor_is<F: Arith>(a: u32, r: u32) -> bool {
    call_ensures(F::floor, (a,), r)
}

/// `r` is a result of rounding `a` to the nearest whole number.
pub open spec fn round_is<F: Arith>(a: u32, r: u32) -> bool {
    call_ensures(F::round, (a,), r)
}

/// `r` is a result of turning the count `n` into a number.
pub open spec fn of_count_is<F: Arith>(n: usize, r: u32) -> bool {
    call_ensures(F::of_count, (n,), r)
}

/// `n` is a result of cutting `a` down to a count.
pub open spec fn to_count_is<F: Arith>(a: u32, n: usize) -> bool {
    call_ensures(F::to_count, (a,), n)
}

/// `r` is a result of turning the integer `i` into a number.
pub open spec fn of_int_is<F: Arith>(i: i32, r: u32) -> bool {
    call_ensures(F::of_int, (i,), r)
}

/// `r` is a result of taking `i` for a number.
pub open spec fn of_wide_is<F: Arith>(i: i64, r: u32) -> bool {
    call_ensures(F::of_wide, (i,), r)
}

/// `i` is a result of cutting `a` down to an integer.
pub open spec fn to_int_is<F: Arith>(a: u32, i: i32) -> bool {
    call_ensures(F::to_int, (a,), i)
}

/// `i` is a result of scaling `a` to the full range of integers.
pub open spec fn to_full_scale_is<F: Arith>(a: u32, i: i32) -> bool {
    call_ensures(F::to_full_scale, (a,), i)
}

/// `r` is a result of rounding the double-precision number `a` to single precision.
pub open spec fn narrow_is<F: Arith>(a: u64, r: u32) -> bool {
    call_ensures(F::narrow, (a,), r)
}

/// `r` is a result of `exp(-1 / (secs * sample_rate))`, the factor by which a
/// one-pole smoother of time constant `secs` keeps its state over one sample.
pub open spec fn pole_is<F: Arith>(sample_rate: u32, secs: u32, r: u32) -> bool {
    exists|span: u32, rate: u32|
        product_is::<F>(secs, sample_rate, span) && #[trigger] quotient_is::<F>(
            negated(ONE),
            span,
            rate,
        ) && exp_is::<F>(rate, r)
}

/// `r` is a result of `c * s + (1 - c) * t`.
pub open spec fn blend_is<F: Arith>(c: u32, s: u32, t: u32, r: u32) -> bool {
    exists|kept: u32, rest: u32, moved: u32|
        #![trigger product_is::<F>(c, s, kept), product_is::<F>(rest, t, moved)]
        product_is::<F>(c, s, kept) && difference_is::<F>(ONE, c, rest) && product_is::<F>(
            rest,
            t,
            moved,
        ) && sum_is::<F>(kept, moved, r)
}

/// `r` is a result of `target + (current - target) * c`.
pub open spec fn approach_is<F: Arith>(target: u32, current: u32, c: u32, r: u32) -> bool {
    exists|gap: u32, left: u32|
        #![trigger difference_is::<F>(current, target, gap), product_is::<F>(gap, c, left)]
        difference_is::<F>(current, target, gap) && product_is::<F>(gap, c, left) && sum_is::<F>(
            target,
            left,
            r,
        )
}

/// `sums` holds the partial sums of the products of `a` and `b`, place by place
/// and from the front, starting from zero.
pub open spec fn dot_sums<F: Arith>(a: Seq<u32>, b: Seq<u32>, sums: Seq<u32>) -> bool {
    &&& b.len() == a.len()
    &&& sums.len() == a.len() + 1
    &&& sums[0] == ZERO
    &&& forall|k: int|
        #![trigger sums[k]]
        0 <= k < a.len() ==> mac_is::<F>(sums[k], a[k], b[k], sums[k + 1])
}

/// `r` is a result of `acc + a * b`.
pub open spec fn mac_is<F: Arith>(acc: u32, a: u32, b: u32, r: u32) -> bool {
    exists|p: u32| #[trigger] product_is::<F>(a, b, p) && sum_is::<F>(acc, p, r)
}

/// `r` is a result of the dot product of `a` and `b`, added up from the front.
pub open spec fn dot_is<F: Arith>(a: Seq<u32>, b: Seq<u32>, r: u32) -> bool {
    exists|sums: Seq<u32>| #[trigger] dot_sums::<F>(a, b, sums) && sums[a.len() as int] == r
}

/// `acc + a * b`
pub fn mac<F: Arith>(acc: u32, a: u32, b: u32) -> (r: u32)
    ensures
        mac_is::<F>(acc, a, b, r),
{
    let p: u32 = F::times(a, b);
    let r: u32 = F::plus(acc, p);
    assert(product_is::<F>(a, b, p));
    r
}

/// The energy of a block: the sum of its squares.
pub fn energy<F: Arith>(block: &[u32]) -> (r: u32)
    ensures
        dot_is::<F>(block@, block@, r),
{
    let mut acc: u32 = ZERO;
    let mut i: usize = 0;
    let ghost mut sums: Seq<u32> = seq![ZERO];
    while i < block.len()
        invariant
            i <= block@.len(),
            sums.len() == i + 1,
            sums[0] == ZERO,
            sums[i as int] == acc,
            forall|k: int|
                #![trigger sums[k]]
                0 <= k < i ==> mac_is::<F>(sums[k], block@[k], block@[k], sums[k + 1]),
        decreases block@.len() - i,
    {
        acc = mac::<F>(acc, block[i], block[i]);
        proof {
            sums = sums.push(acc);
        }
        i = i + 1;
    }
    assert(dot_sums::<F>(block@, block@, sums));
    acc
}

/// A full turn, 2 pi.
pub const TAU: u32 = 0x40c9_0fdb;

/// Milliseconds in a second.
pub const MILLIS: u32 = 0x447a_0000;

/// Twenty: the decibels of a factor of ten.
pub const DECADE_DB: u32 = 0x41a0_0000;

/// `r` is a result of `10^(db / 20)`, the factor of a level in decibels.
pub open spec fn factor_is<F: Arith>(db: u32, r: u32) -> bool {
    exists|e: u32| #[trigger] quotient_is::<F>(db, DECADE_DB, e) && exp10_is::<F>(e, r)
}

/// `10^(db / 20)`
pub fn factor<F: Arith>(db: u32) -> (r: u32)
    ensures
        factor_is::<F>(db, r),
{
    let e: u32 = F::over(db, DECADE_DB);
    let r: u32 = F::exp10(e);
    assert(quotient_is::<F>(db, DECADE_DB, e));
    r
}

/// `exp(-1 / (secs * sample_rate))`
pub fn pole<F: Arith>(sample_rate: u32, secs: u32) -> (r: u32)
    ensures
        pole_is::<F>(sample_rate, secs, r),
{
    let span: u32 = F::times(secs, sample_rate);
    let rate: u32 = F::over(neg(ONE), span);
    let r: u32 = F::exp(rate);
    assert(quotient_is::<F>(negated(ONE), span, rate));
    r
}

/// `c * s + (1 - c) * t`
pub fn blend<F: Arith>(c: u32, s: u32, t: u32) -> (r: u32)
    ensures
        blend_is::<F>(c, s, t, r),
{
    let kept: u32 = F::times(c, s);
    let rest: u32 = F::minus(ONE, c);
    let moved: u32 = F::times(rest, t);
    let r: u32 = F::plus(kept, moved);
    assert(product_is::<F>(c, s, kept) && product_is::<F>(rest, t, moved));
    r
}

/// `target + (current - target) * c`
pub fn approach<F: Arith>(target: u32, current: u32, c: u32) -> (r: u32)
    ensures
        approach_is::<F>(target, current, c, r),
{
    let gap: u32 = F::minus(current, target);
    let left: u32 = F::times(gap, c);
    let r: u32 = F::plus(target, left);
    assert(difference_is::<F>(current, target, gap) && product_is::<F>(gap, c, left));
    r
}

} // verus!
