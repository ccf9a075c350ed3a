//! What single-precision numbers are worth, and what arithmetic owes them.
//!
//! Every finite number is a whole multiple of the smallest one, so that values can be
//! compared, added and multiplied as integers. Arithmetic on them is [`faithful`] if a
//! result never strays past a number that lies on the other side of the true value;
//! rounding to the nearest number does not. Laws on what comes out of an effect are
//! stated for such arithmetic.
use crate::arith::{
    approach_is, blend_is, difference_is, dot_is, dot_sums, exp10_is, exp_is, factor_is, floor_is,
    mac_is, of_count_is, of_int_is, of_wide_is, pole_is, product_is, quotient_is, sum_is,
    to_count_is, to_int_is, Arith, DECADE_DB, MILLIS,
};
use crate::bits::{
    magnitude, negated, not_a_number, rank, HALF, INFINITY, ONE, SIGN, TWO, ZERO,
};
use vstd::arithmetic::mul::{
    lemma_mul_inequality, lemma_mul_is_commutative, lemma_mul_strict_inequality,
};
use vstd::arithmetic::power2::{lemma_pow2_pos, lemma_pow2_unfold, pow2};
use vstd::prelude::*;

verus! {

/// Patterns from one power of two to the next.
pub const OCTAVE: u32 = 0x80_0000;

/// Whether the pattern encodes a number that is not infinite.
pub open spec fn finite(b: u32) -> bool {
    magnitude(b) < INFINITY
}

/// How often the smallest positive number goes into the number without a sign `m`.
pub open spec fn size(m: u32) -> int {
    let e = m / OCTAVE;
    let f = m % OCTAVE;
    if e == 0 {
        f as int
    } else {
        (OCTAVE + f) * pow2((e - 1) as nat)
    }
}

/// How often the smallest positive number goes into a number.
pub open spec fn units(b: u32) -> int {
    if b < SIGN {
        size(b)
    } else {
        -size((b - SIGN) as u32)
    }
}

/// The number one, in units.
pub open spec fn one() -> int {
    units(ONE)
}

/// The next pattern is worth more.
proof fn sizes_grow_by_one(m: u32)
    requires
        m < u32::MAX,
    ensures
        size(m) < size((m + 1) as u32),
        size(m) >= 0,
{
    let n = (m + 1) as u32;
    let e = m / OCTAVE;
    let f = m % OCTAVE;
    if e > 0 {
        lemma_pow2_pos((e - 1) as nat);
        lemma_mul_inequality(0, (OCTAVE + f) as int, pow2((e - 1) as nat) as int);
    }
    if f + 1 < OCTAVE {
        assert(n / OCTAVE == e && n % OCTAVE == f + 1);
        if e > 0 {
            lemma_mul_strict_inequality(
                (OCTAVE + f) as int,
                (OCTAVE + f + 1) as int,
                pow2((e - 1) as nat) as int,
            );
        }
    } else {
        assert(n / OCTAVE == e + 1 && n % OCTAVE == 0);
        if e == 0 {
            vstd::arithmetic::power2::lemma2_to64();
        } else {
            lemma_pow2_unfold(e as nat);
            let p = pow2((e - 1) as nat) as int;
            assert(size(n) == OCTAVE * (2 * p));
            assert(OCTAVE * (2 * p) == (OCTAVE + OCTAVE) * p) by (nonlinear_arith);
            lemma_mul_strict_inequality((OCTAVE + f) as int, (OCTAVE + OCTAVE) as int, p);
        }
    }
}

/// A larger pattern without a sign is worth more.
proof fn sizes_grow(m: u32, n: u32)
    requires
        m < n,
    ensures
        0 <= size(m) < size(n),
    decreases n - m,
{
    sizes_grow_by_one(m);
    if m + 1 < n {
        sizes_grow((m + 1) as u32, n);
    }
}

/// The numeric order is the order of what numbers are worth.
pub proof fn units_follow_the_order(a: u32, b: u32)
    ensures
        units(a) < units(b) <==> rank(a) < rank(b),
        units(a) == units(b) <==> rank(a) == rank(b),
        units(ZERO) == 0,
        units(SIGN) == 0,
{
    assert(size(0) == 0);
    let (m, n) = (magnitude(a), magnitude(b));
    if m < n {
        sizes_grow(m, n);
    } else if n < m {
        sizes_grow(n, m);
    }
    if 0 < m {
        sizes_grow(0, m);
    }
    if 0 < n {
        sizes_grow(0, n);
    }
}

/// Changing the sign changes the sign of the worth.
pub proof fn units_of_negated(a: u32)
    ensures
        units(negated(a)) == -units(a),
        finite(negated(a)) == finite(a),
        rank(negated(a)) == -rank(a),
{
}

/// One is positive, two is twice and one half is half as much.
pub proof fn units_of_one()
    ensures
        one() > 0,
        units(TWO) == 2 * one(),
        2 * units(HALF) == one(),
        units(ZERO) == 0,
{
    units_follow_the_order(ZERO, ONE);
    lemma_pow2_unfold(127);
    lemma_pow2_unfold(126);
    assert(units(ONE) == OCTAVE * pow2(126));
    assert(units(TWO) == OCTAVE * pow2(127));
    assert(units(HALF) == OCTAVE * pow2(125));
    let p = pow2(125) as int;
    assert(OCTAVE * (2 * p) == 2 * (OCTAVE * p)) by (nonlinear_arith);
    assert(OCTAVE * (2 * (2 * p)) == 2 * (OCTAVE * (2 * p))) by (nonlinear_arith);
}

/// `r` is a number next to the fraction `num / den`: none lies between the two.
pub open spec fn rounds(num: int, den: int, r: u32) -> bool {
    &&& !not_a_number(r)
    &&& forall|c: u32| #[trigger]
        finite(c) ==> (units(c) * den <= num ==> rank(c) <= rank(r)) && (num <= units(c) * den
            ==> rank(r) <= rank(c))
}

/// Sums are next to their true values.
pub open spec fn adds<F: Arith>() -> bool {
    forall|a: u32, b: u32, r: u32|
        finite(a) && finite(b) && #[trigger] sum_is::<F>(a, b, r) ==> rounds(
            units(a) + units(b),
            1,
            r,
        )
}

/// Differences are next to their true values.
pub open spec fn subtracts<F: Arith>() -> bool {
    forall|a: u32, b: u32, r: u32|
        finite(a) && finite(b) && #[trigger] difference_is::<F>(a, b, r) ==> rounds(
            units(a) - units(b),
            1,
            r,
        )
}

/// Products are next to their true values.
pub open spec fn multiplies<F: Arith>() -> bool {
    forall|a: u32, b: u32, r: u32|
        finite(a) && finite(b) && #[trigger] product_is::<F>(a, b, r) ==> rounds(
            units(a) * units(b),
            one(),
            r,
        )
}

/// Quotients by positive numbers are next to their true values.
pub open spec fn divides<F: Arith>() -> bool {
    forall|a: u32, b: u32, r: u32|
        finite(a) && finite(b) && units(b) > 0 && #[trigger] quotient_is::<F>(a, b, r) ==> rounds(
            units(a) * one(),
            units(b),
            r,
        )
}

/// The four operations give numbers next to the true values, as those of IEEE 754 do.
pub open spec fn faithful<F: Arith>() -> bool {
    adds::<F>() && subtracts::<F>() && multiplies::<F>() && divides::<F>()
}

/// Whether two patterns encode the same number.
pub open spec fn same(a: u32, b: u32) -> bool {
    !not_a_number(a) && !not_a_number(b) && rank(a) == rank(b)
}

/// A fraction that is a number rounds to it.
pub proof fn exact_results_are_hit(num: int, den: int, r: u32, c: u32)
    requires
        rounds(num, den, r),
        finite(c),
        units(c) * den == num,
    ensures
        same(r, c),
        finite(r),
        units(r) == units(c),
{
    assert(finite(c));
    units_follow_the_order(r, c);
}

/// What rounds from at least `c` is at least `c`.
pub proof fn rounds_above(num: int, den: int, r: u32, c: u32)
    requires
        rounds(num, den, r),
        finite(c),
        units(c) * den <= num,
    ensures
        rank(c) <= rank(r),
        units(c) <= units(r),
{
    assert(finite(c));
    units_follow_the_order(c, r);
}

/// What rounds from at most `c` is at most `c`.
pub proof fn rounds_below(num: int, den: int, r: u32, c: u32)
    requires
        rounds(num, den, r),
        finite(c),
        num <= units(c) * den,
    ensures
        rank(r) <= rank(c),
        units(r) <= units(c),
{
    assert(finite(c));
    units_follow_the_order(r, c);
}

/// What lies between two finite numbers is finite.
pub proof fn between_is_finite(lo: u32, x: u32, hi: u32)
    requires
        finite(lo),
        finite(hi),
        rank(lo) <= rank(x) <= rank(hi),
    ensures
        finite(x),
        units(lo) <= units(x) <= units(hi),
{
    units_follow_the_order(lo, x);
    units_follow_the_order(x, hi);
}

/// Adding zero, on either side, or taking it away changes nothing.
pub proof fn zero_adds_nothing<F: Arith>(a: u32, z: u32, r: u32)
    requires
        faithful::<F>(),
        finite(a),
        finite(z),
        units(z) == 0,
        sum_is::<F>(a, z, r) || sum_is::<F>(z, a, r) || difference_is::<F>(a, z, r),
    ensures
        same(r, a),
        finite(r),
        units(r) == units(a),
{
    exact_results_are_hit(units(a), 1, r, a);
}

/// A number less itself is zero.
pub proof fn difference_to_itself<F: Arith>(a: u32, b: u32, r: u32)
    requires
        faithful::<F>(),
        finite(a),
        finite(b),
        units(a) == units(b),
        difference_is::<F>(a, b, r),
    ensures
        finite(r),
        units(r) == 0,
{
    units_of_one();
    exact_results_are_hit(0, 1, r, ZERO);
}

/// A product with zero is zero.
pub proof fn product_with_zero<F: Arith>(a: u32, b: u32, r: u32)
    requires
        faithful::<F>(),
        finite(a),
        finite(b),
        units(a) == 0 || units(b) == 0,
        product_is::<F>(a, b, r),
    ensures
        finite(r),
        units(r) == 0,
        rank(r) == 0,
{
    units_of_one();
    assert(units(a) * units(b) == 0) by (nonlinear_arith)
        requires
            units(a) == 0 || units(b) == 0,
    ;
    exact_results_are_hit(0, one(), r, ZERO);
}

/// A product with one is the other factor.
pub proof fn product_with_one<F: Arith>(a: u32, b: u32, r: u32)
    requires
        faithful::<F>(),
        finite(a),
        finite(b),
        product_is::<F>(a, b, r),
    ensures
        units(b) == one() ==> same(r, a) && finite(r) && units(r) == units(a),
        units(a) == one() ==> same(r, b) && finite(r) && units(r) == units(b),
{
    if units(b) == one() {
        exact_results_are_hit(units(a) * units(b), one(), r, a);
    }
    if units(a) == one() {
        lemma_mul_is_commutative(units(a), units(b));
        exact_results_are_hit(units(a) * units(b), one(), r, b);
    }
}

/// A factor from zero to one takes a number towards zero, and not past it.
pub proof fn factor_up_to_one_shrinks<F: Arith>(a: u32, b: u32, r: u32)
    requires
        faithful::<F>(),
        finite(a),
        finite(b),
        0 <= units(b) <= one(),
        product_is::<F>(a, b, r) || product_is::<F>(b, a, r),
    ensures
        finite(r),
        units(a) >= 0 ==> 0 <= units(r) <= units(a),
        units(a) <= 0 ==> units(a) <= units(r) <= 0,
{
    units_of_one();
    let (x, y) = (units(a), units(b));
    lemma_mul_is_commutative(x, y);
    if x >= 0 {
        assert(0 <= x * y <= x * one()) by (nonlinear_arith)
            requires
                x >= 0,
                0 <= y <= one(),
        ;
        rounds_above(x * y, one(), r, ZERO);
        rounds_below(x * y, one(), r, a);
        between_is_finite(ZERO, r, a);
    }
    if x <= 0 {
        assert(x * one() <= x * y <= 0) by (nonlinear_arith)
            requires
                x <= 0,
                0 <= y <= one(),
        ;
        rounds_above(x * y, one(), r, a);
        rounds_below(x * y, one(), r, ZERO);
        between_is_finite(a, r, ZERO);
    }
}

/// A product with a positive number keeps the sign, and so does a quotient by one.
pub proof fn positive_factors_keep_the_sign<F: Arith>(a: u32, b: u32, r: u32)
    requires
        faithful::<F>(),
        finite(a),
        finite(b),
        units(b) > 0,
        product_is::<F>(a, b, r) || product_is::<F>(b, a, r) || quotient_is::<F>(a, b, r),
    ensures
        !not_a_number(r),
        rank(a) >= 0 ==> rank(r) >= 0,
        rank(a) <= 0 ==> rank(r) <= 0,
{
    units_of_one();
    units_follow_the_order(a, ZERO);
    let (x, y) = (units(a), units(b));
    lemma_mul_is_commutative(x, y);
    assert(x >= 0 ==> x * y >= 0 && x * one() >= 0) by (nonlinear_arith)
        requires
            y > 0,
            one() > 0,
    ;
    assert(x <= 0 ==> x * y <= 0 && x * one() <= 0) by (nonlinear_arith)
        requires
            y > 0,
            one() > 0,
    ;
    if quotient_is::<F>(a, b, r) {
        if x >= 0 {
            rounds_above(x * one(), y, r, ZERO);
        }
        if x <= 0 {
            rounds_below(x * one(), y, r, ZERO);
        }
    } else {
        if x >= 0 {
            rounds_above(x * y, one(), r, ZERO);
        }
        if x <= 0 {
            rounds_below(x * y, one(), r, ZERO);
        }
    }
}

/// The pattern of the whole number `n`, from one upwards.
pub open spec fn whole(n: nat) -> u32
    decreases 0x100_0000 - n,
{
    if n == 0 {
        ZERO
    } else if n >= 0x80_0000 {
        (150 * 0x80_0000 + (n - 0x80_0000)) as u32
    } else {
        (whole(2 * n) - 0x80_0000) as u32
    }
}

/// Whole numbers are numbers.
pub proof fn whole_numbers_are_numbers(n: nat)
    requires
        n < 0x100_0000,
    ensures
        finite(whole(n)),
        units(whole(n)) == n * one(),
{
    units_of_one();
    if n > 0 {
        one_is_a_power();
        vstd::arithmetic::power2::lemma2_to64();
        assert(n * pow2(23) >= 0x80_0000) by (nonlinear_arith)
            requires
                pow2(23) == 0x80_0000,
                n > 0,
        ;
        whole_is_worth(n, 23);
    }
}

/// One is the smallest positive number times `2^149`.
proof fn one_is_a_power()
    ensures
        one() == pow2(149),
{
    vstd::arithmetic::power2::lemma2_to64();
    vstd::arithmetic::power2::lemma_pow2_adds(23, 126);
    assert(units(ONE) == OCTAVE * pow2(126));
}

/// The pattern of a whole number that at most `k` doublings bring to 24 digits.
proof fn whole_is_worth(n: nat, k: nat)
    requires
        0 < n < 0x100_0000,
        n * pow2(k) >= 0x80_0000,
        k <= 23,
        one() == pow2(149),
    ensures
        units(whole(n)) == n * one(),
        (150 - k) * 0x80_0000 <= whole(n) < 151 * 0x80_0000,
    decreases k,
{
    vstd::arithmetic::power2::lemma2_to64();
    if n >= 0x80_0000 {
        let w = whole(n);
        let f = (n - 0x80_0000) as u32;
        assert(w == 150 * 0x80_0000 + f);
        assert(w / OCTAVE == 150 && w % OCTAVE == f);
        assert(units(w) == (OCTAVE + f) * pow2(149));
    } else {
        if k == 0 {
            assert(n * pow2(k) == n) by (nonlinear_arith)
                requires
                    pow2(k) == 1,
            ;
        }
        lemma_pow2_unfold(k);
        let p = pow2((k - 1) as nat);
        assert(n * (2 * p) == (2 * n) * p) by (nonlinear_arith);
        whole_is_worth(2 * n, (k - 1) as nat);
        let big = whole(2 * n);
        let w = whole(n);
        let e = (big / OCTAVE) as int;
        assert(big >= 127 * 0x80_0000);
        assert(w == big - 0x80_0000);
        assert(w / OCTAVE == e - 1 && w % OCTAVE == big % OCTAVE);
        lemma_pow2_unfold((e - 1) as nat);
        let f = (OCTAVE + big % OCTAVE) as int;
        let q = pow2((e - 2) as nat) as int;
        assert(units(big) == f * (2 * q));
        assert(f * (2 * q) == 2 * (f * q)) by (nonlinear_arith);
        assert((2 * n) * one() == 2 * (n * one())) by (nonlinear_arith);
    }
}

/// Counts become numbers next to them, rounding down leaves whole numbers as they are,
/// and cutting one down to a count gives it back.
pub open spec fn counts<F: Arith>() -> bool {
    &&& forall|n: usize, r: u32| #[trigger] of_count_is::<F>(n, r) ==> rounds(n * one(), 1, r)
    &&& forall|n: nat, a: u32, r: u32|
        finite(a) && units(a) == n * one() && #[trigger] floor_is::<F>(a, r) && #[trigger] is_count(
            n,
        ) ==> finite(r) && units(r) == units(a)
    &&& forall|n: nat, a: u32, m: usize|
        finite(a) && units(a) == n * one() && #[trigger] to_count_is::<F>(a, m)
            && #[trigger] is_count(n) ==> m == n
}

/// Whether `n` is a whole number that is a number.
pub open spec fn is_count(n: nat) -> bool {
    n < 0x100_0000
}

/// A count is hit exactly.
pub proof fn counts_are_exact<F: Arith>(n: usize, r: u32)
    requires
        counts::<F>(),
        n < 0x100_0000,
        of_count_is::<F>(n, r),
    ensures
        finite(r),
        units(r) == n * one(),
{
    whole_numbers_are_numbers(n as nat);
    exact_results_are_hit(n * one(), 1, r, whole(n as nat));
}

/// Whether what is left of one after taking `c` away is a number, as for every `c` from
/// one half to one.
pub open spec fn leaves_a_number(c: u32) -> bool {
    &&& finite(c) && 0 <= units(c) <= one()
    &&& exists|d: u32| #[trigger] finite(d) && units(d) == one() - units(c)
}

/// A blend of two numbers from zero to one is from zero to one; it has at least its
/// share of the second, and no more than the first where the second is zero.
pub proof fn blends_stay_between<F: Arith>(c: u32, s: u32, t: u32, r: u32)
    requires
        faithful::<F>(),
        leaves_a_number(c),
        finite(s) && 0 <= units(s) <= one(),
        finite(t) && 0 <= units(t) <= one(),
        blend_is::<F>(c, s, t, r),
    ensures
        finite(r),
        0 <= units(r) <= one(),
        units(t) == 0 ==> units(r) <= units(s),
        units(t) == one() ==> units(r) >= one() - units(c),
        units(c) == 0 ==> units(r) == units(t),
        units(c) == one() ==> units(r) == units(s),
{
    units_of_one();
    let (kept, rest, moved) = choose|kept: u32, rest: u32, moved: u32|
        #![trigger product_is::<F>(c, s, kept), product_is::<F>(rest, t, moved)]
        product_is::<F>(c, s, kept) && difference_is::<F>(ONE, c, rest) && product_is::<F>(
            rest,
            t,
            moved,
        ) && sum_is::<F>(kept, moved, r);
    let d = choose|d: u32| #[trigger] finite(d) && units(d) == one() - units(c);
    exact_results_are_hit(one() - units(c), 1, rest, d);
    factor_up_to_one_shrinks::<F>(c, s, kept);
    factor_up_to_one_shrinks::<F>(s, c, kept);
    factor_up_to_one_shrinks::<F>(rest, t, moved);
    let total = units(kept) + units(moved);
    rounds_above(total, 1, r, ZERO);
    rounds_below(total, 1, r, ONE);
    between_is_finite(ZERO, r, ONE);
    if units(t) == 0 {
        product_with_zero::<F>(rest, t, moved);
        assert(units(moved) == 0 && units(kept) <= units(s));
        rounds_below(total, 1, r, s);
    }
    if units(t) == one() {
        product_with_one::<F>(rest, t, moved);
        rounds_above(total, 1, r, rest);
    }
    if units(c) == 0 {
        product_with_one::<F>(rest, t, moved);
        exact_results_are_hit(total, 1, r, t);
    }
    if units(c) == one() {
        product_with_one::<F>(c, s, kept);
        exact_results_are_hit(total, 1, r, s);
    }
}

/// What stands at its target stays there.
pub proof fn target_is_kept<F: Arith>(target: u32, current: u32, c: u32, r: u32)
    requires
        faithful::<F>(),
        finite(target) && finite(current) && finite(c),
        units(current) == units(target),
        approach_is::<F>(target, current, c, r),
    ensures
        finite(r),
        units(r) == units(target),
{
    let (gap, left) = choose|gap: u32, left: u32|
        #![trigger difference_is::<F>(current, target, gap), product_is::<F>(gap, c, left)]
        difference_is::<F>(current, target, gap) && product_is::<F>(gap, c, left) && sum_is::<F>(
            target,
            left,
            r,
        );
    difference_to_itself::<F>(current, target, gap);
    product_with_zero::<F>(gap, c, left);
    zero_adds_nothing::<F>(target, left, r);
}

/// A normal number is the next smaller one and at most one part in `2^23` of itself.
proof fn neighbours_are_close(m: u32)
    requires
        OCTAVE <= m <= INFINITY,
    ensures
        size(m) * (OCTAVE - 1) <= size((m - 1) as u32) * OCTAVE,
        size(m) > 0,
{
    let n = (m - 1) as u32;
    let e = (m / OCTAVE) as int;
    let f = (m % OCTAVE) as int;
    lemma_pow2_pos((e - 1) as nat);
    let p = pow2((e - 1) as nat) as int;
    sizes_grow(0, m);
    if f > 0 {
        assert(n / OCTAVE == e && n % OCTAVE == f - 1);
        assert(size(m) == (OCTAVE + f) * p && size(n) == (OCTAVE + f - 1) * p);
        assert((OCTAVE + f) * p * (OCTAVE - 1) <= (OCTAVE + f - 1) * p * OCTAVE) by (nonlinear_arith)
            requires
                p > 0,
                f >= 0,
        ;
    } else if e == 1 {
        vstd::arithmetic::power2::lemma2_to64();
        assert(n / OCTAVE == 0 && n % OCTAVE == OCTAVE - 1);
    } else {
        assert(n / OCTAVE == e - 1 && n % OCTAVE == OCTAVE - 1);
        lemma_pow2_unfold((e - 1) as nat);
        let q = pow2((e - 2) as nat) as int;
        lemma_pow2_pos((e - 2) as nat);
        assert(size(m) == OCTAVE * (2 * q) && size(n) == (OCTAVE + (OCTAVE - 1)) * q);
        assert(OCTAVE * (2 * q) * (OCTAVE - 1) <= (OCTAVE + (OCTAVE - 1)) * q * OCTAVE)
            by (nonlinear_arith)
            requires
                q > 0,
        ;
    }
}

/// A factor that is not next to one lowers every normal number.
pub proof fn factor_below_one_lowers<F: Arith>(c: u32, e: u32, r: u32)
    requires
        faithful::<F>(),
        rank(c) <= rank(ONE) - 2,
        0 <= rank(c),
        OCTAVE <= e < INFINITY,
        product_is::<F>(c, e, r),
    ensures
        finite(r),
        0 <= rank(r) < rank(e),
{
    factor_lowers(c, e, r);
}

/// What is next to a product with such a factor is lower.
proof fn factor_lowers(c: u32, e: u32, r: u32)
    requires
        rounds(units(c) * units(e), one(), r),
        rank(c) <= rank(ONE) - 2,
        0 <= rank(c),
        OCTAVE <= e < INFINITY,
    ensures
        finite(r),
        0 <= rank(r) < rank(e),
{
    units_of_one();
    units_follow_the_order(c, ZERO);
    units_follow_the_order(ONE, (ONE - 2) as u32);
    units_follow_the_order(c, (ONE - 2) as u32);
    let pred = (e - 1) as u32;
    neighbours_are_close(e);
    lemma_pow2_unfold(126);
    lemma_pow2_pos(125);
    let q = pow2(125) as int;
    assert(((ONE - 2) as u32) / OCTAVE == 126 && ((ONE - 2) as u32) % OCTAVE == OCTAVE - 2);
    assert(units((ONE - 2) as u32) == (OCTAVE + (OCTAVE - 2)) * q);
    assert(one() == OCTAVE * (2 * q));
    assert(units(c) * OCTAVE <= one() * (OCTAVE - 1)) by (nonlinear_arith)
        requires
            units(c) <= (OCTAVE + (OCTAVE - 2)) * q,
            one() == OCTAVE * (2 * q),
            q > 0,
    ;
    let (x, y, z) = (units(c), units(e), units(pred));
    assert(x * y <= z * one()) by (nonlinear_arith)
        requires
            0 <= x,
            x * OCTAVE <= one() * (OCTAVE - 1),
            y > 0,
            y * (OCTAVE - 1) <= z * OCTAVE,
            one() > 0,
    ;
    assert(0 <= x * y) by (nonlinear_arith)
        requires
            0 <= x,
            0 < y,
    ;
    rounds_below(x * y, one(), r, pred);
    rounds_above(x * y, one(), r, ZERO);
    between_is_finite(ZERO, r, pred);
}

/// Twice the number 1.5 is three.
pub proof fn units_of_three_halves()
    ensures
        2 * units(0x3fc0_0000) == 3 * one(),
        finite(0x3fc0_0000),
{
    assert(units(ONE) == OCTAVE * pow2(126));
    assert(0x3fc0_0000u32 / OCTAVE == 127 && 0x3fc0_0000u32 % OCTAVE == 0x40_0000);
    assert(units(0x3fc0_0000) == (OCTAVE + 0x40_0000) * pow2(126));
}

/// `b` are all zero but at place `k`.
pub open spec fn only_at(b: Seq<u32>, k: int) -> bool {
    &&& 0 <= k < b.len()
    &&& forall|j: int| 0 <= j < b.len() && j != k ==> #[trigger] b[j] == ZERO
}

/// A dot product with a sequence that is zero but at one place is the product there.
pub proof fn dot_with_one_term<F: Arith>(a: Seq<u32>, b: Seq<u32>, k: int, r: u32)
    requires
        faithful::<F>(),
        dot_is::<F>(a, b, r),
        only_at(b, k),
        finite(b[k]) && -one() <= units(b[k]) <= one(),
        forall|j: int| 0 <= j < a.len() ==> finite(#[trigger] a[j]),
    ensures
        exists|p: u32| #[trigger] product_is::<F>(a[k], b[k], p) && same(r, p),
        finite(r),
{
    let sums = choose|sums: Seq<u32>| #[trigger]
        dot_sums::<F>(a, b, sums) && sums[a.len() as int] == r;
    let p = one_term_so_far::<F>(a, b, k, sums, a.len());
    units_follow_the_order(r, p);
}

/// The partial sums of such a dot product: nothing up to the place, the product from
/// there on.
proof fn one_term_so_far<F: Arith>(
    a: Seq<u32>,
    b: Seq<u32>,
    k: int,
    sums: Seq<u32>,
    n: nat,
) -> (p: u32)
    requires
        faithful::<F>(),
        dot_sums::<F>(a, b, sums),
        only_at(b, k),
        finite(b[k]) && -one() <= units(b[k]) <= one(),
        forall|j: int| 0 <= j < a.len() ==> finite(#[trigger] a[j]),
        n <= a.len(),
    ensures
        finite(sums[n as int]),
        n <= k ==> units(sums[n as int]) == 0,
        n > k ==> product_is::<F>(a[k], b[k], p) && units(sums[n as int]) == units(p) && finite(p),
    decreases n,
{
    units_of_one();
    if n == 0 {
        ZERO
    } else {
        let j = n - 1;
        let q = one_term_so_far::<F>(a, b, k, sums, j as nat);
        assert(mac_is::<F>(sums[j], a[j], b[j], sums[j + 1]));
        let term = choose|t: u32| #[trigger]
            product_is::<F>(a[j], b[j], t) && sum_is::<F>(sums[j], t, sums[j + 1]);
        if j == k {
            let (x, y) = (units(a[k]), units(b[k]));
            if y >= 0 {
                factor_up_to_one_shrinks::<F>(a[k], b[k], term);
            } else {
                small_products_are_finite::<F>(a[k], b[k], term);
            }
            zero_adds_nothing::<F>(term, sums[j], sums[j + 1]);
            term
        } else {
            product_with_zero::<F>(a[j], b[j], term);
            zero_adds_nothing::<F>(sums[j], term, sums[j + 1]);
            q
        }
    }
}

/// A factor of magnitude at most one gives a finite product, of magnitude at most that of
/// the other factor.
pub proof fn small_products_are_finite<F: Arith>(a: u32, b: u32, r: u32)
    requires
        faithful::<F>(),
        finite(a),
        finite(b),
        -one() <= units(b) <= one(),
        product_is::<F>(a, b, r) || product_is::<F>(b, a, r),
    ensures
        finite(r),
        units(a) >= 0 ==> -units(a) <= units(r) <= units(a),
        units(a) <= 0 ==> units(a) <= units(r) <= -units(a),
{
    units_of_one();
    units_of_negated(a);
    let (x, y) = (units(a), units(b));
    lemma_mul_is_commutative(x, y);
    let n = negated(a);
    if x >= 0 {
        assert(-x * one() <= x * y <= x * one()) by (nonlinear_arith)
            requires
                x >= 0,
                -one() <= y <= one(),
        ;
        rounds_above(x * y, one(), r, n);
        rounds_below(x * y, one(), r, a);
        between_is_finite(n, r, a);
    } else {
        assert(x * one() <= x * y <= -x * one()) by (nonlinear_arith)
            requires
                x <= 0,
                -one() <= y <= one(),
        ;
        rounds_above(x * y, one(), r, a);
        rounds_below(x * y, one(), r, n);
        between_is_finite(a, r, n);
    }
}

/// Zero wipes out what it is multiplied with, if that is a finite number, and what is not
/// a number stays so in a sum.
pub open spec fn zero_wipes<F: Arith>() -> bool {
    &&& forall|a: u32, b: u32, r: u32|
        (rank(a) == 0 || rank(b) == 0) && #[trigger] product_is::<F>(a, b, r) ==> rank(r) == 0
            || not_a_number(r)
    &&& forall|a: u32, b: u32, r: u32|
        (not_a_number(a) || not_a_number(b)) && #[trigger] sum_is::<F>(a, b, r) ==> not_a_number(r)
}

/// Four, in units.
pub proof fn units_of_four()
    ensures
        units(0x4080_0000) == 4 * one(),
        units(0x4100_0000) == 8 * one(),
        finite(0x4080_0000) && finite(0x4100_0000),
{
    units_of_one();
    lemma_pow2_unfold(128);
    lemma_pow2_unfold(129);
    assert(units(TWO) == OCTAVE * pow2(127));
    assert(units(0x4080_0000) == OCTAVE * pow2(128));
    assert(units(0x4100_0000) == OCTAVE * pow2(129));
}

/// A thousand.
pub proof fn units_of_thousand()
    ensures
        units(MILLIS) == 1000 * one(),
        finite(MILLIS),
{
    whole_numbers_are_numbers(1000);
    reveal_with_fuel(whole, 20);
    assert(whole(1000) == MILLIS);
}

/// A quotient by at least one is finite, and no further from zero than what is divided.
pub proof fn small_quotients_are_finite<F: Arith>(a: u32, b: u32, r: u32)
    requires
        faithful::<F>(),
        finite(a),
        finite(b),
        units(b) >= one(),
        quotient_is::<F>(a, b, r),
    ensures
        finite(r),
        units(a) >= 0 ==> 0 <= units(r) <= units(a),
        units(a) <= 0 ==> units(a) <= units(r) <= 0,
{
    units_of_one();
    let (x, y) = (units(a), units(b));
    if x >= 0 {
        assert(0 <= x * one() <= x * y) by (nonlinear_arith)
            requires
                x >= 0,
                y >= one(),
                one() > 0,
        ;
        rounds_above(x * one(), y, r, ZERO);
        rounds_below(x * one(), y, r, a);
        between_is_finite(ZERO, r, a);
    }
    if x <= 0 {
        assert(x * y <= x * one() <= 0) by (nonlinear_arith)
            requires
                x <= 0,
                y >= one(),
                one() > 0,
        ;
        rounds_above(x * one(), y, r, a);
        rounds_below(x * one(), y, r, ZERO);
        between_is_finite(a, r, ZERO);
    }
}

/// A blend that keeps nothing of the first number is the second, and one that keeps all of
/// it is the first.
pub proof fn blends_reach_their_ends<F: Arith>(c: u32, s: u32, t: u32, r: u32)
    requires
        faithful::<F>(),
        finite(c) && finite(s) && finite(t),
        blend_is::<F>(c, s, t, r),
    ensures
        units(c) == 0 ==> finite(r) && units(r) == units(t),
        units(c) == one() ==> finite(r) && units(r) == units(s),
{
    units_of_one();
    let (kept, rest, moved) = choose|kept: u32, rest: u32, moved: u32|
        #![trigger product_is::<F>(c, s, kept), product_is::<F>(rest, t, moved)]
        product_is::<F>(c, s, kept) && difference_is::<F>(ONE, c, rest) && product_is::<F>(
            rest,
            t,
            moved,
        ) && sum_is::<F>(kept, moved, r);
    if units(c) == 0 {
        product_with_zero::<F>(c, s, kept);
        zero_adds_nothing::<F>(ONE, c, rest);
        product_with_one::<F>(rest, t, moved);
        zero_adds_nothing::<F>(moved, kept, r);
    }
    if units(c) == one() {
        product_with_one::<F>(c, s, kept);
        difference_to_itself::<F>(ONE, c, rest);
        product_with_zero::<F>(rest, t, moved);
        zero_adds_nothing::<F>(kept, moved, r);
    }
}

/// A blend of two numbers that are not positive is not positive.
pub proof fn blends_stay_negative<F: Arith>(c: u32, s: u32, t: u32, r: u32)
    requires
        faithful::<F>(),
        leaves_a_number(c),
        finite(s) && units(s) <= 0,
        finite(t) && units(t) <= 0,
        blend_is::<F>(c, s, t, r),
    ensures
        !not_a_number(r),
        rank(r) <= 0,
        units(s) == 0 && units(t) == 0 ==> finite(r) && units(r) == 0,
{
    units_of_one();
    let (kept, rest, moved) = choose|kept: u32, rest: u32, moved: u32|
        #![trigger product_is::<F>(c, s, kept), product_is::<F>(rest, t, moved)]
        product_is::<F>(c, s, kept) && difference_is::<F>(ONE, c, rest) && product_is::<F>(
            rest,
            t,
            moved,
        ) && sum_is::<F>(kept, moved, r);
    let d = choose|d: u32| #[trigger] finite(d) && units(d) == one() - units(c);
    exact_results_are_hit(one() - units(c), 1, rest, d);
    factor_up_to_one_shrinks::<F>(s, c, kept);
    factor_up_to_one_shrinks::<F>(t, rest, moved);
    rounds_below(units(kept) + units(moved), 1, r, ZERO);
    if units(s) == 0 && units(t) == 0 {
        exact_results_are_hit(0, 1, r, ZERO);
    }
}

/// The decimal powers that effects rely on: none for nothing, and below one for what is
/// negative.
pub open spec fn raises_ten<F: Arith>() -> bool {
    forall|e: u32, r: u32|
        !not_a_number(e) && #[trigger] exp10_is::<F>(e, r) ==> {
            &&& !not_a_number(r) && rank(r) >= 0
            &&& rank(e) == 0 ==> same(r, ONE)
            &&& rank(e) <= 0 ==> rank(r) <= rank(ONE)
            &&& rank(e) >= 0 ==> rank(r) >= rank(ONE)
        }
}

/// Twenty and forty.
pub proof fn units_of_decades()
    ensures
        units(DECADE_DB) == 20 * one(),
        units(0x4220_0000) == 40 * one(),
        finite(DECADE_DB) && finite(0x4220_0000),
{
    whole_numbers_are_numbers(20);
    whole_numbers_are_numbers(40);
    reveal_with_fuel(whole, 24);
    assert(whole(20) == DECADE_DB);
    assert(whole(40) == 0x4220_0000);
}

/// A level in decibels is the power of ten of a twentieth of it: nothing is a factor of
/// one, what is negative takes away and what is positive adds.
pub proof fn levels_are_powers_of_ten<F: Arith>(db: u32, r: u32)
    requires
        faithful::<F>(),
        raises_ten::<F>(),
        finite(db),
        factor_is::<F>(db, r),
    ensures
        exists|e: u32| #[trigger] exp10_is::<F>(e, r) && rounds(units(db), 20, e),
        rank(r) >= 0 && !not_a_number(r),
        units(db) == 0 ==> same(r, ONE),
        units(db) <= 0 ==> rank(r) <= rank(ONE),
        units(db) >= 0 ==> rank(r) >= rank(ONE),
{
    units_of_one();
    units_of_decades();
    let e = choose|e: u32| #[trigger] quotient_is::<F>(db, DECADE_DB, e) && exp10_is::<F>(e, r);
    rounds_scales(units(db), 20, one(), e);
    positive_factors_keep_the_sign::<F>(db, DECADE_DB, e);
    units_follow_the_order(db, ZERO);
    small_quotients_are_finite::<F>(db, DECADE_DB, e);
    units_follow_the_order(e, ZERO);
}

/// A fraction may be reduced.
pub proof fn rounds_scales(num: int, den: int, k: int, r: u32)
    requires
        rounds(num * k, den * k, r),
        k > 0,
    ensures
        rounds(num, den, r),
{
    assert forall|c: u32| #[trigger] finite(c) implies (units(c) * den <= num ==> rank(c) <= rank(
        r,
    )) && (num <= units(c) * den ==> rank(r) <= rank(c)) by {
        let u = units(c);
        assert(u * den <= num ==> u * (den * k) <= num * k) by (nonlinear_arith)
            requires
                k > 0,
        ;
        assert(num <= u * den ==> num * k <= u * (den * k)) by (nonlinear_arith)
            requires
                k > 0,
        ;
    }
}

/// A factor that is not next to one lowers every normal number, on whichever side it
/// stands.
pub proof fn product_lowers<F: Arith>(c: u32, e: u32, r: u32)
    requires
        faithful::<F>(),
        rank(c) <= rank(ONE) - 2,
        0 <= rank(c),
        OCTAVE <= e < INFINITY,
        product_is::<F>(e, c, r) || product_is::<F>(c, e, r),
    ensures
        finite(r),
        0 <= rank(r) < rank(e),
{
    lemma_mul_is_commutative(units(c), units(e));
    factor_lowers(c, e, r);
}

/// A number is next to a fraction if the fraction lies between it and a neighbour.
proof fn neighbours_round(num: int, den: int, k: u32)
    requires
        den > 0,
        0 < k < INFINITY - 1,
        units(k) * den <= num < units((k + 1) as u32) * den || units((k - 1) as u32) * den < num
            <= units(k) * den,
    ensures
        rounds(num, den, k),
{
    assert forall|c: u32| #[trigger] finite(c) implies (units(c) * den <= num ==> rank(c) <= rank(
        k,
    )) && (num <= units(c) * den ==> rank(k) <= rank(c)) by {
        let (u, up, at, down) = (
            units(c),
            units((k + 1) as u32),
            units(k),
            units((k - 1) as u32),
        );
        units_follow_the_order(c, k);
        units_follow_the_order(c, (k + 1) as u32);
        units_follow_the_order(c, (k - 1) as u32);
        if rank(c) > rank(k) {
            assert(u >= up);
            units_follow_the_order(k, (k + 1) as u32);
            assert(u * den >= up * den && u * den > at * den) by (nonlinear_arith)
                requires
                    u >= up,
                    u > at,
                    den > 0,
            ;
        }
        if rank(c) < rank(k) {
            assert(u <= down);
            assert(u * den <= down * den && u * den < at * den) by (nonlinear_arith)
                requires
                    u <= down,
                    u < at,
                    den > 0,
            ;
        }
    }
}

/// A constant is next to a decimal fraction if its digits are: `f` is its fraction and `s`
/// two to the power of how many octaves it lies below two.
pub proof fn constants_round(k: u32, num: nat, den: nat, e: nat, f: nat, s: nat)
    requires
        den > 0,
        100 <= e <= 126,
        0 < f < OCTAVE - 1,
        k == e * 0x80_0000 + f,
        s == pow2((127 - e) as nat),
        (OCTAVE + f) * den <= num * OCTAVE * s < (OCTAVE + f + 1) * den || (OCTAVE + f - 1) * den
            < num * OCTAVE * s <= (OCTAVE + f) * den,
    ensures
        rounds(num * one(), den as int, k),
        finite(k) && units(k) > 0,
{
    let q = pow2((e - 1) as nat) as int;
    lemma_pow2_pos((e - 1) as nat);
    vstd::arithmetic::power2::lemma_pow2_adds((127 - e) as nat, (e - 1) as nat);
    assert((127 - e) as nat + (e - 1) as nat == 126);
    assert(one() == OCTAVE * pow2(126));
    let (up, down) = ((k + 1) as u32, (k - 1) as u32);
    assert(k / OCTAVE == e && k % OCTAVE == f);
    assert(up / OCTAVE == e && up % OCTAVE == f + 1);
    assert(down / OCTAVE == e && down % OCTAVE == f - 1);
    assert(units(k) == (OCTAVE + f) * q);
    assert(units(up) == (OCTAVE + f + 1) * q);
    assert(units(down) == (OCTAVE + f - 1) * q);
    let n = num * OCTAVE * s;
    assert(num * one() == n * q) by (nonlinear_arith)
        requires
            n == num * OCTAVE * s,
            one() == OCTAVE * (s * q),
    ;
    let (a, b, c) = ((OCTAVE + f) as int, (OCTAVE + f + 1) as int, (OCTAVE + f - 1) as int);
    assert(a * den <= n ==> (a * q) * den <= n * q) by (nonlinear_arith)
        requires
            q > 0,
    ;
    assert(n < b * den ==> n * q < (b * q) * den) by (nonlinear_arith)
        requires
            q > 0,
    ;
    assert(c * den < n ==> (c * q) * den < n * q) by (nonlinear_arith)
        requires
            q > 0,
    ;
    assert(n <= a * den ==> n * q <= (a * q) * den) by (nonlinear_arith)
        requires
            q > 0,
    ;
    neighbours_round(num * one(), den as int, k);
    units_follow_the_order(k, ZERO);
    units_of_one();
}

/// `r` is what is kept over one sample by what fades with the time constant `num / den`
/// seconds at the rate `sr`: `exp(-1 / (num / den * sr))`, next to it at every step.
pub open spec fn keeps_over<F: Arith>(sr: u32, num: nat, den: nat, r: u32) -> bool {
    exists|secs: u32, span: u32, rate: u32|
        #![trigger rounds(num * one(), den as int, secs), rounds(units(secs) * units(sr), one(), span), exp_is::<F>(rate, r)]
        {
            &&& rounds(num * one(), den as int, secs)
            &&& rounds(units(secs) * units(sr), one(), span)
            &&& units(span) >= one() && rounds(-(one() * one()), units(span), rate)
            &&& exp_is::<F>(rate, r)
        }
}

/// A one-pole smoother follows its time constant.
pub proof fn poles_follow_their_time<F: Arith>(sr: u32, secs: u32, num: nat, den: nat, r: u32)
    requires
        faithful::<F>(),
        pole_is::<F>(sr, secs, r),
        finite(secs) && units(secs) <= one(),
        0 < den <= 4096 * num,
        rounds(num * one(), den as int, secs),
        finite(sr) && 8000 * one() <= units(sr),
    ensures
        keeps_over::<F>(sr, num, den, r),
{
    units_of_one();
    let (span, rate) = choose|span: u32, rate: u32|
        product_is::<F>(secs, sr, span) && #[trigger] quotient_is::<F>(negated(ONE), span, rate)
            && exp_is::<F>(rate, r);
    let least = 0x3980_0000u32;
    assert(4096 * units(least) == one()) by {
        vstd::arithmetic::power2::lemma_pow2_adds(12, 114);
        vstd::arithmetic::power2::lemma2_to64();
        assert(units(least) == OCTAVE * pow2(114));
        assert(one() == OCTAVE * pow2(126));
    }
    let u = units(least);
    assert(u * den <= num * one()) by (nonlinear_arith)
        requires
            4096 * u == one(),
            den <= 4096 * num,
            one() > 0,
    ;
    rounds_above(num * one(), den as int, secs, least);
    let (x, y) = (units(secs), units(sr));
    assert(one() * one() <= x * y <= y * one()) by (nonlinear_arith)
        requires
            4096 * x >= one(),
            x <= one(),
            y >= 8000 * one(),
            one() > 0,
    ;
    rounds_above(x * y, one(), span, ONE);
    rounds_below(x * y, one(), span, sr);
    between_is_finite(ONE, span, sr);
    units_of_negated(ONE);
    assert(units(negated(ONE)) * one() == -(one() * one())) by (nonlinear_arith)
        requires
            units(negated(ONE)) == -one(),
    ;
    assert(rounds(num * one(), den as int, secs) && rounds(x * y, one(), span) && exp_is::<F>(
        rate,
        r,
    ));
}

/// The pattern of a whole number of either sign.
pub open spec fn integer(k: int) -> u32 {
    if k < 0 {
        negated(whole((-k) as nat))
    } else {
        whole(k as nat)
    }
}

/// Whole numbers of either sign are numbers.
pub proof fn integers_are_numbers(k: int)
    requires
        -0x100_0000 < k < 0x100_0000,
    ensures
        finite(integer(k)),
        units(integer(k)) == k * one(),
{
    if k < 0 {
        whole_numbers_are_numbers((-k) as nat);
        units_of_negated(whole((-k) as nat));
        assert(k * one() == -((-k) * one())) by (nonlinear_arith);
    } else {
        whole_numbers_are_numbers(k as nat);
    }
}

/// One octave down a number is half as much.
proof fn octaves_halve(w: u32)
    requires
        2 * OCTAVE <= w < SIGN,
    ensures
        2 * units((w - OCTAVE) as u32) == units(w),
{
    let v = (w - OCTAVE) as u32;
    let e = (w / OCTAVE) as int;
    let f = (w % OCTAVE) as int;
    assert(v / OCTAVE == e - 1 && v % OCTAVE == f);
    lemma_pow2_unfold((e - 1) as nat);
    let p = pow2((e - 2) as nat) as int;
    assert(units(w) == (OCTAVE + f) * (2 * p) && units(v) == (OCTAVE + f) * p);
    assert((OCTAVE + f) * (2 * p) == 2 * ((OCTAVE + f) * p)) by (nonlinear_arith);
}

/// `j` octaves down a number is its `2^j`-th part.
pub proof fn octaves_down(w: u32, j: nat)
    requires
        (j + 1) * OCTAVE <= w < INFINITY,
    ensures
        finite((w - j * OCTAVE) as u32),
        units((w - j * OCTAVE) as u32) * pow2(j) == units(w),
    decreases j,
{
    if j == 0 {
        vstd::arithmetic::power2::lemma2_to64();
    } else {
        octaves_down(w, (j - 1) as nat);
        let up = (w - (j - 1) * OCTAVE) as u32;
        octaves_halve(up);
        lemma_pow2_unfold(j);
        let (a, b, p) = (units(up), units((w - j * OCTAVE) as u32), pow2((j - 1) as nat) as int);
        assert((up - OCTAVE) as u32 == (w - j * OCTAVE) as u32);
        assert(b * (2 * p) == (2 * b) * p) by (nonlinear_arith);
    }
}

/// A whole number, other than zero, is at least one.
proof fn wholes_start_at_one(n: nat)
    requires
        0 < n < 0x100_0000,
    ensures
        ONE <= whole(n) < INFINITY,
{
    whole_numbers_are_numbers(n);
    units_of_one();
    assert(n * one() >= one()) by (nonlinear_arith)
        requires
            n >= 1,
            one() > 0,
    ;
    units_follow_the_order(whole(n), ONE);
}

/// The pattern of a whole number of either sign over `2^j`.
pub open spec fn dyadic(k: int, j: nat) -> u32 {
    if k == 0 {
        ZERO
    } else if k < 0 {
        negated((whole((-k) as nat) - j * 0x80_0000) as u32)
    } else {
        (whole(k as nat) - j * 0x80_0000) as u32
    }
}

/// Whole numbers over powers of two are numbers.
pub proof fn dyadics_are_numbers(k: int, j: nat)
    requires
        -0x100_0000 < k < 0x100_0000,
        j < 100,
    ensures
        finite(dyadic(k, j)),
        units(dyadic(k, j)) * pow2(j) == k * one(),
{
    units_of_one();
    if k != 0 {
        let n = if k < 0 {
            (-k) as nat
        } else {
            k as nat
        };
        whole_numbers_are_numbers(n);
        wholes_start_at_one(n);
        octaves_down(whole(n), j);
        let w = (whole(n) - j * OCTAVE) as u32;
        if k < 0 {
            units_of_negated(w);
            let (a, p) = (units(w), pow2(j) as int);
            assert(-a * p == -(a * p) && k * one() == -(n * one())) by (nonlinear_arith)
                requires
                    k == -n,
            ;
        }
    } else {
        assert(0 * pow2(j) == 0);
    }
}

/// Integers become numbers next to them, and cutting a number down to an integer drops what
/// is behind the point, towards zero.
pub open spec fn converts<F: Arith>() -> bool {
    &&& forall|i: i32, r: u32| #[trigger] of_int_is::<F>(i, r) ==> rounds(i * one(), 1, r)
    &&& forall|i: i64, r: u32| #[trigger] of_wide_is::<F>(i, r) ==> rounds(i * one(), 1, r)
    &&& forall|a: u32, n: i32|
        finite(a) && -0x100_0000 * one() < units(a) < 0x100_0000 * one() && #[trigger] to_int_is::<
            F,
        >(a, n) ==> (n - 1) * one() < units(a) < (n + 1) * one() && (units(a) >= 0 ==> 0 <= n * one()
            <= units(a)) && (units(a) <= 0 ==> units(a) <= n * one() <= 0)
}

/// The pattern of `2^k`.
pub open spec fn power(k: nat) -> u32 {
    ((127 + k) * 0x80_0000) as u32
}

/// Powers of two are numbers.
pub proof fn powers_of_two_are_numbers(k: nat)
    requires
        k < 128,
    ensures
        finite(power(k)),
        units(power(k)) == pow2(k) * one(),
{
    octaves_down(power(k), k);
    assert((power(k) - k * OCTAVE) as u32 == ONE);
    lemma_mul_is_commutative(pow2(k) as int, one());
}

/// Doubling a number of moderate size is exact.
pub proof fn doubles_are_exact<F: Arith>(b: u32, r: u32)
    requires
        faithful::<F>(),
        product_is::<F>(TWO, b, r),
        finite(b) && 0 <= units(b) <= 0x10_0000 * one(),
    ensures
        finite(r),
        units(r) == 2 * units(b),
{
    units_of_one();
    let o = one();
    assert((2 * units(b)) * o == units(TWO) * units(b)) by (nonlinear_arith)
        requires
            units(TWO) == 2 * o,
    ;
    rounds_scales(2 * units(b), 1, o, r);
    whole_numbers_are_numbers(0x20_0000);
    if b < OCTAVE {
        assert(units(b) == b);
        let c = (2 * b) as u32;
        vstd::arithmetic::power2::lemma2_to64();
        if c >= OCTAVE {
            let f = (c - OCTAVE) as int;
            assert(c / OCTAVE == 1 && c % OCTAVE == f);
            assert(units(c) == (OCTAVE + f) * pow2(0));
            assert((OCTAVE + f) * pow2(0) == OCTAVE + f) by (nonlinear_arith)
                requires
                    pow2(0) == 1,
            ;
        }
        exact_results_are_hit(2 * units(b), 1, r, c);
    } else if b < SIGN {
        let c = (b + OCTAVE) as u32;
        units_follow_the_order(b, whole(0x10_0000));
        whole_numbers_are_numbers(0x10_0000);
        wholes_start_at_one(0x10_0000);
        wholes_stay_small(0x10_0000);
        octaves_halve(c);
        exact_results_are_hit(2 * units(b), 1, r, c);
    } else {
        units_follow_the_order(b, ZERO);
        exact_results_are_hit(2 * units(b), 1, r, ZERO);
    }
}

/// A whole number that is a number is far from infinity.
proof fn wholes_stay_small(n: nat)
    requires
        0 < n < 0x100_0000,
    ensures
        whole(n) < 151 * OCTAVE,
    decreases 0x100_0000 - n,
{
    if n < 0x80_0000 {
        wholes_start_at_one(2 * n);
        wholes_stay_small(2 * n);
    }
}

} // verus!
