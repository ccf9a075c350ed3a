//! Tuner.
//!
//! Listens and changes nothing. Samples gather in a window; every so often the
//! window is thinned out to about 12 kHz, which is plenty for the fundamental of
//! a guitar, and searched for its period: the mean difference between the window
//! and itself shifted by each lag, normalised by the mean over the shorter lags,
//! dips where the lag is a period. The first dip that is deep enough counts, or
//! else the deepest one; a parabola through its neighbours gives the fraction.
use crate::arith::{
    difference_is, dot_is, energy, mac, mac_is, of_count_is, product_is, quotient_is, round_is,
    sqrt_is, sum_is, to_count_is, Arith,
};
use crate::bits::{
    abs, below, clamp, clamped, is_off, larger, lt, magnitude, max, neg, negated, not_a_number, off,
    rank, HALF, ONE, TWO, ZERO,
};
use crate::block::joined;
use crate::line::{silence, Line};
use crate::number::{
    between_is_finite, constants_round, counts, counts_are_exact, difference_to_itself,
    doubles_are_exact, dyadic, dyadics_are_numbers, exact_results_are_hit,
    factor_up_to_one_shrinks, faithful, finite, is_count, one, product_with_zero, rounds,
    rounds_above, rounds_below, rounds_scales, same, small_quotients_are_finite, units,
    units_follow_the_order, units_of_negated, units_of_one, whole, whole_numbers_are_numbers,
    zero_adds_nothing, zero_wipes,
};
use crate::param::{read, read_is, PitchHandle, SharedParam};
use crate::processor::{
    alike_units_perform_alike, matches_step, performs, playing_keeps, plays, AudioProcessor,
    DEFAULT_RATE,
};
use core::marker::PhantomData;
use vstd::prelude::*;

verus! {

/// Samples in the window.
pub const WIN_LEN: usize = 2048;

/// Samples between two readings.
pub const HOP: usize = 512;

/// Places for lags, from zero up to half a window.
pub const CURVE_LEN: usize = 1025;

/// The rate that the window is thinned out to, 12 kHz.
pub const TARGET_RATE: u32 = 0x463b_8000;

/// The highest frequency looked for, 1400 Hz.
pub const MAX_HZ: u32 = 0x44af_0000;

/// A dip below 0.15 counts at once.
pub const YIN_THRESH: u32 = 0x3e19_999a;

/// The deepest dip counts up to 0.3.
pub const LOOSE_THRESH: u32 = 0x3e99_999a;

/// Below 0.001 nobody is playing.
pub const RMS_GATE: u32 = 0x3a83_126f;

/// Up to 1e-12 three points lie on a line.
pub const FLAT: u32 = 0x2b8c_bccc;

/// Every `d`-th sample of `window`, as far as whole steps go.
pub open spec fn thinned(window: Seq<u32>, d: int) -> Seq<u32> {
    Seq::new((window.len() as int / d) as nat, |i: int| window[i * d])
}

/// `r` is a result of `acc + (a - b)^2`.
pub open spec fn squared_gap_is<F: Arith>(acc: u32, a: u32, b: u32, r: u32) -> bool {
    exists|gap: u32| #[trigger] difference_is::<F>(a, b, gap) && mac_is::<F>(acc, gap, gap, r)
}

/// `sums` holds the partial sums of the squared differences between the first
/// `half` samples and those `lag` places later.
pub open spec fn gap_sums<F: Arith>(
    ds: Seq<u32>,
    half: int,
    lag: int,
    sums: Seq<u32>,
) -> bool {
    &&& sums.len() == half + 1
    &&& sums[0] == ZERO
    &&& forall|j: int|
        #![trigger sums[j]]
        0 <= j < half ==> squared_gap_is::<F>(sums[j], ds[j], ds[j + lag], sums[j + 1])
}

/// `r` is a result of the difference of `ds` from itself at `lag`.
pub open spec fn gap_is<F: Arith>(ds: Seq<u32>, half: int, lag: int, r: u32) -> bool {
    exists|sums: Seq<u32>| #[trigger] gap_sums::<F>(ds, half, lag, sums) && sums[half] == r
}

/// `r` is a result of `gap * lag / total` where there is a total, and one
/// otherwise.
pub open spec fn normalised_is<F: Arith>(gap: u32, lag: usize, total: u32, r: u32) -> bool {
    if below(ZERO, total) {
        exists|n: u32, weighted: u32| #[trigger]
            of_count_is::<F>(lag, n) && #[trigger] product_is::<F>(gap, n, weighted)
                && quotient_is::<F>(weighted, total, r)
    } else {
        r == ONE
    }
}

/// The place of `lag` in the curve follows from the total up to the lag before:
/// `total` is a result of adding its difference, `value` of normalising it.
pub open spec fn place_is<F: Arith>(
    ds: Seq<u32>,
    half: int,
    lag: usize,
    total_before: u32,
    total: u32,
    value: u32,
) -> bool {
    exists|gap: u32| #[trigger]
        gap_is::<F>(ds, half, lag as int, gap) && sum_is::<F>(total_before, gap, total)
            && normalised_is::<F>(gap, lag, total, value)
}

/// `totals` are running totals along the first `upto` places of the curve.
pub open spec fn curve_totals<F: Arith>(
    ds: Seq<u32>,
    half: int,
    curve: Seq<u32>,
    upto: int,
    totals: Seq<u32>,
) -> bool {
    &&& totals.len() == upto
    &&& totals[0] == ZERO
    &&& curve[0] == ONE
    &&& forall|t: int|
        #![trigger totals[t]]
        1 <= t < upto ==> place_is::<F>(
            ds,
            half,
            t as usize,
            totals[t - 1],
            totals[t],
            curve[t],
        )
}

/// `curve` is a result of the normalised differences of `ds` at the lags below
/// `half`, and zero from there on.
pub open spec fn curve_is<F: Arith>(ds: Seq<u32>, half: int, curve: Seq<u32>) -> bool {
    &&& exists|totals: Seq<u32>| #[trigger] curve_totals::<F>(ds, half, curve, half, totals)
    &&& curve.len() == CURVE_LEN
    &&& zero_from(curve, half)
}

/// `curve` is zero from place `half` on.
pub open spec fn zero_from(curve: Seq<u32>, half: int) -> bool {
    forall|t: int| half <= t < curve.len() ==> curve[t] == ZERO
}

/// `k` is the first place in `lo .. hi` below the threshold.
pub open spec fn first_hit(curve: Seq<u32>, lo: int, hi: int, k: int) -> bool {
    &&& lo <= k < hi
    &&& below(curve[k], YIN_THRESH)
    &&& forall|j: int| lo <= j < k ==> !below(#[trigger] curve[j], YIN_THRESH)
}

/// Walking downhill from `k`, one goes as far as `t`.
pub open spec fn descends_to(curve: Seq<u32>, hi: int, k: int, t: int) -> bool {
    &&& k <= t < hi
    &&& forall|j: int| k < j <= t ==> below(#[trigger] curve[j], curve[j - 1])
    &&& t + 1 < hi ==> !below(curve[t + 1], curve[t])
}

/// `m` is the lowest place in `lo .. hi`, the first of several; `lo` if the range
/// is empty or starts with what is not a number.
pub open spec fn lowest(curve: Seq<u32>, lo: int, hi: int, m: int) -> bool {
    &&& m == lo || lo < m < hi
    &&& forall|j: int| lo <= j < hi ==> !below(#[trigger] curve[j], curve[m])
    &&& forall|j: int|
        lo <= j < m ==> below(curve[m], #[trigger] curve[j]) || not_a_number(curve[j])
    &&& not_a_number(curve[lo]) ==> m == lo
}

/// `t` is the lag picked in `lo .. hi`: the bottom of the first dip below the
/// threshold; without one the lowest place, unless that is above the loose
/// threshold.
pub open spec fn picked(curve: Seq<u32>, lo: int, hi: int, t: Option<usize>) -> bool {
    if exists|k: int| #[trigger] first_hit(curve, lo, hi, k) {
        exists|k: int| #[trigger]
            first_hit(curve, lo, hi, k) && t is Some && descends_to(curve, hi, k, t->0 as int)
    } else {
        exists|m: usize| #[trigger]
            lowest(curve, lo, hi, m as int) && t == if below(LOOSE_THRESH, curve[m as int]) {
                None
            } else {
                Some(m)
            }
    }
}

/// `r` is a result of the bottom of the parabola through three neighbours: the
/// distance from the middle, `0.5 * (a - c) / (a + c - 2 * b)`, pulled into -1 to
/// 1; zero where they are on a line.
pub open spec fn bottom_is<F: Arith>(a: u32, b: u32, c: u32, r: u32) -> bool {
    exists|outer: u32, twice: u32, bend: u32|
        #![trigger sum_is::<F>(a, c, outer), product_is::<F>(TWO, b, twice), difference_is::<F>(outer, twice, bend)]
        sum_is::<F>(a, c, outer) && product_is::<F>(TWO, b, twice) && difference_is::<F>(
            outer,
            twice,
            bend,
        ) && if below(FLAT, magnitude(bend)) {
            slope_is::<F>(a, c, bend, r)
        } else {
            r == ZERO
        }
}

/// `r` is a result of `0.5 * (a - c) / bend`, pulled into -1 to 1.
pub open spec fn slope_is<F: Arith>(a: u32, c: u32, bend: u32, r: u32) -> bool {
    exists|gap: u32, halved: u32, raw: u32|
        #![trigger difference_is::<F>(a, c, gap), product_is::<F>(HALF, gap, halved), quotient_is::<F>(halved, bend, raw)]
        difference_is::<F>(a, c, gap) && product_is::<F>(HALF, gap, halved) && quotient_is::<F>(
            halved,
            bend,
            raw,
        ) && r == clamped(raw, negated(ONE), ONE)
}

/// `r` is a result of the period at lag `t`, refined where `t` has a neighbour on
/// both sides below `hi`.
pub open spec fn period_is<F: Arith>(curve: Seq<u32>, hi: int, t: usize, r: u32) -> bool {
    if 0 < t && t + 1 < hi {
        exists|n: u32, shift: u32| #[trigger]
            of_count_is::<F>(t, n) && #[trigger] bottom_is::<F>(
                curve[t - 1],
                curve[t as int],
                curve[t + 1],
                shift,
            ) && sum_is::<F>(n, shift, r)
    } else {
        of_count_is::<F>(t, r)
    }
}

/// `hz` is a result of reading the frequency off the curve: that of the period at the
/// lag that is picked from `lo .. hi`, zero without one.
pub open spec fn read_off_is<F: Arith>(
    curve: Seq<u32>,
    rate: u32,
    lo: int,
    hi: int,
    hz: u32,
) -> bool {
    exists|t: Option<usize>| #[trigger]
        picked(curve, lo, hi, t) && match t {
            None => hz == ZERO,
            Some(t) => exists|period: u32| #[trigger]
                period_is::<F>(curve, hi, t, period) && if below(ZERO, period) {
                    frequency_is::<F>(rate, period, hz)
                } else {
                    hz == ZERO
                },
        }
}

/// `hz` is a result of the frequency of a period: `rate / period`, or zero where that
/// is above the highest frequency looked for.
pub open spec fn frequency_is<F: Arith>(rate: u32, period: u32, hz: u32) -> bool {
    exists|raw: u32| #[trigger]
        quotient_is::<F>(rate, period, raw) && hz == if below(MAX_HZ, raw) {
            ZERO
        } else {
            raw
        }
}

/// `lo` is a result of the shortest lag looked at: `rate / 1400`, cut down to a
/// count, and at least two.
pub open spec fn shortest_is<F: Arith>(rate: u32, lo: usize) -> bool {
    exists|q: u32, n: usize| #[trigger]
        quotient_is::<F>(rate, MAX_HZ, q) && #[trigger] to_count_is::<F>(q, n) && lo == if n < 2 {
            2
        } else {
            n
        }
}

/// `hz` is a result of the pitch of `window`, thinned out by `d` from the rate
/// `sr`. A lag beyond the curve is no pitch.
pub open spec fn pitch_is<F: Arith>(window: Seq<u32>, sr: u32, d: usize, hz: u32) -> bool {
    let half = window.len() as int / d as int / 2;
    if half < 4 {
        hz == ZERO
    } else {
        exists|n: u32, rate: u32, lo: usize| #[trigger]
            of_count_is::<F>(d, n) && #[trigger] quotient_is::<F>(sr, n, rate)
                && #[trigger] shortest_is::<F>(rate, lo) && if lo >= CURVE_LEN {
                hz == ZERO
            } else {
                exists|curve: Seq<u32>| #[trigger]
                    curve_is::<F>(thinned(window, d as int), half, curve) && read_off_is::<F>(
                        curve,
                        rate,
                        lo as int,
                        half,
                        hz,
                    )
            }
    }
}

/// `r` is a result of the root of the mean square of `window`.
pub open spec fn rms_is<F: Arith>(window: Seq<u32>, r: u32) -> bool {
    exists|e: u32, n: u32, mean: u32|
        #![trigger dot_is::<F>(window, window, e), of_count_is::<F>(window.len() as usize, n), quotient_is::<F>(e, n, mean)]
        dot_is::<F>(window, window, e) && of_count_is::<F>(window.len() as usize, n)
            && quotient_is::<F>(e, n, mean) && sqrt_is::<F>(mean, r)
}

/// `hz` is a result of a reading of `window`: its pitch, or zero where it is too
/// quiet.
pub open spec fn detected_is<F: Arith>(window: Seq<u32>, sr: u32, d: usize, hz: u32) -> bool {
    exists|rms: u32| #[trigger]
        rms_is::<F>(window, rms) && if below(rms, RMS_GATE) {
            hz == ZERO
        } else {
            pitch_is::<F>(window, sr, d, hz)
        }
}

/// The root of the mean square.
pub fn rms<F: Arith>(window: &Vec<u32>) -> (r: u32)
    ensures
        rms_is::<F>(window@, r),
{
    let e: u32 = energy::<F>(window.as_slice());
    let n: u32 = F::of_count(window.len());
    let mean: u32 = F::over(e, n);
    let r: u32 = F::sqrt(mean);
    assert(dot_is::<F>(window@, window@, e) && of_count_is::<F>(window@.len() as usize, n)
        && quotient_is::<F>(e, n, mean));
    r
}

/// Thins `window` out into the front of `ds`.
pub fn thin(window: &Vec<u32>, d: usize, ds: &mut Vec<u32>)
    requires
        d > 0,
        old(ds)@.len() >= window@.len(),
    ensures
        final(ds)@.len() == old(ds)@.len(),
        final(ds)@.take(window@.len() as int / d as int) == thinned(window@, d as int),
{
    let n: usize = window.len();
    let count: usize = n / d;
    proof {
        vstd::arithmetic::div_mod::lemma_div_is_ordered_by_denominator(
            window@.len() as int,
            1,
            d as int,
        );
    }
    let mut i: usize = 0;
    while i < count
        invariant
            i <= count,
            d > 0,
            n == window@.len(),
            count == n as int / d as int,
            count <= n <= ds@.len(),
            ds@.len() == old(ds)@.len(),
            forall|k: int| 0 <= k < i ==> ds@[k] == window@[k * d],
        decreases count - i,
    {
        assert(i * d < n) by (nonlinear_arith)
            requires
                i < count,
                count == n as int / d as int,
                d > 0,
        ;
        ds[i] = window[i * d];
        i = i + 1;
    }
    assert(ds@.take(count as int) =~= thinned(window@, d as int));
}

/// The difference of the front of `ds` from itself at `lag`.
pub fn gap_at<F: Arith>(ds: &Vec<u32>, half: usize, lag: usize) -> (r: u32)
    requires
        half + lag <= ds@.len(),
    ensures
        gap_is::<F>(ds@, half as int, lag as int, r),
{
    let len: usize = ds.len();
    let mut sum: u32 = ZERO;
    let mut j: usize = 0;
    let ghost mut sums: Seq<u32> = seq![ZERO];
    while j < half
        invariant
            j <= half,
            half + lag <= len,
            len == ds@.len(),
            sums.len() == j + 1,
            sums[0] == ZERO,
            sums[j as int] == sum,
            forall|k: int|
                #![trigger sums[k]]
                0 <= k < j ==> squared_gap_is::<F>(sums[k], ds@[k], ds@[k + lag], sums[k + 1]),
        decreases half - j,
    {
        let gap: u32 = F::minus(ds[j], ds[j + lag]);
        let ghost before = sum;
        sum = mac::<F>(sum, gap, gap);
        proof {
            assert(difference_is::<F>(ds@[j as int], ds@[j + lag], gap));
            assert(squared_gap_is::<F>(before, ds@[j as int], ds@[j + lag], sum));
            sums = sums.push(sum);
        }
        j = j + 1;
    }
    assert(gap_sums::<F>(ds@, half as int, lag as int, sums));
    sum
}

/// Normalises the difference at a lag.
pub fn normalised<F: Arith>(gap: u32, lag: usize, total: u32) -> (r: u32)
    ensures
        normalised_is::<F>(gap, lag, total, r),
{
    if lt(ZERO, total) {
        let n: u32 = F::of_count(lag);
        let weighted: u32 = F::times(gap, n);
        assert(of_count_is::<F>(lag, n) && product_is::<F>(gap, n, weighted));
        F::over(weighted, total)
    } else {
        ONE
    }
}

/// The sequence that a gap is read from may go on behind the samples that count.
proof fn gap_of_front<F: Arith>(ds: Seq<u32>, n: int, half: int, lag: int, r: u32)
    requires
        0 <= half,
        0 <= lag,
        half + lag <= n <= ds.len(),
        gap_is::<F>(ds, half, lag, r),
    ensures
        gap_is::<F>(ds.take(n), half, lag, r),
{
    let sums = choose|sums: Seq<u32>| #[trigger]
        gap_sums::<F>(ds, half, lag, sums) && sums[half] == r;
    let front = ds.take(n);
    assert forall|j: int|
        #![trigger sums[j]]
        0 <= j < half implies squared_gap_is::<F>(sums[j], front[j], front[j + lag], sums[j + 1]) by {
        assert(squared_gap_is::<F>(sums[j], ds[j], ds[j + lag], sums[j + 1]));
    }
    assert(gap_sums::<F>(front, half, lag, sums));
}

/// Works out the curve of the first `n` samples of `ds`.
pub fn draw<F: Arith>(ds: &Vec<u32>, n: usize, half: usize, curve: &mut Vec<u32>)
    requires
        0 < half < CURVE_LEN,
        half + half <= n <= ds@.len(),
        old(curve)@.len() == CURVE_LEN,
        zero_from(old(curve)@, half as int),
    ensures
        curve_is::<F>(ds@.take(n as int), half as int, final(curve)@),
{
    let ghost front = ds@.take(n as int);
    curve[0] = ONE;
    let mut total: u32 = ZERO;
    let ghost mut totals: Seq<u32> = seq![ZERO];
    let mut tau: usize = 1;
    while tau < half
        invariant
            1 <= tau <= half < CURVE_LEN,
            half + half <= n <= ds@.len(),
            front == ds@.take(n as int),
            curve@.len() == CURVE_LEN,
            zero_from(curve@, half as int),
            totals.len() == tau,
            totals[tau - 1] == total,
            curve_totals::<F>(front, half as int, curve@, tau as int, totals),
        decreases half - tau,
    {
        let gap: u32 = gap_at::<F>(ds, half, tau);
        proof {
            gap_of_front::<F>(ds@, n as int, half as int, tau as int, gap);
        }
        let ghost before = total;
        total = F::plus(total, gap);
        let value: u32 = normalised::<F>(gap, tau, total);
        let ghost drawn = curve@;
        curve[tau] = value;
        proof {
            let was = totals;
            totals = totals.push(total);
            assert(place_is::<F>(front, half as int, tau, before, total, value));
            assert forall|t: int|
                #![trigger totals[t]]
                1 <= t < tau + 1 implies place_is::<F>(
                front,
                half as int,
                t as usize,
                totals[t - 1],
                totals[t],
                curve@[t],
            ) by {
                if t < tau {
                    assert(place_is::<F>(
                        front,
                        half as int,
                        t as usize,
                        was[t - 1],
                        was[t],
                        drawn[t],
                    ));
                }
            }
        }
        tau = tau + 1;
    }
    assert(curve_totals::<F>(front, half as int, curve@, half as int, totals));
}

/// Picks a lag from the curve.
pub fn pick(curve: &Vec<u32>, lo: usize, hi: usize) -> (t: Option<usize>)
    requires
        lo < curve@.len(),
        hi <= curve@.len(),
    ensures
        picked(curve@, lo as int, hi as int, t),
{
    assert(lo < curve.len());
    let mut tau: usize = lo;
    while tau < hi
        invariant
            lo <= tau,
            tau <= hi || tau == lo,
            hi <= curve@.len(),
            forall|j: int| lo <= j < tau ==> !below(#[trigger] curve@[j], YIN_THRESH),
        decreases hi - tau,
    {
        if lt(curve[tau], YIN_THRESH) {
            let ghost k = tau as int;
            while tau + 1 < hi && lt(curve[tau + 1], curve[tau])
                invariant
                    k <= tau < hi,
                    hi <= curve@.len(),
                    forall|j: int| k < j <= tau ==> below(#[trigger] curve@[j], curve@[j - 1]),
                decreases hi - tau,
            {
                tau = tau + 1;
            }
            assert(first_hit(curve@, lo as int, hi as int, k));
            return Some(tau);
        }
        tau = tau + 1;
    }
    assert(forall|k: int| !#[trigger] first_hit(curve@, lo as int, hi as int, k));
    let mut m: usize = lo;
    let mut t: usize = lo + 1;
    while t < hi
        invariant
            lo < t,
            t <= hi || t == lo + 1,
            hi <= curve@.len(),
            lo < curve@.len(),
            m == lo || lo < m < hi,
            m < t,
            forall|j: int| lo <= j < t && j < hi ==> !below(#[trigger] curve@[j], curve@[m as int]),
            forall|j: int|
                lo <= j < m ==> below(curve@[m as int], #[trigger] curve@[j]) || not_a_number(
                    curve@[j],
                ),
            not_a_number(curve@[lo as int]) ==> m == lo,
        decreases hi - t,
    {
        if lt(curve[t], curve[m]) {
            m = t;
        }
        t = t + 1;
    }
    assert(lowest(curve@, lo as int, hi as int, m as int));
    if lt(LOOSE_THRESH, curve[m]) {
        None
    } else {
        Some(m)
    }
}

/// The bottom of the parabola through three neighbours.
pub fn bottom<F: Arith>(a: u32, b: u32, c: u32) -> (r: u32)
    ensures
        bottom_is::<F>(a, b, c, r),
{
    let outer: u32 = F::plus(a, c);
    let twice: u32 = F::times(TWO, b);
    let bend: u32 = F::minus(outer, twice);
    assert(sum_is::<F>(a, c, outer) && product_is::<F>(TWO, b, twice) && difference_is::<F>(
        outer,
        twice,
        bend,
    ));
    if lt(FLAT, abs(bend)) {
        let gap: u32 = F::minus(a, c);
        let halved: u32 = F::times(HALF, gap);
        let raw: u32 = F::over(halved, bend);
        assert(difference_is::<F>(a, c, gap) && product_is::<F>(HALF, gap, halved)
            && quotient_is::<F>(halved, bend, raw));
        clamp(raw, neg(ONE), ONE)
    } else {
        ZERO
    }
}

/// The period at a lag.
pub fn period_at<F: Arith>(curve: &Vec<u32>, hi: usize, t: usize) -> (r: u32)
    requires
        hi <= curve@.len(),
    ensures
        period_is::<F>(curve@, hi as int, t, r),
{
    let n: u32 = F::of_count(t);
    if 0 < t && t < hi && t + 1 < hi {
        let shift: u32 = bottom::<F>(curve[t - 1], curve[t], curve[t + 1]);
        let r: u32 = F::plus(n, shift);
        assert(of_count_is::<F>(t, n) && bottom_is::<F>(
            curve@[t - 1],
            curve@[t as int],
            curve@[t + 1],
            shift,
        ));
        r
    } else {
        n
    }
}

/// Reads the frequency off the curve.
pub fn read_off<F: Arith>(curve: &Vec<u32>, rate: u32, lo: usize, hi: usize) -> (hz: u32)
    requires
        lo < curve@.len(),
        hi <= curve@.len(),
    ensures
        read_off_is::<F>(curve@, rate, lo as int, hi as int, hz),
{
    let t = pick(curve, lo, hi);
    match t {
        None => ZERO,
        Some(lag) => {
            let period: u32 = period_at::<F>(curve, hi, lag);
            assert(period_is::<F>(curve@, hi as int, lag, period));
            if lt(ZERO, period) {
                let raw: u32 = F::over(rate, period);
                assert(quotient_is::<F>(rate, period, raw));
                if lt(MAX_HZ, raw) {
                    ZERO
                } else {
                    raw
                }
            } else {
                ZERO
            }
        },
    }
}

/// The tuner.
pub struct Tuner<F> {
    /// On above one half.
    pub enabled: SharedParam,
    /// Where readings are published.
    pub handle: PitchHandle,
    /// The sample rate.
    pub sr: u32,
    /// By how much the window is thinned out.
    pub decim: usize,
    /// The window.
    pub win: Line,
    /// How many samples were heard, up to the length of the window.
    pub filled: usize,
    /// Samples heard since the last reading.
    pub hop_counter: usize,
    /// The reading published last, zero before the first.
    pub shown: u32,
    /// The window in order of time.
    pub scratch: Vec<u32>,
    /// The window thinned out.
    pub ds: Vec<u32>,
    /// The curve of normalised differences.
    pub dp: Vec<u32>,
    /// The arithmetic.
    pub arith: PhantomData<F>,
}

impl<F: Arith> Tuner<F> {
    /// A tuner without a window yet, that follows `enabled` and publishes its
    /// readings in `handle`.
    pub fn new(enabled: SharedParam, handle: PitchHandle) -> (r: Self)
        ensures
            r.enabled == enabled,
            r.handle == handle,
            r.sr == DEFAULT_RATE,
            r.decim == 4,
            r.win@.len() == 0,
            r.filled == 0,
            r.hop_counter == 0,
            r.shown == ZERO,
            r.wf(),
    {
        Tuner {
            enabled,
            handle,
            sr: DEFAULT_RATE,
            decim: 4,
            win: Line::new(0),
            filled: 0,
            hop_counter: 0,
            shown: ZERO,
            scratch: Vec::new(),
            ds: Vec::new(),
            dp: Vec::new(),
            arith: PhantomData,
        }
    }

    /// How many lags the window has room for.
    pub open spec fn half(&self) -> int {
        WIN_LEN as int / self.decim as int / 2
    }

    /// Whether there is a window.
    pub open spec fn ready(&self) -> bool {
        &&& self.win.wf()
        &&& self.win@.len() == WIN_LEN
        &&& self.decim > 0
        &&& self.scratch@.len() == WIN_LEN
        &&& self.ds@.len() == WIN_LEN
        &&& self.dp@.len() == CURVE_LEN
        &&& zero_from(self.dp@, self.half())
        &&& self.filled <= WIN_LEN
        &&& if self.filled < WIN_LEN {
            self.hop_counter == self.filled
        } else {
            self.hop_counter < HOP
        }
    }

    /// `after` differs from `self` at most in what a reading is worked out in.
    pub open spec fn same_but_workspace(&self, after: Self) -> bool {
        after == Tuner { scratch: after.scratch, ds: after.ds, dp: after.dp, ..*self }
    }

    /// Reads the pitch of the window.
    pub fn detect(&mut self) -> (hz: u32)
        requires
            old(self).ready(),
        ensures
            final(self).ready(),
            old(self).same_but_workspace(*final(self)),
            detected_is::<F>(old(self).win@, old(self).sr, old(self).decim, hz),
            hz == ZERO || !below(MAX_HZ, hz),
    {
        let n: usize = self.win.len();
        let mut i: usize = 0;
        while i < n
            invariant
                i <= n,
                n == WIN_LEN,
                old(self).ready(),
                old(self).same_but_workspace(*self),
                self.ready(),
                forall|k: int| 0 <= k < i ==> self.scratch@[k] == self.win@[k],
            decreases n - i,
        {
            let x: u32 = self.win.get(i);
            self.scratch[i] = x;
            i = i + 1;
        }
        assert(self.scratch@ =~= self.win@);
        let level: u32 = rms::<F>(&self.scratch);
        assert(rms_is::<F>(old(self).win@, level));
        if lt(level, RMS_GATE) {
            return ZERO;
        }
        let d: usize = self.decim;
        let dn: usize = n / d;
        thin(&self.scratch, d, &mut self.ds);
        let half: usize = dn / 2;
        if half < 4 {
            return ZERO;
        }
        let count: u32 = F::of_count(d);
        let rate: u32 = F::over(self.sr, count);
        let q: u32 = F::over(rate, MAX_HZ);
        let at: usize = F::to_count(q);
        let lo: usize = if at < 2 {
            2
        } else {
            at
        };
        assert(quotient_is::<F>(rate, MAX_HZ, q) && to_count_is::<F>(q, at));
        assert(of_count_is::<F>(d, count) && quotient_is::<F>(self.sr, count, rate)
            && shortest_is::<F>(rate, lo));
        if lo >= CURVE_LEN {
            return ZERO;
        }
        proof {
            vstd::arithmetic::div_mod::lemma_div_is_ordered_by_denominator(n as int, 1, d as int);
        }
        draw::<F>(&self.ds, dn, half, &mut self.dp);
        let hz: u32 = read_off::<F>(&self.dp, rate, lo, half);
        assert(curve_is::<F>(thinned(old(self).win@, d as int), half as int, self.dp@));
        proof {
            readings_stay_in_range::<F>(old(self).win@, self.sr, d, hz);
        }
        hz
    }

    /// `self` hears the sample `x` and becomes `after`; `reading` is the reading
    /// that was due, if one was.
    pub open spec fn hears(&self, x: u32, after: Self, reading: Option<u32>) -> bool {
        let due = self.hop_counter + 1 >= HOP && self.filled + 1 >= WIN_LEN;
        &&& after == Tuner {
            win: after.win,
            filled: after.filled,
            hop_counter: after.hop_counter,
            shown: after.shown,
            scratch: after.scratch,
            ds: after.ds,
            dp: after.dp,
            ..*self
        }
        &&& after.win@ == self.win@.drop_first().push(x)
        &&& after.filled == if self.filled < WIN_LEN {
            self.filled + 1
        } else {
            self.filled as int
        }
        &&& match reading {
            Some(hz) => due && after.hop_counter == 0 && after.shown == hz && detected_is::<F>(
                after.win@,
                self.sr,
                self.decim,
                hz,
            ) && self.handle.was_set(hz),
            None => !due && after.hop_counter == self.hop_counter + 1 && after.shown == self.shown,
        }
    }

    /// Hears one sample. A reading that is due is published and returned.
    pub fn hear(&mut self, x: u32) -> (reading: Option<u32>)
        requires
            old(self).ready(),
        ensures
            final(self).ready(),
            old(self).hears(x, *final(self), reading),
    {
        let n: usize = self.win.len();
        self.win.feed(x);
        if self.filled < n {
            self.filled = self.filled + 1;
        }
        if self.hop_counter + 1 >= HOP && self.filled >= n {
            self.hop_counter = 0;
            let hz: u32 = self.detect();
            self.shown = hz;
            self.handle.set(hz);
            Some(hz)
        } else {
            self.hop_counter = self.hop_counter + 1;
            None
        }
    }

    /// Hears a block.
    pub fn listen(&mut self, block: &[u32])
        requires
            old(self).ready(),
        ensures
            final(self).ready(),
            listened(*old(self), block@, *final(self)),
    {
        let mut i: usize = 0;
        let ghost mut trace: Seq<Self> = seq![*self];
        let ghost mut readings: Seq<Option<u32>> = seq![];
        while i < block.len()
            invariant
                i <= block@.len(),
                self.ready(),
                trace.len() == i + 1,
                readings.len() == i,
                trace[0] == *old(self),
                trace[i as int] == *self,
                forall|k: int|
                    #![trigger trace[k]]
                    0 <= k < i ==> trace[k].hears(block@[k], trace[k + 1], readings[k]),
            decreases block@.len() - i,
        {
            let reading = self.hear(block[i]);
            proof {
                trace = trace.push(*self);
                readings = readings.push(reading);
            }
            i = i + 1;
        }
        assert(hearing(block@, trace, readings));
    }

    /// A block at a given value of the switch: the signal stays as it is, and is
    /// listened to if the tuner is on.
    pub open spec fn processed_with(
        &self,
        enabled: u32,
        input: Seq<u32>,
        after: Self,
        output: Seq<u32>,
    ) -> bool {
        &&& output == input
        &&& if is_off(enabled) || input.len() == 0 {
            after == *self
        } else {
            listened(*self, input, after)
        }
    }

    /// One block at a given value of the switch.
    pub fn process_with(&mut self, enabled: u32, buf: &mut [u32])
        requires
            old(self).wf(),
            old(self).accepts(old(buf)@.len()),
        ensures
            final(self).wf(),
            old(self).ready() ==> final(self).ready(),
            final(buf)@.len() == old(buf)@.len(),
            old(self).processed_with(enabled, old(buf)@, *final(self), final(buf)@),
    {
        if off(enabled) || buf.len() == 0 {
            return;
        }
        self.listen(buf);
    }
}

/// `trace` are the states of a tuner while it hears `input`, the one before each
/// sample and the last, and `readings` what each sample led to.
pub open spec fn hearing<F: Arith>(
    input: Seq<u32>,
    trace: Seq<Tuner<F>>,
    readings: Seq<Option<u32>>,
) -> bool {
    &&& trace.len() == input.len() + 1
    &&& readings.len() == input.len()
    &&& forall|k: int|
        #![trigger trace[k]]
        0 <= k < input.len() ==> trace[k].hears(input[k], trace[k + 1], readings[k])
}

/// `before` hears `input` and becomes `after`.
pub open spec fn listened<F: Arith>(before: Tuner<F>, input: Seq<u32>, after: Tuner<F>) -> bool {
    exists|trace: Seq<Tuner<F>>, readings: Seq<Option<u32>>| #[trigger]
        hearing(input, trace, readings) && trace[0] == before && trace[input.len() as int] == after
}

impl<F: Arith> AudioProcessor for Tuner<F> {
    open spec fn wf(&self) -> bool {
        self.win@.len() == 0 || self.ready()
    }

    open spec fn accepts(&self, n: nat) -> bool {
        n == 0 || self.ready()
    }

    open spec fn resettable(&self) -> bool {
        true
    }

    /// A silent window, thinned out by the whole number nearest to
    /// `sample_rate / 12000`, at least one.
    open spec fn prepared(&self, sample_rate: u32, max_block: usize, after: Self) -> bool {
        &&& after == Tuner {
            sr: sample_rate,
            decim: after.decim,
            win: after.win,
            filled: 0,
            hop_counter: 0,
            scratch: after.scratch,
            ds: after.ds,
            dp: after.dp,
            ..*self
        }
        &&& thinning_is::<F>(sample_rate, after.decim)
        &&& after.win@ == silence(WIN_LEN as nat)
        &&& after.ready()
    }

    /// As at some value that the switch had.
    open spec fn processed(&self, input: Seq<u32>, after: Self, output: Seq<u32>) -> bool {
        exists|enabled: u32| #[trigger]
            self.processed_with(enabled, input, after, output) && read_is(self.enabled, enabled)
    }

    open spec fn cleared(&self, after: Self) -> bool {
        &&& after == Tuner { win: after.win, filled: 0, hop_counter: 0, shown: ZERO, ..*self }
        &&& after.win@ == silence(self.win@.len())
        &&& self.handle.was_set(ZERO)
    }

    fn prepare(&mut self, sample_rate: u32, _max_block: usize) {
        self.sr = sample_rate;
        let q: u32 = F::over(sample_rate, TARGET_RATE);
        let whole: u32 = F::round(q);
        let n: usize = F::to_count(max(whole, ONE));
        assert(quotient_is::<F>(sample_rate, TARGET_RATE, q) && round_is::<F>(q, whole)
            && to_count_is::<F>(larger(whole, ONE), n));
        self.decim = if n < 1 {
            1
        } else {
            n
        };
        self.win = Line::new(WIN_LEN);
        self.scratch = vec![ZERO; WIN_LEN];
        self.ds = vec![ZERO; WIN_LEN];
        self.dp = vec![ZERO; CURVE_LEN];
        self.filled = 0;
        self.hop_counter = 0;
    }

    fn process(&mut self, buf: &mut [u32]) {
        let enabled: u32 = read(&self.enabled);
        self.process_with(enabled, buf);
    }

    fn reset(&mut self) {
        self.win.clear();
        self.filled = 0;
        self.hop_counter = 0;
        self.shown = ZERO;
        self.handle.set(ZERO);
    }
}

/// `d` is a result of the thinning for a sample rate: the whole number nearest to
/// `sample_rate / 12000`, at least one.
pub open spec fn thinning_is<F: Arith>(sample_rate: u32, d: usize) -> bool {
    exists|q: u32, whole: u32, n: usize|
        #![trigger quotient_is::<F>(sample_rate, TARGET_RATE, q), round_is::<F>(q, whole), to_count_is::<F>(larger(whole, ONE), n)]
        quotient_is::<F>(sample_rate, TARGET_RATE, q) && round_is::<F>(q, whole) && to_count_is::<
            F,
        >(larger(whole, ONE), n) && d == if n < 1 {
            1
        } else {
            n
        }
}

/// A tuner never changes the signal, on or off.
pub proof fn tuner_is_transparent<F: Arith>(
    tuner: Tuner<F>,
    input: Seq<u32>,
    after: Tuner<F>,
    output: Seq<u32>,
)
    requires
        tuner.processed(input, after, output),
    ensures
        output == input,
{
}

/// A tuner that is switched off keeps its state.
pub proof fn disabled_tuner_rests<F: Arith>(
    tuner: Tuner<F>,
    enabled: u32,
    input: Seq<u32>,
    after: Tuner<F>,
    output: Seq<u32>,
)
    requires
        tuner.processed_with(enabled, input, after, output),
        is_off(enabled),
    ensures
        after == tuner,
{
}

/// No reading is above the highest frequency looked for.
pub proof fn readings_stay_in_range<F: Arith>(window: Seq<u32>, sr: u32, d: usize, hz: u32)
    requires
        detected_is::<F>(window, sr, d, hz),
    ensures
        hz == ZERO || !below(MAX_HZ, hz),
{
}

/// How many readings `n` samples lead to, counted from a fresh start: the first once
/// the window is full, and one more with every hop.
pub open spec fn readings_due(n: nat) -> nat {
    if n < WIN_LEN {
        0
    } else {
        ((n - WIN_LEN) / HOP as int + 1) as nat
    }
}

/// How many of `readings` are there.
pub open spec fn given(readings: Seq<Option<u32>>) -> nat
    decreases readings.len(),
{
    if readings.len() == 0 {
        0
    } else {
        given(readings.drop_last()) + if readings.last() is Some {
            1nat
        } else {
            0
        }
    }
}

/// A tuner that starts afresh gives exactly the readings that are due.
pub proof fn readings_are_counted<F: Arith>(
    input: Seq<u32>,
    trace: Seq<Tuner<F>>,
    readings: Seq<Option<u32>>,
)
    requires
        hearing(input, trace, readings),
        trace[0].filled == 0,
        trace[0].hop_counter == 0,
    ensures
        given(readings) == readings_due(input.len()),
{
    counted_so_far(input, trace, readings, input.len());
    assert(readings.take(input.len() as int) =~= readings);
}

/// The readings of the first `n` samples, and where the counters stand after them.
#[verifier::spinoff_prover]
#[verifier::rlimit(40)]
proof fn counted_so_far<F: Arith>(
    input: Seq<u32>,
    trace: Seq<Tuner<F>>,
    readings: Seq<Option<u32>>,
    n: nat,
)
    requires
        hearing(input, trace, readings),
        trace[0].filled == 0,
        trace[0].hop_counter == 0,
        n <= input.len(),
    ensures
        given(readings.take(n as int)) == readings_due(n),
        trace[n as int].filled == if n < WIN_LEN {
            n
        } else {
            WIN_LEN as nat
        },
        trace[n as int].hop_counter == if n < WIN_LEN {
            n as int
        } else {
            (n - WIN_LEN) % HOP as int
        },
    decreases n,
{
    if n > 0 {
        let k = n - 1;
        counted_so_far(input, trace, readings, k as nat);
        assert(trace[k].hears(input[k], trace[k + 1], readings[k]));
        assert(readings.take(n as int).drop_last() =~= readings.take(k));
        assert(readings.take(n as int).last() == readings[k]);
        if k >= WIN_LEN {
            let (m, h) = (k - WIN_LEN, HOP as int);
            assert((m + 1) / h == if m % h + 1 == h {
                m / h + 1
            } else {
                m / h
            });
        }
    }
}

/// Hearing one block and then another is hearing both in one.
pub proof fn hearings_join<F: Arith>(
    first: Seq<u32>,
    first_trace: Seq<Tuner<F>>,
    first_readings: Seq<Option<u32>>,
    second: Seq<u32>,
    second_trace: Seq<Tuner<F>>,
    second_readings: Seq<Option<u32>>,
)
    requires
        hearing(first, first_trace, first_readings),
        hearing(second, second_trace, second_readings),
        first_trace[first.len() as int] == second_trace[0],
    ensures
        hearing(
            first + second,
            first_trace.drop_last() + second_trace,
            first_readings + second_readings,
        ),
{
    let input = first + second;
    let trace = first_trace.drop_last() + second_trace;
    let readings = first_readings + second_readings;
    let n = first.len() as int;
    assert forall|k: int|
        #![trigger trace[k]]
        0 <= k < input.len() implies trace[k].hears(input[k], trace[k + 1], readings[k]) by {
        if k < n {
            assert(first_trace[k].hears(first[k], first_trace[k + 1], first_readings[k]));
            if k + 1 == n {
                assert(trace[k + 1] == second_trace[0]);
            } else {
                assert(trace[k + 1] == first_trace[k + 1]);
            }
        } else {
            let j = k - n;
            assert(second_trace[j].hears(second[j], second_trace[j + 1], second_readings[j]));
            assert(trace[k] == second_trace[j] && trace[k + 1] == second_trace[j + 1]);
        }
    }
}

/// The states of a tuner that is switched on and hears one block after the other.
pub open spec fn listens<F: Arith>(
    enabled: u32,
    blocks: Seq<Seq<u32>>,
    units: Seq<Tuner<F>>,
) -> bool {
    &&& !is_off(enabled)
    &&& units.len() == blocks.len() + 1
    &&& forall|i: int|
        #![trigger units[i]]
        0 <= i < blocks.len() ==> units[i].processed_with(
            enabled,
            blocks[i],
            units[i + 1],
            blocks[i],
        )
}

/// However the samples are cut into blocks, the tuner hears all of them in order.
proof fn blocks_are_heard_in_order<F: Arith>(
    enabled: u32,
    blocks: Seq<Seq<u32>>,
    units: Seq<Tuner<F>>,
)
    requires
        listens(enabled, blocks, units),
    ensures
        listened(units[0], joined(blocks), units.last()),
    decreases blocks.len(),
{
    if blocks.len() == 0 {
        assert(hearing(Seq::empty(), seq![units[0]], Seq::<Option<u32>>::empty()));
    } else {
        let n = blocks.len() - 1;
        let rest = units.drop_last();
        assert forall|i: int|
            #![trigger rest[i]]
            0 <= i < n implies rest[i].processed_with(
            enabled,
            blocks.drop_last()[i],
            rest[i + 1],
            blocks.drop_last()[i],
        ) by {
            assert(units[i].processed_with(enabled, blocks[i], units[i + 1], blocks[i]));
        }
        blocks_are_heard_in_order(enabled, blocks.drop_last(), rest);
        let first = joined(blocks.drop_last());
        let (t1, r1) = choose|trace: Seq<Tuner<F>>, readings: Seq<Option<u32>>| #[trigger]
            hearing(first, trace, readings) && trace[0] == units[0]
                && trace[first.len() as int] == units[n];
        assert(units[n].processed_with(enabled, blocks[n], units[n + 1], blocks[n]));
        let last = blocks[n];
        if last.len() == 0 {
            assert(hearing(last, seq![units[n]], Seq::<Option<u32>>::empty()));
        }
        let (t2, r2) = choose|trace: Seq<Tuner<F>>, readings: Seq<Option<u32>>| #[trigger]
            hearing(last, trace, readings) && trace[0] == units[n]
                && trace[last.len() as int] == units[n + 1];
        hearings_join(first, t1, r1, last, t2, r2);
        let trace = t1.drop_last() + t2;
        assert(trace[0] == units[0]);
        assert(trace[(first + last).len() as int] == units[n + 1]);
    }
}

/// The handle is the same all along, and is told every reading.
proof fn handle_is_told<F: Arith>(
    input: Seq<u32>,
    trace: Seq<Tuner<F>>,
    readings: Seq<Option<u32>>,
    k: int,
)
    requires
        hearing(input, trace, readings),
        0 <= k < input.len(),
    ensures
        trace[k].handle == trace[0].handle,
        readings[k] is Some ==> trace[0].handle.was_set(readings[k]->0),
    decreases k,
{
    if k > 0 {
        handle_is_told(input, trace, readings, k - 1);
        assert(trace[k - 1].hears(input[k - 1], trace[k - 1 + 1], readings[k - 1]));
    }
    assert(trace[k].hears(input[k], trace[k + 1], readings[k]));
}

/// Readings do not depend on how the samples are cut into blocks: a tuner that was
/// just prepared and is switched on gives `(n - 2048) / 512 + 1` of them for `n`
/// samples, none for less than 2048, and publishes each at its handle.
pub proof fn readings_do_not_depend_on_the_blocks<F: Arith>(
    enabled: u32,
    blocks: Seq<Seq<u32>>,
    units: Seq<Tuner<F>>,
)
    requires
        listens(enabled, blocks, units),
        units[0].filled == 0,
        units[0].hop_counter == 0,
    ensures
        exists|trace: Seq<Tuner<F>>, readings: Seq<Option<u32>>| #[trigger]
            hearing(joined(blocks), trace, readings) && trace[0] == units[0]
                && trace[joined(blocks).len() as int] == units.last() && given(readings)
                == readings_due(joined(blocks).len()) && forall|k: int|
                0 <= k < readings.len() && (#[trigger] readings[k]) is Some
                    ==> units[0].handle.was_set(readings[k]->0),
{
    blocks_are_heard_in_order(enabled, blocks, units);
    let input = joined(blocks);
    let (trace, readings) = choose|trace: Seq<Tuner<F>>, readings: Seq<Option<u32>>| #[trigger]
        hearing(input, trace, readings) && trace[0] == units[0]
            && trace[input.len() as int] == units.last();
    readings_are_counted(input, trace, readings);
    assert forall|k: int| 0 <= k < readings.len() && (#[trigger] readings[k]) is Some implies units[0].handle.was_set(
        readings[k]->0,
    ) by {
        handle_is_told(input, trace, readings, k);
    }
    assert(hearing(input, trace, readings));
}

/// Two readings are at least a hop apart.
pub proof fn readings_keep_their_distance<F: Arith>(
    input: Seq<u32>,
    trace: Seq<Tuner<F>>,
    readings: Seq<Option<u32>>,
    i: int,
    j: int,
)
    requires
        hearing(input, trace, readings),
        0 <= i < j < input.len(),
        readings[i] is Some,
        readings[j] is Some,
    ensures
        j - i >= HOP,
{
    hop_counts_up(input, trace, readings, i, j);
    assert(trace[j].hears(input[j], trace[j + 1], readings[j]));
}

/// After a reading the counter starts anew, and never counts more samples than
/// were heard since.
proof fn hop_counts_up<F: Arith>(
    input: Seq<u32>,
    trace: Seq<Tuner<F>>,
    readings: Seq<Option<u32>>,
    i: int,
    j: int,
)
    requires
        hearing(input, trace, readings),
        0 <= i < j < input.len(),
        readings[i] is Some,
    ensures
        trace[j].hop_counter <= j - i - 1,
    decreases j,
{
    if j == i + 1 {
        assert(trace[i].hears(input[i], trace[i + 1], readings[i]));
    } else {
        hop_counts_up(input, trace, readings, i, j - 1);
        assert(trace[j - 1].hears(input[j - 1], trace[j - 1 + 1], readings[j - 1]));
    }
}

/// The first reading comes once the window is full: a fresh tuner gives none for
/// the first samples.
pub proof fn first_reading_waits_for_the_window<F: Arith>(
    input: Seq<u32>,
    trace: Seq<Tuner<F>>,
    readings: Seq<Option<u32>>,
    j: int,
)
    requires
        hearing(input, trace, readings),
        trace[0].filled == 0,
        0 <= j < input.len(),
        readings[j] is Some,
    ensures
        j + 1 >= WIN_LEN,
{
    fills_up(input, trace, readings, j);
    assert(trace[j].hears(input[j], trace[j + 1], readings[j]));
}

/// A window fills by one sample at a time.
proof fn fills_up<F: Arith>(
    input: Seq<u32>,
    trace: Seq<Tuner<F>>,
    readings: Seq<Option<u32>>,
    j: int,
)
    requires
        hearing(input, trace, readings),
        trace[0].filled == 0,
        0 <= j < input.len(),
    ensures
        trace[j].filled <= j,
    decreases j,
{
    if j > 0 {
        fills_up(input, trace, readings, j - 1);
        assert(trace[j - 1].hears(input[j - 1], trace[j - 1 + 1], readings[j - 1]));
    }
}

/// What picks a lag is the curve alone.
pub proof fn pick_is_determined(
    curve: Seq<u32>,
    lo: int,
    hi: int,
    s: Option<usize>,
    t: Option<usize>,
)
    requires
        picked(curve, lo, hi, s),
        picked(curve, lo, hi, t),
    ensures
        s == t,
{
    if exists|k: int| #[trigger] first_hit(curve, lo, hi, k) {
        let j = choose|k: int| #[trigger]
            first_hit(curve, lo, hi, k) && s is Some && descends_to(curve, hi, k, s->0 as int);
        let k = choose|k: int| #[trigger]
            first_hit(curve, lo, hi, k) && t is Some && descends_to(curve, hi, k, t->0 as int);
        assert(j == k) by {
            if j < k {
                assert(!below(curve[j], YIN_THRESH));
            } else if k < j {
                assert(!below(curve[k], YIN_THRESH));
            }
        }
        let a = s->0 as int;
        let b = t->0 as int;
        if a < b {
            assert(below(curve[a + 1], curve[a + 1 - 1]));
        } else if b < a {
            assert(below(curve[b + 1], curve[b + 1 - 1]));
        }
    } else {
        let m = choose|m: usize| #[trigger]
            lowest(curve, lo, hi, m as int) && s == if below(LOOSE_THRESH, curve[m as int]) {
                None
            } else {
                Some(m)
            };
        let n = choose|m: usize| #[trigger]
            lowest(curve, lo, hi, m as int) && t == if below(LOOSE_THRESH, curve[m as int]) {
                None
            } else {
                Some(m)
            };
        if m < n {
            assert(!below(curve[n as int], curve[m as int]));
            assert(not_a_number(curve[m as int]));
            if m > lo {
                assert(below(curve[m as int], curve[lo]) || not_a_number(curve[lo]));
            }
        } else if n < m {
            assert(!below(curve[m as int], curve[n as int]));
            assert(not_a_number(curve[n as int]));
            if n > lo {
                assert(below(curve[n as int], curve[lo]) || not_a_number(curve[lo]));
            }
        }
    }
}

/// However much was heard, a reset leaves the tuner as `prepare` did, but for the
/// reading it shows, which is none, and what a reading is worked out in.
pub proof fn reset_tuner_is_as_prepared<F: Arith>(
    tuner: Tuner<F>,
    sample_rate: u32,
    max_block: usize,
    trace: Seq<Tuner<F>>,
    reset: Tuner<F>,
)
    requires
        plays(trace),
        tuner.prepared(sample_rate, max_block, trace[0]),
        trace.last().cleared(reset),
    ensures
        hears_same(trace[0], reset),
        reset.shown == ZERO,
{
    let fresh = trace[0];
    let kept = |t: Tuner<F>|
        t == (Tuner {
            win: t.win,
            filled: t.filled,
            hop_counter: t.hop_counter,
            shown: t.shown,
            scratch: t.scratch,
            ds: t.ds,
            dp: t.dp,
            ..fresh
        }) && t.win@.len() == WIN_LEN;
    assert forall|a: Tuner<F>, input: Seq<u32>, b: Tuner<F>, output: Seq<u32>|
        kept(a) && #[trigger] a.processed(input, b, output) implies kept(b) by {
        let enabled = choose|enabled: u32| #[trigger] a.processed_with(enabled, input, b, output);
        if !is_off(enabled) && input.len() > 0 {
            let (heard, readings) = choose|heard: Seq<Tuner<F>>, readings: Seq<Option<u32>>| #[trigger]
                hearing(input, heard, readings) && heard[0] == a && heard[input.len() as int] == b;
            hearing_keeps(input, heard, readings, kept, input.len());
        }
    }
    playing_keeps(trace, kept);
    assert(silence(trace.last().win@.len()) == fresh.win@);
}

/// What holds of a tuner at first and survives every sample holds after `n` of them.
proof fn hearing_keeps<F: Arith>(
    input: Seq<u32>,
    trace: Seq<Tuner<F>>,
    readings: Seq<Option<u32>>,
    kept: spec_fn(Tuner<F>) -> bool,
    n: nat,
)
    requires
        hearing(input, trace, readings),
        kept(trace[0]),
        forall|a: Tuner<F>, x: u32, b: Tuner<F>, reading: Option<u32>|
            kept(a) && #[trigger] a.hears(x, b, reading) ==> kept(b),
        n <= input.len(),
    ensures
        kept(trace[n as int]),
    decreases n,
{
    if n > 0 {
        let k = n - 1;
        hearing_keeps(input, trace, readings, kept, k as nat);
        assert(trace[k].hears(input[k], trace[k + 1], readings[k]));
    }
}

/// Two tuners that give the same readings from here on: the same in everything but the
/// reading that they show and what a reading is worked out in.
pub open spec fn hears_same<F: Arith>(a: Tuner<F>, b: Tuner<F>) -> bool {
    &&& a.win@ == b.win@
    &&& b == (Tuner {
        win: b.win,
        shown: b.shown,
        scratch: b.scratch,
        ds: b.ds,
        dp: b.dp,
        ..a
    })
}

/// What one tuner reads, another that hears the same can read too.
proof fn same_hearing_same_readings<F: Arith>(
    a: Tuner<F>,
    input: Seq<u32>,
    trace: Seq<Tuner<F>>,
    readings: Seq<Option<u32>>,
)
    requires
        hearing(input, trace, readings),
        hears_same(a, trace[0]),
    ensures
        exists|others: Seq<Tuner<F>>| #[trigger]
            hearing(input, others, readings) && others[0] == a && hears_same(
                others[input.len() as int],
                trace[input.len() as int],
            ),
    decreases input.len(),
{
    if input.len() == 0 {
        assert(hearing(input, seq![a], readings));
    } else {
        let n = input.len() - 1;
        let (front, short, early) = (input.drop_last(), trace.drop_last(), readings.drop_last());
        assert forall|k: int|
            #![trigger short[k]]
            0 <= k < front.len() implies short[k].hears(front[k], short[k + 1], early[k]) by {
            assert(trace[k].hears(input[k], trace[k + 1], readings[k]));
        }
        assert(hearing(front, short, early));
        same_hearing_same_readings(a, front, short, early);
        let before = choose|others: Seq<Tuner<F>>| #[trigger]
            hearing(front, others, early) && others[0] == a && hears_same(
                others[front.len() as int],
                short[front.len() as int],
            );
        let last = trace[n + 1];
        assert(trace[n].hears(input[n], last, readings[n]));
        let shown = match readings[n] {
            Some(hz) => hz,
            None => before[n].shown,
        };
        let next = Tuner { shown, ..last };
        assert(before[n].hears(input[n], next, readings[n]));
        let others = before.push(next);
        assert forall|k: int|
            #![trigger others[k]]
            0 <= k < input.len() implies others[k].hears(input[k], others[k + 1], readings[k]) by {
            if k < n {
                assert(before[k].hears(front[k], before[k + 1], early[k]));
            }
        }
        assert(hearing(input, others, readings));
    }
}

/// After a reset a tuner reads as one that was just prepared: whatever readings the
/// samples that follow lead to, they could have led to right after `prepare`.
pub proof fn reset_tuner_reads_as_prepared<F: Arith>(
    tuner: Tuner<F>,
    sample_rate: u32,
    max_block: usize,
    trace: Seq<Tuner<F>>,
    reset: Tuner<F>,
    input: Seq<u32>,
    heard: Seq<Tuner<F>>,
    readings: Seq<Option<u32>>,
)
    requires
        plays(trace),
        tuner.prepared(sample_rate, max_block, trace[0]),
        trace.last().cleared(reset),
        hearing(input, heard, readings),
        heard[0] == reset,
    ensures
        exists|fresh: Seq<Tuner<F>>| #[trigger]
            hearing(input, fresh, readings) && fresh[0] == trace[0],
{
    reset_tuner_is_as_prepared(tuner, sample_rate, max_block, trace, reset);
    same_hearing_same_readings(trace[0], input, heard, readings);
}

/// Whatever a tuner that was reset makes of the blocks that follow, it could have made
/// right after `prepare`.
pub proof fn reset_tuner_plays_as_prepared<F: Arith>(
    tuner: Tuner<F>,
    sample_rate: u32,
    max_block: usize,
    trace: Seq<Tuner<F>>,
    reset: Tuner<F>,
    units: Seq<Tuner<F>>,
    inputs: Seq<Seq<u32>>,
    outputs: Seq<Seq<u32>>,
)
    requires
        plays(trace),
        tuner.prepared(sample_rate, max_block, trace[0]),
        trace.last().cleared(reset),
        performs(units, inputs, outputs),
        units[0] == reset,
    ensures
        exists|fresh: Seq<Tuner<F>>| #[trigger]
            performs(fresh, inputs, outputs) && fresh[0] == trace[0] && hears_same(
                fresh.last(),
                units.last(),
            ),
{
    reset_tuner_is_as_prepared(tuner, sample_rate, max_block, trace, reset);
    let alike = |a: Tuner<F>, b: Tuner<F>| hears_same(a, b);
    assert forall|x: Tuner<F>, y: Tuner<F>, input: Seq<u32>, after: Tuner<F>, output: Seq<u32>|
        #![trigger matches_step(alike, x, input, after, output), y.processed(input, after, output)]
        alike(x, y) && y.processed(input, after, output) implies matches_step(
        alike,
        x,
        input,
        after,
        output,
    ) by {
        let enabled = choose|enabled: u32| #[trigger]
            y.processed_with(enabled, input, after, output) && read_is(y.enabled, enabled);
        if is_off(enabled) || input.len() == 0 {
            assert(x.processed_with(enabled, input, x, output));
            assert(x.processed(input, x, output) && alike(x, after));
        } else {
            let (heard, readings) = choose|heard: Seq<Tuner<F>>, readings: Seq<Option<u32>>| #[trigger]
                hearing(input, heard, readings) && heard[0] == y
                    && heard[input.len() as int] == after;
            same_hearing_same_readings(x, input, heard, readings);
            let others = choose|others: Seq<Tuner<F>>| #[trigger]
                hearing(input, others, readings) && others[0] == x && hears_same(
                    others[input.len() as int],
                    heard[input.len() as int],
                );
            let next = others[input.len() as int];
            assert(listened(x, input, next));
            assert(x.processed_with(enabled, input, next, output));
            assert(x.processed(input, next, output) && alike(next, after));
        }
    }
    alike_units_perform_alike(alike, trace[0], units, inputs, outputs);
}

/// `hz` is the frequency of a period of `p` samples, each of them `d` samples of a signal
/// at the rate `sr`: with every number `q` up to `sr / d` and every number `h` up to
/// `q / p`, it is at least `h`, and likewise from above.
pub open spec fn frequency_of(sr: u32, d: usize, p: u32, hz: u32) -> bool {
    forall|q: u32, h: u32| #[trigger]
        finite(q) && #[trigger] finite(h) ==> {
            &&& units(q) * d <= units(sr) && units(h) * units(p) <= units(q) * one() ==> rank(h)
                <= rank(hz)
            &&& units(q) * d >= units(sr) && units(h) * units(p) >= units(q) * one() ==> rank(hz)
                <= rank(h)
        }
}

/// A reading is the sample rate over the period: where a tuner gives one, it is the
/// sample rate, divided by the thinning and by a period within a sample of the lag that is
/// picked from the differences of the window from itself.
pub proof fn reading_is_the_rate_over_the_period<F: Arith>(
    window: Seq<u32>,
    sr: u32,
    d: usize,
    hz: u32,
)
    requires
        faithful::<F>(),
        counts::<F>(),
        zero_wipes::<F>(),
        detected_is::<F>(window, sr, d, hz),
        hz != ZERO,
        window.len() <= WIN_LEN,
        0 < d < 0x100_0000,
        finite(sr) && units(sr) >= 0,
    ensures
        exists|curve: Seq<u32>, lo: int, t: usize, p: u32|
            #![trigger picked(curve, lo, window.len() as int / d as int / 2, Some(t)), frequency_of(sr, d, p, hz)]
            {
                let half = window.len() as int / d as int / 2;
                &&& curve_is::<F>(thinned(window, d as int), half, curve)
                &&& picked(curve, lo, half, Some(t))
                &&& finite(p) && (t - 1) * one() <= units(p) <= (t + 1) * one() && units(p) > 0
                &&& frequency_of(sr, d, p, hz)
            },
{
    let half = window.len() as int / d as int / 2;
    units_of_one();
    let (n, rate, lo, curve) = choose|n: u32, rate: u32, lo: usize, curve: Seq<u32>|
        #![trigger of_count_is::<F>(d, n), quotient_is::<F>(sr, n, rate), shortest_is::<F>(rate, lo), curve_is::<F>(thinned(window, d as int), half, curve)]
        of_count_is::<F>(d, n) && quotient_is::<F>(sr, n, rate) && shortest_is::<F>(rate, lo) && lo
            < CURVE_LEN && curve_is::<F>(thinned(window, d as int), half, curve) && read_off_is::<F>(
            curve,
            rate,
            lo as int,
            half,
            hz,
        );
    let choice = choose|t: Option<usize>| #[trigger]
        picked(curve, lo as int, half, t) && match t {
            None => hz == ZERO,
            Some(t) => exists|period: u32| #[trigger]
                period_is::<F>(curve, half, t, period) && if below(ZERO, period) {
                    frequency_is::<F>(rate, period, hz)
                } else {
                    hz == ZERO
                },
        };
    let t = choice->0;
    let p = choose|period: u32| #[trigger]
        period_is::<F>(curve, half, t, period) && if below(ZERO, period) {
            frequency_is::<F>(rate, period, hz)
        } else {
            hz == ZERO
        };
    assert(half <= 1024) by {
        vstd::arithmetic::div_mod::lemma_div_is_ordered_by_denominator(
            window.len() as int,
            1,
            d as int,
        );
    }
    assert(t < CURVE_LEN);
    periods_are_near_their_lag::<F>(curve, half, t, p);
    units_follow_the_order(p, ZERO);
    counts_are_exact::<F>(d, n);
    let (u, un, up) = (units(sr), units(n), units(p));
    assert(un >= one()) by (nonlinear_arith)
        requires
            un == d * one(),
            d >= 1,
            one() > 0,
    ;
    small_quotients_are_finite::<F>(sr, n, rate);
    assert(quotient_is::<F>(rate, p, hz));
    assert forall|q: u32, h: u32| #[trigger] finite(q) && #[trigger] finite(h) implies {
        &&& units(q) * d <= units(sr) && units(h) * units(p) <= units(q) * one() ==> rank(h)
            <= rank(hz)
        &&& units(q) * d >= units(sr) && units(h) * units(p) >= units(q) * one() ==> rank(hz)
            <= rank(h)
    } by {
        let (uq, uh, ur) = (units(q), units(h), units(rate));
        assert(uq * d <= u ==> uq * un <= u * one()) by (nonlinear_arith)
            requires
                un == d * one(),
                one() > 0,
        ;
        assert(uq * d >= u ==> uq * un >= u * one()) by (nonlinear_arith)
            requires
                un == d * one(),
                one() > 0,
        ;
        if uq * d <= u && uh * up <= uq * one() {
            rounds_above(u * one(), un, rate, q);
            assert(uq * one() <= ur * one()) by (nonlinear_arith)
                requires
                    uq <= ur,
                    one() > 0,
            ;
            rounds_above(ur * one(), up, hz, h);
        }
        if uq * d >= u && uh * up >= uq * one() {
            rounds_below(u * one(), un, rate, q);
            assert(uq * one() >= ur * one()) by (nonlinear_arith)
                requires
                    uq >= ur,
                    one() > 0,
            ;
            rounds_below(ur * one(), up, hz, h);
        }
    }
    assert(frequency_of(sr, d, p, hz));
    assert(picked(curve, lo as int, half, Some(t)));
}

/// A period is within one sample of its lag.
proof fn periods_are_near_their_lag<F: Arith>(curve: Seq<u32>, hi: int, t: usize, p: u32)
    requires
        faithful::<F>(),
        counts::<F>(),
        zero_wipes::<F>(),
        period_is::<F>(curve, hi, t, p),
        below(ZERO, p),
        t < CURVE_LEN,
    ensures
        finite(p),
        (t - 1) * one() <= units(p) <= (t + 1) * one(),
{
    units_of_one();
    units_of_negated(ONE);
    if 0 < t && t + 1 < hi {
        let (n, shift) = choose|n: u32, shift: u32| #[trigger]
            of_count_is::<F>(t, n) && #[trigger] bottom_is::<F>(
                curve[t - 1],
                curve[t as int],
                curve[t + 1],
                shift,
            ) && sum_is::<F>(n, shift, p);
        counts_are_exact::<F>(t, n);
        assert(!not_a_number(shift));
        units_follow_the_order(shift, ONE);
        units_follow_the_order(shift, negated(ONE));
        let (less, more) = ((t - 1) as nat, (t + 1) as nat);
        whole_numbers_are_numbers(less);
        whole_numbers_are_numbers(more);
        assert(t * one() - one() == less * one() && t * one() + one() == more * one())
            by (nonlinear_arith)
            requires
                less == t - 1,
                more == t + 1,
        ;
        rounds_above(units(n) + units(shift), 1, p, whole(less));
        rounds_below(units(n) + units(shift), 1, p, whole(more));
        between_is_finite(whole(less), p, whole(more));
    } else {
        counts_are_exact::<F>(t, p);
        assert((t - 1) * one() <= t * one() <= (t + 1) * one()) by (nonlinear_arith)
            requires
                one() > 0,
        ;
    }
}

/// Whether samples repeat after `p`: each of the first `half` is the one `p` places on.
pub open spec fn repeats(ds: Seq<u32>, half: int, p: int) -> bool {
    forall|j: int| 0 <= j < half ==> #[trigger] ds[j] == ds[j + p]
}

/// Whether all samples are between minus one and one.
pub open spec fn moderate(ds: Seq<u32>) -> bool {
    forall|j: int|
        0 <= j < ds.len() ==> finite(#[trigger] ds[j]) && -one() <= units(ds[j]) <= one()
}

/// The difference of moderate samples from themselves is bounded, and nothing at a lag at
/// which they repeat.
proof fn gaps_are_bounded<F: Arith>(
    ds: Seq<u32>,
    half: int,
    lag: int,
    sums: Seq<u32>,
    n: nat,
)
    requires
        faithful::<F>(),
        gap_sums::<F>(ds, half, lag, sums),
        moderate(ds),
        0 <= lag,
        half + lag <= ds.len(),
        n <= half <= 1024,
    ensures
        finite(sums[n as int]),
        0 <= units(sums[n as int]) <= (4 * n) * one(),
        repeats(ds, half, lag) ==> units(sums[n as int]) == 0,
    decreases n,
{
    units_of_one();
    if n > 0 {
        let j = n - 1;
        gaps_are_bounded::<F>(ds, half, lag, sums, j as nat);
        let (a, b) = (ds[j], ds[j + lag]);
        assert(squared_gap_is::<F>(sums[j], ds[j], ds[j + lag], sums[j + 1]));
        let gap = choose|gap: u32| #[trigger]
            difference_is::<F>(a, b, gap) && mac_is::<F>(sums[j], gap, gap, sums[j + 1]);
        let square = choose|p: u32| #[trigger]
            product_is::<F>(gap, gap, p) && sum_is::<F>(sums[j], p, sums[j + 1]);
        units_of_negated(TWO);
        rounds_above(units(a) - units(b), 1, gap, negated(TWO));
        rounds_below(units(a) - units(b), 1, gap, TWO);
        between_is_finite(negated(TWO), gap, TWO);
        let g = units(gap);
        assert(0 <= g * g <= (4 * one()) * one()) by (nonlinear_arith)
            requires
                -2 * one() <= g <= 2 * one(),
                one() > 0,
        ;
        whole_numbers_are_numbers(4);
        rounds_above(g * g, one(), square, ZERO);
        rounds_below(g * g, one(), square, whole(4));
        between_is_finite(ZERO, square, whole(4));
        let m = (4 * n) as nat;
        whole_numbers_are_numbers(m);
        assert((4 * j) * one() + 4 * one() == m * one()) by (nonlinear_arith)
            requires
                m == 4 * j + 4,
        ;
        let total = units(sums[j]) + units(square);
        rounds_above(total, 1, sums[j + 1], ZERO);
        rounds_below(total, 1, sums[j + 1], whole(m));
        between_is_finite(ZERO, sums[j + 1], whole(m));
        if repeats(ds, half, lag) {
            assert(ds[j] == ds[j + lag]);
            difference_to_itself::<F>(a, b, gap);
            product_with_zero::<F>(gap, gap, square);
            zero_adds_nothing::<F>(sums[j], square, sums[j + 1]);
        }
    }
}

/// The running totals of moderate samples are bounded.
proof fn totals_are_bounded<F: Arith>(
    ds: Seq<u32>,
    half: int,
    curve: Seq<u32>,
    totals: Seq<u32>,
    t: nat,
)
    requires
        faithful::<F>(),
        curve_totals::<F>(ds, half, curve, half, totals),
        moderate(ds),
        half + half <= ds.len(),
        t < half <= 1024,
    ensures
        finite(totals[t as int]),
        0 <= units(totals[t as int]) <= (4096 * t) * one(),
    decreases t,
{
    units_of_one();
    if t > 0 {
        let i = t - 1;
        totals_are_bounded::<F>(ds, half, curve, totals, i as nat);
        assert(place_is::<F>(
            ds,
            half,
            t as usize,
            totals[t - 1],
            totals[t as int],
            curve[t as int],
        ));
        let gap = choose|gap: u32| #[trigger]
            gap_is::<F>(ds, half, t as int, gap) && sum_is::<F>(
                totals[t - 1],
                gap,
                totals[t as int],
            );
        let sums = choose|sums: Seq<u32>| #[trigger]
            gap_sums::<F>(ds, half, t as int, sums) && sums[half] == gap;
        gaps_are_bounded::<F>(ds, half, t as int, sums, half as nat);
        let m = (4096 * t) as nat;
        whole_numbers_are_numbers(m);
        assert((4 * half) * one() <= 4096 * one()) by (nonlinear_arith)
            requires
                half <= 1024,
                one() > 0,
        ;
        assert((4096 * i) * one() + 4096 * one() == m * one()) by (nonlinear_arith)
            requires
                m == 4096 * i + 4096,
        ;
        let total = units(totals[i]) + units(gap);
        rounds_above(total, 1, totals[t as int], ZERO);
        rounds_below(total, 1, totals[t as int], whole(m));
        between_is_finite(ZERO, totals[t as int], whole(m));
    }
}

/// The curve dips to nothing at the period of a periodic window: where the samples repeat
/// after `p`, the normalised difference at the lag `p` is zero, or one where nothing
/// sounds at all up to that lag.
pub proof fn curve_dips_at_the_period<F: Arith>(ds: Seq<u32>, half: int, curve: Seq<u32>, p: int)
    requires
        faithful::<F>(),
        counts::<F>(),
        curve_is::<F>(ds, half, curve),
        moderate(ds),
        half + half <= ds.len(),
        half <= 1024,
        1 <= p < half,
        repeats(ds, half, p),
    ensures
        same(curve[p], ZERO) || curve[p] == ONE,
{
    units_of_one();
    let totals = choose|totals: Seq<u32>| #[trigger]
        curve_totals::<F>(ds, half, curve, half, totals);
    totals_are_bounded::<F>(ds, half, curve, totals, p as nat);
    assert(place_is::<F>(ds, half, p as usize, totals[p - 1], totals[p], curve[p]));
    let gap = choose|gap: u32| #[trigger]
        gap_is::<F>(ds, half, p, gap) && sum_is::<F>(totals[p - 1], gap, totals[p])
            && normalised_is::<F>(gap, p as usize, totals[p], curve[p]);
    let sums = choose|sums: Seq<u32>| #[trigger]
        gap_sums::<F>(ds, half, p, sums) && sums[half] == gap;
    gaps_are_bounded::<F>(ds, half, p, sums, half as nat);
    if below(ZERO, totals[p]) {
        let (n, weighted) = choose|n: u32, weighted: u32| #[trigger]
            of_count_is::<F>(p as usize, n) && #[trigger] product_is::<F>(gap, n, weighted)
                && quotient_is::<F>(weighted, totals[p], curve[p]);
        counts_are_exact::<F>(p as usize, n);
        product_with_zero::<F>(gap, n, weighted);
        units_follow_the_order(ZERO, totals[p]);
        crate::number::exact_results_are_hit(0, units(totals[p]), curve[p], ZERO);
    }
}

/// A periodic window gives a pitch: where the curve dips to nothing at the lag `p`, a lag
/// is picked, at the bottom of the first dip below the threshold, which starts no later
/// than `p`.
pub proof fn periodic_windows_have_a_pitch(
    curve: Seq<u32>,
    lo: int,
    hi: int,
    p: int,
    t: Option<usize>,
)
    requires
        picked(curve, lo, hi, t),
        lo <= p < hi,
        same(curve[p], ZERO),
    ensures
        t is Some,
        exists|k: int| #[trigger] first_hit(curve, lo, hi, k) && k <= p && k <= t->0,
{
    assert(below(curve[p], YIN_THRESH));
    let k = earliest_hit(curve, lo, hi, p);
    assert(first_hit(curve, lo, hi, k));
    let j = choose|j: int| #[trigger]
        first_hit(curve, lo, hi, j) && t is Some && descends_to(curve, hi, j, t->0 as int);
    assert(j == k) by {
        if j < k {
            assert(!below(curve[j], YIN_THRESH));
        }
        if k < j {
            assert(!below(curve[k], YIN_THRESH));
        }
    }
}

/// The first place below the threshold, up to one that is.
proof fn earliest_hit(curve: Seq<u32>, lo: int, hi: int, p: int) -> (k: int)
    requires
        lo <= p < hi,
        below(curve[p], YIN_THRESH),
    ensures
        first_hit(curve, lo, hi, k),
        k <= p,
    decreases p - lo,
{
    if exists|j: int| lo <= j < p && below(#[trigger] curve[j], YIN_THRESH) {
        let j = choose|j: int| lo <= j < p && below(#[trigger] curve[j], YIN_THRESH);
        earliest_hit(curve, lo, hi, j)
    } else {
        p
    }
}

/// The bottom of a dip lies towards the lower of the two neighbours, and in the middle
/// between equal ones: the half of their difference over the bend, next to it at every
/// step, within one place.
pub proof fn bottom_lies_towards_the_lower_side<F: Arith>(a: u32, b: u32, c: u32, r: u32)
    requires
        faithful::<F>(),
        bottom_is::<F>(a, b, c, r),
        finite(a) && finite(b) && finite(c),
        0 <= units(b) <= units(a) <= 1024 * one(),
        units(b) <= units(c) <= 1024 * one(),
    ensures
        finite(r) && -one() <= units(r) <= one(),
        units(a) <= units(c) ==> units(r) <= 0,
        units(a) >= units(c) ==> units(r) >= 0,
        units(r) != 0 ==> exists|outer: u32, bend: u32, gap: u32, half: u32, raw: u32|
            #![trigger rounds(units(a) + units(c), 1, outer), rounds(units(outer) - 2 * units(b), 1, bend), rounds(units(a) - units(c), 1, gap), rounds(units(gap), 2, half), rounds(units(half) * one(), units(bend), raw)]
            {
                &&& rounds(units(a) + units(c), 1, outer)
                &&& rounds(units(outer) - 2 * units(b), 1, bend)
                &&& rounds(units(a) - units(c), 1, gap)
                &&& rounds(units(gap), 2, half)
                &&& rounds(units(half) * one(), units(bend), raw)
                &&& r == clamped(raw, negated(ONE), ONE)
            },
{
    units_of_one();
    units_of_negated(ONE);
    whole_numbers_are_numbers(2048);
    units_of_negated(whole(2048));
    let o = one();
    let (outer, twice, bend) = choose|outer: u32, twice: u32, bend: u32|
        #![trigger sum_is::<F>(a, c, outer), product_is::<F>(TWO, b, twice), difference_is::<F>(outer, twice, bend)]
        sum_is::<F>(a, c, outer) && product_is::<F>(TWO, b, twice) && difference_is::<F>(
            outer,
            twice,
            bend,
        ) && if below(FLAT, magnitude(bend)) {
            slope_is::<F>(a, c, bend, r)
        } else {
            r == ZERO
        };
    let (x, y, z) = (units(a), units(b), units(c));
    rounds_above(x + z, 1, outer, ZERO);
    rounds_below(x + z, 1, outer, whole(2048));
    between_is_finite(ZERO, outer, whole(2048));
    assert((2 * o) * y == (2 * y) * o) by (nonlinear_arith);
    rounds_scales(2 * y, 1, o, twice);
    doubles_are_exact::<F>(b, twice);
    rounds_above(x + z, 1, outer, twice);
    rounds_above(units(outer) - 2 * y, 1, bend, ZERO);
    rounds_below(units(outer) - 2 * y, 1, bend, whole(2048));
    between_is_finite(ZERO, bend, whole(2048));
    units_follow_the_order(FLAT, ZERO);
    units_follow_the_order(bend, ZERO);
    units_follow_the_order(magnitude(bend), FLAT);
    if below(FLAT, magnitude(bend)) {
        let (gap, halved, raw) = choose|gap: u32, halved: u32, raw: u32|
            #![trigger difference_is::<F>(a, c, gap), product_is::<F>(HALF, gap, halved), quotient_is::<F>(halved, bend, raw)]
            difference_is::<F>(a, c, gap) && product_is::<F>(HALF, gap, halved) && quotient_is::<F>(
                halved,
                bend,
                raw,
            ) && r == clamped(raw, negated(ONE), ONE);
        rounds_above(x - z, 1, gap, negated(whole(2048)));
        rounds_below(x - z, 1, gap, whole(2048));
        between_is_finite(negated(whole(2048)), gap, whole(2048));
        let (g, h) = (units(gap), units(HALF));
        assert(h * g == g * h) by (nonlinear_arith);
        rounds_scales(g, 2, h, halved);
        factor_up_to_one_shrinks::<F>(gap, HALF, halved);
        assert(units(bend) > 0);
        let (u, v) = (units(halved), units(bend));
        if x <= z {
            rounds_below(x - z, 1, gap, ZERO);
            assert(u * o <= 0 * v) by (nonlinear_arith)
                requires
                    u <= 0,
                    o > 0,
            ;
            rounds_below(u * o, v, raw, ZERO);
        }
        if x >= z {
            rounds_above(x - z, 1, gap, ZERO);
            assert(u * o >= 0 * v) by (nonlinear_arith)
                requires
                    u >= 0,
                    o > 0,
            ;
            rounds_above(u * o, v, raw, ZERO);
        }
        between_is_finite(negated(ONE), r, ONE);
        units_follow_the_order(raw, ZERO);
        units_follow_the_order(r, ZERO);
    }
}

/// A difference is weighed by its lag over the total up to it: next to it at every step.
pub proof fn differences_are_weighed_by_their_lag<F: Arith>(gap: u32, lag: usize, total: u32, r: u32)
    requires
        faithful::<F>(),
        counts::<F>(),
        normalised_is::<F>(gap, lag, total, r),
        finite(gap) && 0 <= units(gap) <= 0x1000 * one(),
        finite(total) && units(total) > 0,
        lag < CURVE_LEN,
    ensures
        exists|weighted: u32|
            #![trigger rounds(units(weighted) * one(), units(total), r)]
            rounds(units(gap) * lag, 1, weighted) && rounds(
                units(weighted) * one(),
                units(total),
                r,
            ),
{
    units_of_one();
    units_follow_the_order(total, ZERO);
    let (n, weighted) = choose|n: u32, weighted: u32| #[trigger]
        of_count_is::<F>(lag, n) && #[trigger] product_is::<F>(gap, n, weighted) && quotient_is::<
            F,
        >(weighted, total, r);
    counts_are_exact::<F>(lag, n);
    let (g, o) = (units(gap), one());
    assert(g * (lag * o) == (g * lag) * o) by (nonlinear_arith);
    rounds_scales(g * lag, 1, o, weighted);
    whole_numbers_are_numbers(0x40_1000);
    assert(0 <= g * lag <= 0x40_1000 * o) by (nonlinear_arith)
        requires
            0 <= g <= 0x1000 * o,
            0 <= lag <= 1025,
            o > 0,
    ;
    rounds_above(g * lag, 1, weighted, ZERO);
    rounds_below(g * lag, 1, weighted, whole(0x40_1000));
    between_is_finite(ZERO, weighted, whole(0x40_1000));
}

/// What is picked is clear: a lag whose difference is at most 0.3; and where nothing is
/// picked, every difference is more.
pub proof fn picked_lags_are_clear(curve: Seq<u32>, lo: int, hi: int, t: Option<usize>)
    requires
        picked(curve, lo, hi, t),
        lo < hi,
        forall|j: int| lo <= j < hi ==> !not_a_number(#[trigger] curve[j]),
    ensures
        t is Some ==> lo <= t->0 < hi && !below(LOOSE_THRESH, curve[t->0 as int]),
        t is None ==> forall|j: int| lo <= j < hi ==> below(LOOSE_THRESH, #[trigger] curve[j]),
        rounds(3 * one(), 10, LOOSE_THRESH),
        rounds(15 * one(), 100, YIN_THRESH),
        forall|k: int, j: int| #[trigger]
            first_hit(curve, lo, hi, k) && t is Some && lo <= j < k ==> !below(
                #[trigger] curve[j],
                YIN_THRESH,
            ),
{
    units_of_one();
    vstd::arithmetic::power2::lemma2_to64();
    constants_round(0x3e99_999a, 3, 10, 125, 0x19999a, 4);
    constants_round(0x3e19_999a, 15, 100, 124, 0x19999a, 8);
    if exists|k: int| #[trigger] first_hit(curve, lo, hi, k) {
        let k = choose|k: int| #[trigger]
            first_hit(curve, lo, hi, k) && t is Some && descends_to(curve, hi, k, t->0 as int);
        walks_stay_low(curve, hi, k, t->0 as int, k);
    }
}

/// Downhill it is never higher than where one began.
proof fn walks_stay_low(curve: Seq<u32>, hi: int, k: int, t: int, from: int)
    requires
        descends_to(curve, hi, k, t),
        k <= from <= t,
        rank(curve[from]) <= rank(curve[k]),
    ensures
        rank(curve[t]) <= rank(curve[k]),
    decreases t - from,
{
    if from < t {
        assert(below(curve[from + 1], curve[from + 1 - 1]));
        walks_stay_low(curve, hi, k, t, from + 1);
    }
}

/// The level of a window is the root of the mean of its squares.
pub proof fn level_is_the_root_of_the_mean<F: Arith>(window: Seq<u32>, r: u32)
    requires
        faithful::<F>(),
        counts::<F>(),
        rms_is::<F>(window, r),
        0 < window.len() < 0x100_0000,
        forall|e: u32| #[trigger] dot_is::<F>(window, window, e) ==> finite(e),
    ensures
        exists|e: u32, mean: u32| #[trigger]
            dot_is::<F>(window, window, e) && rounds(units(e), window.len() as int, mean)
                && #[trigger] sqrt_is::<F>(mean, r),
{
    units_of_one();
    let (e, n, mean) = choose|e: u32, n: u32, mean: u32|
        #![trigger dot_is::<F>(window, window, e), of_count_is::<F>(window.len() as usize, n), quotient_is::<F>(e, n, mean)]
        dot_is::<F>(window, window, e) && of_count_is::<F>(window.len() as usize, n)
            && quotient_is::<F>(e, n, mean) && sqrt_is::<F>(mean, r);
    counts_are_exact::<F>(window.len() as usize, n);
    let (l, o) = (window.len() as int, one());
    assert(l * o > 0) by (nonlinear_arith)
        requires
            l > 0,
            o > 0,
    ;
    rounds_scales(units(e), l, o, mean);
}

/// What is played too softly has no pitch, and what is loud enough is looked into: the
/// level in between is 0.001.
pub proof fn soft_windows_have_no_pitch<F: Arith>(window: Seq<u32>, sr: u32, d: usize, hz: u32)
    requires
        detected_is::<F>(window, sr, d, hz),
        forall|r: u32| #[trigger] rms_is::<F>(window, r) ==> finite(r),
    ensures
        (forall|r: u32| #[trigger] rms_is::<F>(window, r) ==> 0 <= 1024 * units(r) <= one()) ==> hz
            == ZERO,
        (forall|r: u32| #[trigger] rms_is::<F>(window, r) ==> 512 * units(r) >= one())
            ==> pitch_is::<F>(window, sr, d, hz),
        rounds(one(), 1000, RMS_GATE),
{
    units_of_one();
    vstd::arithmetic::power2::lemma2_to64();
    constants_round(0x3a83_126f, 1, 1000, 117, 0x3126f, 1024);
    dyadics_are_numbers(1, 9);
    rounds_below(one(), 1000, RMS_GATE, dyadic(1, 9));
    dyadics_are_numbers(131, 17);
    rounds_above(one(), 1000, RMS_GATE, dyadic(131, 17));
    let r = choose|r: u32| #[trigger]
        rms_is::<F>(window, r) && if below(r, RMS_GATE) {
            hz == ZERO
        } else {
            pitch_is::<F>(window, sr, d, hz)
        };
    units_follow_the_order(r, RMS_GATE);
}

/// A rate of `k` times 12 kHz is thinned out by `k`; no rate by less than one.
pub proof fn rates_are_thinned_to_twelve_kilohertz<F: Arith>(sample_rate: u32, k: nat, d: usize)
    requires
        faithful::<F>(),
        counts::<F>(),
        forall|a: u32, r: u32, n: nat|
            finite(a) && units(a) == n * one() && #[trigger] round_is::<F>(a, r)
                && #[trigger] is_count(n) ==> finite(r) && units(r) == units(a),
        thinning_is::<F>(sample_rate, d),
        finite(sample_rate) && units(sample_rate) == 12000 * (k * one()),
        1 <= k < 1000,
    ensures
        d == k,
{
    units_of_one();
    whole_numbers_are_numbers(12000);
    assert(whole(12000) == TARGET_RATE) by {
        reveal_with_fuel(whole, 24);
    }
    whole_numbers_are_numbers(k);
    let (q, rounded, n) = choose|q: u32, rounded: u32, n: usize|
        #![trigger quotient_is::<F>(sample_rate, TARGET_RATE, q), round_is::<F>(q, rounded), to_count_is::<F>(larger(rounded, ONE), n)]
        quotient_is::<F>(sample_rate, TARGET_RATE, q) && round_is::<F>(q, rounded)
            && to_count_is::<F>(larger(rounded, ONE), n) && d == if n < 1 {
            1
        } else {
            n
        };
    let o = one();
    assert((k * o) * (12000 * o) == (12000 * (k * o)) * o) by (nonlinear_arith);
    exact_results_are_hit((12000 * (k * o)) * o, 12000 * o, q, whole(k));
    assert(is_count(k));
    assert(k * o >= o) by (nonlinear_arith)
        requires
            k >= 1,
            o > 0,
    ;
    units_follow_the_order(rounded, ONE);
    assert(finite(larger(rounded, ONE)) && units(larger(rounded, ONE)) == k * o);
}

/// At a rate of `k` times 1400 Hz no lag below `k`, or below two, is looked at.
pub proof fn lags_start_at_the_highest_pitch<F: Arith>(rate: u32, k: nat, lo: usize)
    requires
        faithful::<F>(),
        counts::<F>(),
        shortest_is::<F>(rate, lo),
        finite(rate) && units(rate) == 1400 * (k * one()),
        k < 1000,
    ensures
        lo == if k < 2 {
            2
        } else {
            k
        },
{
    units_of_one();
    whole_numbers_are_numbers(1400);
    assert(whole(1400) == MAX_HZ) by {
        reveal_with_fuel(whole, 24);
    }
    whole_numbers_are_numbers(k);
    let (q, n) = choose|q: u32, n: usize| #[trigger]
        quotient_is::<F>(rate, MAX_HZ, q) && #[trigger] to_count_is::<F>(q, n) && lo == if n < 2 {
            2
        } else {
            n
        };
    let o = one();
    assert((k * o) * (1400 * o) == (1400 * (k * o)) * o) by (nonlinear_arith);
    exact_results_are_hit((1400 * (k * o)) * o, 1400 * o, q, whole(k));
    assert(is_count(k));
}

/// A tuner reads at the rate that it was prepared for: a reading that a sample leads to is
/// of the window that ends with it, and that rate, over the thinning, over the period.
pub proof fn tuner_reads_at_its_rate<F: Arith>(
    tuner: Tuner<F>,
    sample_rate: u32,
    max_block: usize,
    ready: Tuner<F>,
    before: Tuner<F>,
    x: u32,
    after: Tuner<F>,
    hz: u32,
)
    requires
        faithful::<F>(),
        counts::<F>(),
        zero_wipes::<F>(),
        tuner.prepared(sample_rate, max_block, ready),
        before.sr == ready.sr && before.decim == ready.decim && before.win@.len() == WIN_LEN,
        before.hears(x, after, Some(hz)),
        hz != ZERO,
        before.decim < 0x100_0000,
        finite(sample_rate) && units(sample_rate) >= 0,
    ensures
        after.win@.last() == x,
        after.shown == hz,
        before.handle.was_set(hz),
        exists|curve: Seq<u32>, lo: int, t: usize, p: u32|
            #![trigger picked(curve, lo, before.half(), Some(t)), frequency_of(sample_rate, before.decim, p, hz)]
            {
                &&& curve_is::<F>(thinned(after.win@, before.decim as int), before.half(), curve)
                &&& picked(curve, lo, before.half(), Some(t))
                &&& (t - 1) * one() <= units(p) <= (t + 1) * one() && units(p) > 0
                &&& frequency_of(sample_rate, before.decim, p, hz)
            },
{
    assert(after.win@.len() == WIN_LEN);
    reading_is_the_rate_over_the_period::<F>(after.win@, sample_rate, before.decim, hz);
    let (curve, lo, t, p) = choose|curve: Seq<u32>, lo: int, t: usize, p: u32|
        #![trigger picked(curve, lo, after.win@.len() as int / before.decim as int / 2, Some(t)), frequency_of(sample_rate, before.decim, p, hz)]
        {
            let half = after.win@.len() as int / before.decim as int / 2;
            &&& curve_is::<F>(thinned(after.win@, before.decim as int), half, curve)
            &&& picked(curve, lo, half, Some(t))
            &&& finite(p) && (t - 1) * one() <= units(p) <= (t + 1) * one() && units(p) > 0
            &&& frequency_of(sample_rate, before.decim, p, hz)
        };
    assert(picked(curve, lo, before.half(), Some(t)));
}

} // verus!
