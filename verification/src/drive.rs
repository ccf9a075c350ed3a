//! Distortion.
//!
//! High pass, pre-gain, fourfold oversampled asymmetric soft clipping, tone
//! control, level compensation. Clipping makes harmonics that would fold back
//! into the audible range at the native rate; two halfband stages of twofold
//! oversampling keep them away.
use crate::arith::{
    blend, blend_is, cos_is, difference_is, dot_is, dot_sums, exp10_is, exp_is, factor, factor_is,
    mac, mac_is, of_count_is, product_is, quotient_is, sin_is, sum_is, tanh_is, Arith, TAU,
};
use crate::bits::{
    at_least, clamp, clamped, ge, is_off, neg, negated, not_a_number, off, rank, HALF, ONE, SIGN,
    TWO, ZERO,
};
use crate::block::{run_block, run_keeps, runs, stepping, traces, Step};
use crate::line::{silence, Line};
use crate::number::{
    between_is_finite, blends_reach_their_ends, constants_round, counts, counts_are_exact,
    dot_with_one_term, doubles_are_exact, exact_results_are_hit, factor_up_to_one_shrinks,
    faithful, finite, integer, integers_are_numbers, levels_are_powers_of_ten, octaves_down, one,
    only_at, positive_factors_keep_the_sign, product_lowers, product_with_one, raises_ten,
    rounds, rounds_above, rounds_below, rounds_scales, same, small_quotients_are_finite, units,
    units_follow_the_order, units_of_decades, units_of_negated, units_of_one,
    units_of_three_halves, whole, whole_numbers_are_numbers, zero_adds_nothing, OCTAVE,
};
use crate::param::{read, read_is, SharedParam};
use crate::processor::{
    alike_units_perform_alike, matches_step, performs, playing_keeps, plays, AudioProcessor,
    DEFAULT_RATE,
};
use core::marker::PhantomData;
use vstd::prelude::*;

verus! {

/// The number of taps of the halfband filter.
pub const TAPS: usize = 31;

/// The place of its middle tap.
pub const MIDDLE: usize = 15;

/// pi
pub const PI: u32 = 0x4049_0fdb;

/// 0.42, 0.5 and 0.08 are the weights of the Blackman window.
pub const BLACKMAN_0: u32 = 0x3ed7_0a3d;

/// 0.08
pub const BLACKMAN_2: u32 = 0x3da3_d70a;

/// 1.5: how much earlier the negative half saturates.
pub const ASYMMETRY: u32 = 0x3fc0_0000;

/// Corner of the high pass, 120 Hz.
pub const LOW_CUT_HZ: u32 = 0x42f0_0000;

/// Lowest corner of the tone control, 800 Hz.
pub const DARKEST_HZ: u32 = 0x4448_0000;

/// Highest corner of the tone control, 8 kHz.
pub const BRIGHTEST_HZ: u32 = 0x45fa_0000;

/// Forty.
pub const HALF_SLOPE_DB: u32 = 0x4220_0000;

/// `r` is a result of `sin(pi x / 2) / (pi x)`, or one half at zero.
pub open spec fn sinc_is<F: Arith>(x: u32, r: u32) -> bool {
    if x == ZERO || x == SIGN {
        r == HALF
    } else {
        exists|turn: u32, half: u32, s: u32|
            #![trigger quotient_is::<F>(turn, TWO, half), sin_is::<F>(half, s)]
            product_is::<F>(PI, x, turn) && quotient_is::<F>(turn, TWO, half) && sin_is::<F>(half, s)
                && sinc_ratio::<F>(x, s, r)
    }
}

/// `r` is a result of `s / (pi x)`.
pub open spec fn sinc_ratio<F: Arith>(x: u32, s: u32, r: u32) -> bool {
    exists|turn: u32| #[trigger] product_is::<F>(PI, x, turn) && quotient_is::<F>(s, turn, r)
}

/// `sin(pi x / 2) / (pi x)`, or one half at zero.
pub fn sinc<F: Arith>(x: u32) -> (r: u32)
    ensures
        sinc_is::<F>(x, r),
{
    if x == ZERO || x == SIGN {
        return HALF;
    }
    let turn: u32 = F::times(PI, x);
    let half: u32 = F::over(turn, TWO);
    let s: u32 = F::sin(half);
    let below: u32 = F::times(PI, x);
    let r: u32 = F::over(s, below);
    assert(quotient_is::<F>(turn, TWO, half) && sin_is::<F>(half, s));
    assert(product_is::<F>(PI, x, below));
    r
}

/// `r` is a result of `cos(turn * i / 30)`.
pub open spec fn window_cos_is<F: Arith>(turn: u32, i: u32, span: u32, r: u32) -> bool {
    exists|t: u32, a: u32| #[trigger]
        product_is::<F>(turn, i, t) && #[trigger] quotient_is::<F>(t, span, a) && cos_is::<F>(a, r)
}

/// `cos(turn * i / span)`
pub fn window_cos<F: Arith>(turn: u32, i: u32, span: u32) -> (r: u32)
    ensures
        window_cos_is::<F>(turn, i, span, r),
{
    let t: u32 = F::times(turn, i);
    let a: u32 = F::over(t, span);
    assert(product_is::<F>(turn, i, t) && quotient_is::<F>(t, span, a));
    F::cos(a)
}

/// `r` is a result of `0.42 - 0.5 * cos(2 pi i / span) + 0.08 * cos(4 pi i / span)`,
/// where `twice` is a result of `2 * 2 pi`.
pub open spec fn blackman_is<F: Arith>(twice: u32, i: u32, span: u32, r: u32) -> bool {
    exists|c1: u32, h1: u32, d: u32, c2: u32, h2: u32|
        #![trigger window_cos_is::<F>(TAU, i, span, c1), product_is::<F>(HALF, c1, h1), difference_is::<F>(BLACKMAN_0, h1, d), window_cos_is::<F>(twice, i, span, c2), product_is::<F>(BLACKMAN_2, c2, h2)]
        window_cos_is::<F>(TAU, i, span, c1) && product_is::<F>(HALF, c1, h1) && difference_is::<F>(
            BLACKMAN_0,
            h1,
            d,
        ) && window_cos_is::<F>(twice, i, span, c2) && product_is::<F>(BLACKMAN_2, c2, h2)
            && sum_is::<F>(d, h2, r)
}

/// The Blackman window at place `i` of `span`.
pub fn blackman<F: Arith>(twice: u32, i: u32, span: u32) -> (r: u32)
    ensures
        blackman_is::<F>(twice, i, span, r),
{
    let c1: u32 = window_cos::<F>(TAU, i, span);
    let h1: u32 = F::times(HALF, c1);
    let d: u32 = F::minus(BLACKMAN_0, h1);
    let c2: u32 = window_cos::<F>(twice, i, span);
    let h2: u32 = F::times(BLACKMAN_2, c2);
    assert(window_cos_is::<F>(TAU, i, span, c1) && product_is::<F>(HALF, c1, h1) && difference_is::<
        F,
    >(BLACKMAN_0, h1, d) && window_cos_is::<F>(twice, i, span, c2) && product_is::<F>(
        BLACKMAN_2,
        c2,
        h2,
    ));
    F::plus(d, h2)
}

/// `r` is a result of the windowed sinc at tap `k`, not yet normalised.
pub open spec fn raw_tap_is<F: Arith>(k: usize, r: u32) -> bool {
    exists|i: u32, mid: u32, span: u32, twice: u32, x: u32, s: u32, w: u32|
        #![trigger of_count_is::<F>(k, i), of_count_is::<F>(MIDDLE, mid), blackman_is::<F>(twice, i, span, w), difference_is::<F>(i, mid, x), sinc_is::<F>(x, s)]
        of_count_is::<F>(k, i) && of_count_is::<F>(MIDDLE, mid) && of_count_is::<F>(
            (TAPS - 1) as usize,
            span,
        ) && product_is::<F>(TWO, TAU, twice) && difference_is::<F>(i, mid, x) && sinc_is::<F>(x, s)
            && blackman_is::<F>(twice, i, span, w) && product_is::<F>(s, w, r)
}

/// The windowed sinc at tap `k`, not yet normalised.
pub fn raw_tap<F: Arith>(k: usize) -> (r: u32)
    ensures
        raw_tap_is::<F>(k, r),
{
    let mid: u32 = F::of_count(MIDDLE);
    let i: u32 = F::of_count(k);
    let x: u32 = F::minus(i, mid);
    let s: u32 = sinc::<F>(x);
    let span: u32 = F::of_count(TAPS - 1);
    let twice: u32 = F::times(TWO, TAU);
    let w: u32 = blackman::<F>(twice, i, span);
    assert(of_count_is::<F>(k, i) && of_count_is::<F>(MIDDLE, mid) && blackman_is::<F>(
        twice,
        i,
        span,
        w,
    ) && difference_is::<F>(i, mid, x) && sinc_is::<F>(x, s));
    F::times(s, w)
}

/// `taps` are windowed sinc taps, divided by their sum: `raw` are the taps
/// before and `sums` the partial sums.
pub open spec fn halfband_from<F: Arith>(taps: Seq<u32>, raw: Seq<u32>, sums: Seq<u32>) -> bool {
    &&& taps.len() == TAPS && raw.len() == TAPS && sums.len() == TAPS + 1
    &&& sums[0] == ZERO
    &&& forall|k: int|
        #![trigger raw[k]]
        0 <= k < TAPS ==> raw_tap_is::<F>(k as usize, raw[k]) && sum_is::<F>(
            sums[k],
            raw[k],
            sums[k + 1],
        ) && quotient_is::<F>(raw[k], sums[TAPS as int], taps[k])
}

/// `taps` are the taps of a halfband low pass with unity gain at zero.
pub open spec fn halfband<F: Arith>(taps: Seq<u32>) -> bool {
    exists|raw: Seq<u32>, sums: Seq<u32>| #[trigger] halfband_from::<F>(taps, raw, sums)
}

/// The taps of the halfband low pass.
pub fn halfband_taps<F: Arith>() -> (taps: Vec<u32>)
    ensures
        taps@.len() == TAPS,
        halfband::<F>(taps@),
{
    let mut taps: Vec<u32> = Vec::new();
    let mut total: u32 = ZERO;
    let ghost mut sums: Seq<u32> = seq![ZERO];
    let mut k: usize = 0;
    while k < TAPS
        invariant
            k <= TAPS,
            taps@.len() == k,
            sums.len() == k + 1,
            sums[0] == ZERO,
            sums[k as int] == total,
            forall|j: int|
                #![trigger taps@[j]]
                0 <= j < k ==> raw_tap_is::<F>(j as usize, taps@[j]) && sum_is::<F>(
                    sums[j],
                    taps@[j],
                    sums[j + 1],
                ),
        decreases TAPS - k,
    {
        let t: u32 = raw_tap::<F>(k);
        taps.push(t);
        total = F::plus(total, t);
        proof {
            sums = sums.push(total);
        }
        k = k + 1;
    }
    let ghost raw = taps@;
    let mut i: usize = 0;
    while i < TAPS
        invariant
            i <= TAPS,
            taps@.len() == TAPS,
            raw.len() == TAPS,
            forall|j: int| i <= j < TAPS ==> taps@[j] == raw[j],
            forall|j: int|
                #![trigger taps@[j]]
                0 <= j < i ==> quotient_is::<F>(raw[j], total, taps@[j]),
        decreases TAPS - i,
    {
        taps[i] = F::over(taps[i], total);
        i = i + 1;
    }
    assert(halfband_from::<F>(taps@, raw, sums));
    taps
}

/// A filter with a finite impulse response.
pub struct Fir {
    /// The response.
    pub taps: Vec<u32>,
    /// The last samples.
    pub line: Line,
}

/// One sample of a filter: the newest sample meets the first tap.
pub open spec fn fir_ticks<F: Arith>(before: Fir, x: u32, after: Fir, y: u32) -> bool {
    &&& after.taps == before.taps
    &&& after.line@ == before.line@.drop_first().push(x)
    &&& dot_is::<F>(before.taps@, after.line@.reverse(), y)
}

impl Fir {
    /// Whether the filter is in working order: one past sample per tap.
    pub open spec fn wf(&self) -> bool {
        self.line.wf() && self.line@.len() == self.taps@.len()
    }

    /// A filter that has heard nothing.
    pub fn new(taps: Vec<u32>) -> (r: Self)
        requires
            taps@.len() > 0,
        ensures
            r.wf(),
            r.taps == taps,
            r.line@ == silence(taps@.len()),
    {
        let n: usize = taps.len();
        Fir { taps, line: Line::new(n) }
    }

    /// Takes in `x` and returns the filtered sample.
    pub fn tick<F: Arith>(&mut self, x: u32) -> (y: u32)
        requires
            old(self).wf(),
        ensures
            final(self).wf(),
            fir_ticks::<F>(*old(self), x, *final(self), y),
    {
        self.line.feed(x);
        let n: usize = self.taps.len();
        let ghost past = self.line@.reverse();
        let ghost mut sums: Seq<u32> = seq![ZERO];
        let mut acc: u32 = ZERO;
        let mut k: usize = 0;
        while k < n
            invariant
                k <= n,
                self.wf(),
                n == self.taps@.len(),
                self.taps == old(self).taps,
                past == self.line@.reverse(),
                self.line@ == old(self).line@.drop_first().push(x),
                sums.len() == k + 1,
                sums[0] == ZERO,
                sums[k as int] == acc,
                forall|j: int|
                    #![trigger sums[j]]
                    0 <= j < k ==> mac_is::<F>(sums[j], self.taps@[j], past[j], sums[j + 1]),
            decreases n - k,
        {
            let s: u32 = self.line.get(n - 1 - k);
            assert(s == past[k as int]);
            acc = mac::<F>(acc, self.taps[k], s);
            proof {
                sums = sums.push(acc);
            }
            k = k + 1;
        }
        assert(dot_sums::<F>(self.taps@, past, sums));
        acc
    }

    /// Forgets what was heard.
    pub fn reset(&mut self)
        requires
            old(self).wf(),
        ensures
            final(self).wf(),
            final(self).taps == old(self).taps,
            final(self).line@ == silence(old(self).line@.len()),
    {
        self.line.clear();
    }
}

/// One stage of twofold oversampling: a filter for the way up and one for the
/// way down.
pub struct Os2x {
    /// The way up.
    pub up: Fir,
    /// The way down.
    pub down: Fir,
}

/// One sample goes up: `x` and a zero pass the filter, at twice the level.
pub open spec fn goes_up<F: Arith>(before: Os2x, x: u32, after: Os2x, a: u32, b: u32) -> bool {
    &&& after.down == before.down
    &&& exists|mid: Fir, p: u32, q: u32|
        #![trigger fir_ticks::<F>(before.up, x, mid, p), fir_ticks::<F>(mid, ZERO, after.up, q)]
        fir_ticks::<F>(before.up, x, mid, p) && fir_ticks::<F>(mid, ZERO, after.up, q)
            && product_is::<F>(TWO, p, a) && product_is::<F>(TWO, q, b)
}

/// Two samples go down: both pass the filter and the first one is kept.
pub open spec fn goes_down<F: Arith>(before: Os2x, a: u32, b: u32, after: Os2x, y: u32) -> bool {
    &&& after.up == before.up
    &&& exists|mid: Fir, dropped: u32|
        #![trigger fir_ticks::<F>(before.down, a, mid, y), fir_ticks::<F>(mid, b, after.down, dropped)]
        fir_ticks::<F>(before.down, a, mid, y) && fir_ticks::<F>(mid, b, after.down, dropped)
}

impl Os2x {
    /// Whether both filters are in working order.
    pub open spec fn wf(&self) -> bool {
        self.up.wf() && self.down.wf()
    }

    /// Whether the stage is fresh: halfband filters that have heard nothing.
    pub open spec fn fresh<F: Arith>(&self) -> bool {
        &&& self.wf()
        &&& halfband::<F>(self.up.taps@) && halfband::<F>(self.down.taps@)
        &&& self.up.line@ == silence(TAPS as nat) && self.down.line@ == silence(TAPS as nat)
    }

    /// A fresh stage.
    pub fn new<F: Arith>() -> (r: Self)
        ensures
            r.fresh::<F>(),
    {
        Os2x { up: Fir::new(halfband_taps::<F>()), down: Fir::new(halfband_taps::<F>()) }
    }

    /// Stuffs a zero behind `x` and filters.
    pub fn upsample<F: Arith>(&mut self, x: u32) -> (r: (u32, u32))
        requires
            old(self).wf(),
        ensures
            final(self).wf(),
            goes_up::<F>(*old(self), x, *final(self), r.0, r.1),
    {
        let p: u32 = self.up.tick::<F>(x);
        let ghost mid = self.up;
        let a: u32 = F::times(TWO, p);
        let q: u32 = self.up.tick::<F>(ZERO);
        let b: u32 = F::times(TWO, q);
        assert(fir_ticks::<F>(old(self).up, x, mid, p) && fir_ticks::<F>(mid, ZERO, self.up, q));
        (a, b)
    }

    /// Filters and keeps every other sample.
    pub fn downsample<F: Arith>(&mut self, a: u32, b: u32) -> (y: u32)
        requires
            old(self).wf(),
        ensures
            final(self).wf(),
            goes_down::<F>(*old(self), a, b, *final(self), y),
    {
        let y: u32 = self.down.tick::<F>(a);
        let ghost mid = self.down;
        let dropped: u32 = self.down.tick::<F>(b);
        assert(fir_ticks::<F>(old(self).down, a, mid, y) && fir_ticks::<F>(
            mid,
            b,
            self.down,
            dropped,
        ));
        y
    }

    /// Forgets what was heard.
    pub fn reset(&mut self)
        requires
            old(self).wf(),
        ensures
            final(self).wf(),
            os_cleared(*old(self), *final(self)),
    {
        self.up.reset();
        self.down.reset();
    }
}

/// `after` is `before` with silent filters.
pub open spec fn os_cleared(before: Os2x, after: Os2x) -> bool {
    &&& after.up.taps == before.up.taps && after.down.taps == before.down.taps
    &&& after.up.line@ == silence(before.up.line@.len())
    &&& after.down.line@ == silence(before.down.line@.len())
}

/// `r` is a result of the clipping curve: `tanh(x)` from zero upwards,
/// `tanh(1.5 x) / 1.5` otherwise.
pub open spec fn shape_is<F: Arith>(x: u32, r: u32) -> bool {
    if at_least(x, ZERO) {
        tanh_is::<F>(x, r)
    } else {
        exists|s: u32, t: u32| #[trigger]
            product_is::<F>(ASYMMETRY, x, s) && #[trigger] tanh_is::<F>(s, t) && quotient_is::<F>(
                t,
                ASYMMETRY,
                r,
            )
    }
}

/// The clipping curve.
pub fn shape<F: Arith>(x: u32) -> (r: u32)
    ensures
        shape_is::<F>(x, r),
{
    if ge(x, ZERO) {
        F::tanh(x)
    } else {
        let s: u32 = F::times(ASYMMETRY, x);
        let t: u32 = F::tanh(s);
        assert(product_is::<F>(ASYMMETRY, x, s) && tanh_is::<F>(s, t));
        F::over(t, ASYMMETRY)
    }
}

/// Two samples are clipped and go down one stage.
pub open spec fn clips_down<F: Arith>(before: Os2x, a: u32, b: u32, after: Os2x, y: u32) -> bool {
    exists|c: u32, d: u32| #[trigger]
        shape_is::<F>(a, c) && #[trigger] shape_is::<F>(b, d) && goes_down::<F>(
            before,
            c,
            d,
            after,
            y,
        )
}

/// The four samples of one native sample in the inner stage: both outer
/// samples go up, and then both pairs are clipped and go down.
pub open spec fn inner_steps<F: Arith>(
    os: Os2x,
    a: u32,
    b: u32,
    after: Os2x,
    da: u32,
    db: u32,
) -> bool {
    exists|o1: Os2x, o2: Os2x, o3: Os2x, a1: u32, a2: u32, b1: u32, b2: u32|
        #![trigger goes_up::<F>(os, a, o1, a1, a2), goes_up::<F>(o1, b, o2, b1, b2), clips_down::<F>(o2, a1, a2, o3, da)]
        goes_up::<F>(os, a, o1, a1, a2) && goes_up::<F>(o1, b, o2, b1, b2) && clips_down::<F>(
            o2,
            a1,
            a2,
            o3,
            da,
        ) && clips_down::<F>(o3, b1, b2, after, db)
}

/// One native sample through the fourfold oversampled clipping.
pub open spec fn clipper_steps<F: Arith>(
    os1: Os2x,
    os2: Os2x,
    x: u32,
    os1_after: Os2x,
    os2_after: Os2x,
    y: u32,
) -> bool {
    exists|o1: Os2x, a: u32, b: u32, da: u32, db: u32|
        #![trigger goes_up::<F>(os1, x, o1, a, b), inner_steps::<F>(os2, a, b, os2_after, da, db)]
        goes_up::<F>(os1, x, o1, a, b) && inner_steps::<F>(os2, a, b, os2_after, da, db)
            && goes_down::<F>(o1, da, db, os1_after, y)
}

/// Clips two samples and takes them down one stage.
fn clip_down<F: Arith>(os: &mut Os2x, a: u32, b: u32) -> (y: u32)
    requires
        old(os).wf(),
    ensures
        final(os).wf(),
        clips_down::<F>(*old(os), a, b, *final(os), y),
{
    let c: u32 = shape::<F>(a);
    let d: u32 = shape::<F>(b);
    assert(shape_is::<F>(a, c) && shape_is::<F>(b, d));
    os.downsample::<F>(c, d)
}

/// Clips one native sample at four times the rate.
pub fn clipper<F: Arith>(os1: &mut Os2x, os2: &mut Os2x, x: u32) -> (y: u32)
    requires
        old(os1).wf(),
        old(os2).wf(),
    ensures
        final(os1).wf(),
        final(os2).wf(),
        clipper_steps::<F>(*old(os1), *old(os2), x, *final(os1), *final(os2), y),
{
    let (a, b) = os1.upsample::<F>(x);
    let ghost outer = *os1;
    let (a1, a2) = os2.upsample::<F>(a);
    let ghost o1 = *os2;
    let (b1, b2) = os2.upsample::<F>(b);
    let ghost o2 = *os2;
    let da: u32 = clip_down::<F>(os2, a1, a2);
    let ghost o3 = *os2;
    let db: u32 = clip_down::<F>(os2, b1, b2);
    let y: u32 = os1.downsample::<F>(da, db);
    proof {
        assert(goes_up::<F>(*old(os2), a, o1, a1, a2) && goes_up::<F>(o1, b, o2, b1, b2)
            && clips_down::<F>(o2, a1, a2, o3, da));
        assert(goes_up::<F>(*old(os1), x, outer, a, b) && inner_steps::<F>(
            *old(os2),
            a,
            b,
            *os2,
            da,
            db,
        ));
    }
    y
}

/// The distortion at work on a block.
pub struct DriveRun<F> {
    /// Gain before the clipping.
    pub pre: u32,
    /// Gain after it.
    pub makeup: u32,
    /// What the tone control keeps over one sample.
    pub lpf_a: u32,
    /// The coefficient of the high pass.
    pub hpf_a: u32,
    /// The last output of the high pass.
    pub hpf_y: u32,
    /// The last input of the high pass.
    pub hpf_x: u32,
    /// The last output of the tone control.
    pub lpf_y: u32,
    /// The outer oversampling stage.
    pub os1: Os2x,
    /// The inner oversampling stage.
    pub os2: Os2x,
    /// The arithmetic.
    pub arith: PhantomData<F>,
}

/// `r` is a result of `a * ((y + x) - x_before)`.
pub open spec fn high_pass_is<F: Arith>(a: u32, y: u32, x: u32, x_before: u32, r: u32) -> bool {
    exists|s: u32, d: u32| #[trigger]
        sum_is::<F>(y, x, s) && #[trigger] difference_is::<F>(s, x_before, d) && product_is::<F>(
            a,
            d,
            r,
        )
}

impl<F: Arith> Step for DriveRun<F> {
    open spec fn sound(&self) -> bool {
        self.os1.wf() && self.os2.wf()
    }

    open spec fn steps(&self, x: u32, after: Self, y: u32) -> bool {
        &&& after == DriveRun {
            hpf_y: after.hpf_y,
            hpf_x: x,
            lpf_y: after.lpf_y,
            os1: after.os1,
            os2: after.os2,
            ..*self
        }
        &&& high_pass_is::<F>(self.hpf_a, self.hpf_y, x, self.hpf_x, after.hpf_y)
        &&& exists|driven: u32, clipped: u32|
            #![trigger product_is::<F>(after.hpf_y, self.pre, driven), blend_is::<F>(self.lpf_a, self.lpf_y, clipped, after.lpf_y)]
            product_is::<F>(after.hpf_y, self.pre, driven) && clipper_steps::<F>(
                self.os1,
                self.os2,
                driven,
                after.os1,
                after.os2,
                clipped,
            ) && blend_is::<F>(self.lpf_a, self.lpf_y, clipped, after.lpf_y)
        &&& product_is::<F>(after.lpf_y, self.makeup, y)
    }

    fn step(&mut self, x: u32) -> (y: u32) {
        let s: u32 = F::plus(self.hpf_y, x);
        let d: u32 = F::minus(s, self.hpf_x);
        assert(sum_is::<F>(self.hpf_y, x, s) && difference_is::<F>(s, self.hpf_x, d));
        self.hpf_y = F::times(self.hpf_a, d);
        self.hpf_x = x;
        let driven: u32 = F::times(self.hpf_y, self.pre);
        let clipped: u32 = clipper::<F>(&mut self.os1, &mut self.os2, driven);
        self.lpf_y = blend::<F>(self.lpf_a, self.lpf_y, clipped);
        assert(product_is::<F>(self.hpf_y, self.pre, driven) && blend_is::<F>(
            old(self).lpf_a,
            old(self).lpf_y,
            clipped,
            self.lpf_y,
        ));
        F::times(self.lpf_y, self.makeup)
    }
}

/// `r` is a result of `exp(-2 pi * hz / sample_rate)`.
pub open spec fn corner_is<F: Arith>(sample_rate: u32, hz: u32, r: u32) -> bool {
    exists|w: u32, e: u32| #[trigger]
        product_is::<F>(negated(TAU), hz, w) && #[trigger] quotient_is::<F>(w, sample_rate, e)
            && exp_is::<F>(e, r)
}

/// `r` is a result of `10^(-db / 40)`.
pub open spec fn compensation_is<F: Arith>(db: u32, r: u32) -> bool {
    exists|e: u32| #[trigger]
        quotient_is::<F>(negated(db), HALF_SLOPE_DB, e) && exp10_is::<F>(e, r)
}

/// The distortion.
pub struct Drive<F> {
    /// Gain before the clipping, in decibels, 0 to 40.
    pub drive_db: SharedParam,
    /// Corner of the tone control, 800 to 8000 Hz.
    pub tone_hz: SharedParam,
    /// On above one half.
    pub enabled: SharedParam,
    /// The sample rate.
    pub sr: u32,
    /// The running state.
    pub run: DriveRun<F>,
}

impl<F: Arith> Drive<F> {
    /// `exp(-2 pi * hz / sample_rate)`, the coefficient of a one-pole filter.
    pub fn one_pole_coeff(sample_rate: u32, hz: u32) -> (r: u32)
        ensures
            corner_is::<F>(sample_rate, hz, r),
    {
        let w: u32 = F::times(neg(TAU), hz);
        let e: u32 = F::over(w, sample_rate);
        assert(product_is::<F>(negated(TAU), hz, w) && quotient_is::<F>(w, sample_rate, e));
        F::exp(e)
    }

    /// As it is made: both stages with fresh halfband filters, everything else at rest.
    pub open spec fn untouched(&self) -> bool {
        let run = self.run;
        &&& self.sr == DEFAULT_RATE
        &&& run.os1.fresh::<F>() && run.os2.fresh::<F>()
        &&& run.hpf_y == ZERO && run.hpf_x == ZERO && run.lpf_y == ZERO && run.hpf_a == ZERO
        &&& run.pre == ZERO && run.makeup == ZERO && run.lpf_a == ZERO
    }

    /// A distortion that follows the three parameters.
    pub fn new(drive_db: SharedParam, tone_hz: SharedParam, enabled: SharedParam) -> (r: Self)
        ensures
            r.drive_db == drive_db,
            r.tone_hz == tone_hz,
            r.enabled == enabled,
            r.wf(),
            r.untouched(),
    {
        Drive {
            drive_db,
            tone_hz,
            enabled,
            sr: DEFAULT_RATE,
            run: DriveRun {
                pre: ZERO,
                makeup: ZERO,
                lpf_a: ZERO,
                hpf_a: ZERO,
                hpf_y: ZERO,
                hpf_x: ZERO,
                lpf_y: ZERO,
                os1: Os2x::new::<F>(),
                os2: Os2x::new::<F>(),
                arith: PhantomData,
            },
        }
    }

    /// A block at given parameter values: handed through if switched off, and
    /// otherwise run with the gains and the tone that they set. The drive is
    /// looked up twice, once for each gain.
    pub open spec fn processed_with(
        &self,
        enabled: u32,
        drive_in: u32,
        drive_out: u32,
        tone_hz: u32,
        input: Seq<u32>,
        after: Self,
        output: Seq<u32>,
    ) -> bool {
        let s = after.run;
        &&& after == Drive { run: after.run, ..*self }
        &&& if is_off(enabled) {
            after.run == self.run && output == input
        } else {
            &&& factor_is::<F>(drive_in, s.pre)
            &&& compensation_is::<F>(drive_out, s.makeup)
            &&& corner_is::<F>(self.sr, clamped(tone_hz, DARKEST_HZ, BRIGHTEST_HZ), s.lpf_a)
            &&& runs(
                stepping::<DriveRun<F>>(),
                DriveRun { pre: s.pre, makeup: s.makeup, lpf_a: s.lpf_a, ..self.run },
                input,
                s,
                output,
            )
        }
    }

    /// One block at given parameter values.
    pub fn process_with(
        &mut self,
        enabled: u32,
        drive_in: u32,
        drive_out: u32,
        tone_hz: u32,
        buf: &mut [u32],
    )
        requires
            old(self).wf(),
        ensures
            final(self).wf(),
            final(buf)@.len() == old(buf)@.len(),
            old(self).processed_with(
                enabled,
                drive_in,
                drive_out,
                tone_hz,
                old(buf)@,
                *final(self),
                final(buf)@,
            ),
    {
        if off(enabled) {
            return;
        }
        let pre: u32 = factor::<F>(drive_in);
        let e: u32 = F::over(neg(drive_out), HALF_SLOPE_DB);
        let makeup: u32 = F::exp10(e);
        assert(quotient_is::<F>(negated(drive_out), HALF_SLOPE_DB, e));
        let lpf_a: u32 = Self::one_pole_coeff(self.sr, clamp(tone_hz, DARKEST_HZ, BRIGHTEST_HZ));
        self.run.pre = pre;
        self.run.makeup = makeup;
        self.run.lpf_a = lpf_a;
        let ghost begin = self.run;
        run_block(&mut self.run, buf);
        proof {
            run_keeps(
                stepping::<DriveRun<F>>(),
                |r: DriveRun<F>| r.pre == pre && r.makeup == makeup && r.lpf_a == lpf_a,
                begin,
                old(buf)@,
                self.run,
                buf@,
            );
        }
    }
}

impl<F: Arith> AudioProcessor for Drive<F> {
    open spec fn wf(&self) -> bool {
        self.run.sound()
    }

    open spec fn accepts(&self, n: nat) -> bool {
        true
    }

    open spec fn resettable(&self) -> bool {
        true
    }

    /// The high pass is tuned to the rate and the past is forgotten.
    open spec fn prepared(&self, sample_rate: u32, max_block: usize, after: Self) -> bool {
        &&& corner_is::<F>(sample_rate, LOW_CUT_HZ, after.run.hpf_a)
        &&& drive_cleared(
            Drive {
                sr: sample_rate,
                run: DriveRun { hpf_a: after.run.hpf_a, ..self.run },
                ..*self
            },
            after,
        )
    }

    /// As at some values that the parameters had.
    open spec fn processed(&self, input: Seq<u32>, after: Self, output: Seq<u32>) -> bool {
        exists|enabled: u32, drive_in: u32, drive_out: u32, tone_hz: u32| #[trigger]
            self.processed_with(enabled, drive_in, drive_out, tone_hz, input, after, output)
                && read_is(self.enabled, enabled) && read_is(self.drive_db, drive_in) && read_is(
                self.drive_db,
                drive_out,
            ) && read_is(self.tone_hz, tone_hz)
    }

    open spec fn cleared(&self, after: Self) -> bool {
        drive_cleared(*self, after)
    }

    fn prepare(&mut self, sample_rate: u32, _max_block: usize) {
        self.sr = sample_rate;
        self.run.hpf_a = Self::one_pole_coeff(sample_rate, LOW_CUT_HZ);
        self.reset();
    }

    fn process(&mut self, buf: &mut [u32]) {
        let enabled: u32 = read(&self.enabled);
        let drive_in: u32 = read(&self.drive_db);
        let drive_out: u32 = read(&self.drive_db);
        let tone_hz: u32 = read(&self.tone_hz);
        self.process_with(enabled, drive_in, drive_out, tone_hz, buf);
    }

    fn reset(&mut self) {
        self.run.os1.reset();
        self.run.os2.reset();
        self.run.hpf_y = ZERO;
        self.run.hpf_x = ZERO;
        self.run.lpf_y = ZERO;
    }
}

/// `after` is `before` with all filter memories silent.
pub open spec fn drive_cleared<F>(before: Drive<F>, after: Drive<F>) -> bool {
    &&& os_cleared(before.run.os1, after.run.os1)
    &&& os_cleared(before.run.os2, after.run.os2)
    &&& after == Drive {
        run: DriveRun {
            hpf_y: ZERO,
            hpf_x: ZERO,
            lpf_y: ZERO,
            os1: after.run.os1,
            os2: after.run.os2,
            ..before.run
        },
        ..before
    }
}

/// A distortion that is switched off hands the signal through and keeps its
/// state.
pub proof fn disabled_drive_is_identity<F: Arith>(
    drive: Drive<F>,
    enabled: u32,
    drive_in: u32,
    drive_out: u32,
    tone_hz: u32,
    input: Seq<u32>,
    after: Drive<F>,
    output: Seq<u32>,
)
    requires
        drive.processed_with(enabled, drive_in, drive_out, tone_hz, input, after, output),
        is_off(enabled),
    ensures
        output == input,
        after == drive,
{
}

/// Two filters with the same response, and room for the same past.
pub open spec fn same_response(a: Fir, b: Fir) -> bool {
    a.taps == b.taps && a.line@.len() == b.line@.len()
}

/// Two oversampling stages with the same filters.
pub open spec fn same_filters(a: Os2x, b: Os2x) -> bool {
    same_response(a.up, b.up) && same_response(a.down, b.down)
}

/// However much was played, a reset leaves the distortion as `prepare` did, but
/// for what every block sets anew: the two gains and the tone. All filters hold
/// silence and have the responses that they had.
pub proof fn reset_drive_is_as_prepared<F: Arith>(
    drive: Drive<F>,
    sample_rate: u32,
    max_block: usize,
    trace: Seq<Drive<F>>,
    reset: Drive<F>,
)
    requires
        plays(trace),
        drive.prepared(sample_rate, max_block, trace[0]),
        trace[0].wf(),
        trace.last().cleared(reset),
    ensures
        reset == (Drive {
            run: DriveRun {
                pre: reset.run.pre,
                makeup: reset.run.makeup,
                lpf_a: reset.run.lpf_a,
                os1: reset.run.os1,
                os2: reset.run.os2,
                ..trace[0].run
            },
            ..trace[0]
        }),
        os_cleared(trace[0].run.os1, reset.run.os1),
        os_cleared(trace[0].run.os2, reset.run.os2),
{
    let fresh = trace[0];
    let tuned = |r: DriveRun<F>|
        {
            &&& r.hpf_a == fresh.run.hpf_a && r.arith == fresh.run.arith
            &&& same_filters(fresh.run.os1, r.os1)
            &&& same_filters(fresh.run.os2, r.os2)
        };
    let kept = |d: Drive<F>| d == (Drive { run: d.run, ..fresh }) && tuned(d.run);
    assert forall|a: Drive<F>, input: Seq<u32>, b: Drive<F>, output: Seq<u32>|
        kept(a) && #[trigger] a.processed(input, b, output) implies kept(b) by {
        let (enabled, drive_in, drive_out, tone_hz) = choose|
            enabled: u32,
            drive_in: u32,
            drive_out: u32,
            tone_hz: u32,
        | #[trigger]
            a.processed_with(enabled, drive_in, drive_out, tone_hz, input, b, output);
        if !is_off(enabled) {
            let begin = DriveRun {
                pre: b.run.pre,
                makeup: b.run.makeup,
                lpf_a: b.run.lpf_a,
                ..a.run
            };
            run_keeps(stepping::<DriveRun<F>>(), tuned, begin, input, b.run, output);
        }
    }
    playing_keeps(trace, kept);
}

/// Two oversampling stages with the same filters that have heard the same.
pub open spec fn same_stage(a: Os2x, b: Os2x) -> bool {
    &&& a.up.taps == b.up.taps && a.up.line@ == b.up.line@
    &&& a.down.taps == b.down.taps && a.down.line@ == b.down.line@
}

/// What one stage does on the way up, one that is the same can do.
proof fn same_stage_goes_up<F: Arith>(
    ours: Os2x,
    theirs: Os2x,
    x: u32,
    after: Os2x,
    a: u32,
    b: u32,
)
    requires
        same_stage(ours, theirs),
        goes_up::<F>(theirs, x, after, a, b),
    ensures
        goes_up::<F>(ours, x, Os2x { up: after.up, down: ours.down }, a, b),
        same_stage(Os2x { up: after.up, down: ours.down }, after),
{
    let (mid, p, q) = choose|mid: Fir, p: u32, q: u32|
        #![trigger fir_ticks::<F>(theirs.up, x, mid, p), fir_ticks::<F>(mid, ZERO, after.up, q)]
        fir_ticks::<F>(theirs.up, x, mid, p) && fir_ticks::<F>(mid, ZERO, after.up, q)
            && product_is::<F>(TWO, p, a) && product_is::<F>(TWO, q, b);
    let next = Os2x { up: after.up, down: ours.down };
    assert(fir_ticks::<F>(ours.up, x, mid, p) && fir_ticks::<F>(mid, ZERO, next.up, q));
    assert(goes_up::<F>(ours, x, next, a, b));
}

/// What one stage does on the way down, one that is the same can do.
proof fn same_stage_goes_down<F: Arith>(
    ours: Os2x,
    theirs: Os2x,
    a: u32,
    b: u32,
    after: Os2x,
    y: u32,
)
    requires
        same_stage(ours, theirs),
        goes_down::<F>(theirs, a, b, after, y),
    ensures
        goes_down::<F>(ours, a, b, Os2x { up: ours.up, down: after.down }, y),
        same_stage(Os2x { up: ours.up, down: after.down }, after),
{
    let (mid, dropped) = choose|mid: Fir, dropped: u32|
        #![trigger fir_ticks::<F>(theirs.down, a, mid, y), fir_ticks::<F>(mid, b, after.down, dropped)]
        fir_ticks::<F>(theirs.down, a, mid, y) && fir_ticks::<F>(mid, b, after.down, dropped);
    let next = Os2x { up: ours.up, down: after.down };
    assert(fir_ticks::<F>(ours.down, a, mid, y) && fir_ticks::<F>(mid, b, next.down, dropped));
    assert(goes_down::<F>(ours, a, b, next, y));
}

/// What one stage clips, one that is the same can clip.
proof fn same_stage_clips_down<F: Arith>(
    ours: Os2x,
    theirs: Os2x,
    a: u32,
    b: u32,
    after: Os2x,
    y: u32,
)
    requires
        same_stage(ours, theirs),
        clips_down::<F>(theirs, a, b, after, y),
    ensures
        clips_down::<F>(ours, a, b, Os2x { up: ours.up, down: after.down }, y),
        same_stage(Os2x { up: ours.up, down: after.down }, after),
        after.up == theirs.up,
{
    let (c, d) = choose|c: u32, d: u32| #[trigger]
        shape_is::<F>(a, c) && #[trigger] shape_is::<F>(b, d) && goes_down::<F>(
            theirs,
            c,
            d,
            after,
            y,
        );
    same_stage_goes_down::<F>(ours, theirs, c, d, after, y);
    assert(shape_is::<F>(a, c) && shape_is::<F>(b, d));
}

/// Stages that are the same clip a sample the same way, and end up in one state.
proof fn same_stages_clip_alike<F: Arith>(
    ours1: Os2x,
    ours2: Os2x,
    theirs1: Os2x,
    theirs2: Os2x,
    x: u32,
    after1: Os2x,
    after2: Os2x,
    y: u32,
)
    requires
        same_stage(ours1, theirs1),
        same_stage(ours2, theirs2),
        clipper_steps::<F>(theirs1, theirs2, x, after1, after2, y),
    ensures
        clipper_steps::<F>(ours1, ours2, x, after1, after2, y),
{
    let (o, a, b, da, db) = choose|o: Os2x, a: u32, b: u32, da: u32, db: u32|
        #![trigger goes_up::<F>(theirs1, x, o, a, b), inner_steps::<F>(theirs2, a, b, after2, da, db)]
        goes_up::<F>(theirs1, x, o, a, b) && inner_steps::<F>(theirs2, a, b, after2, da, db)
            && goes_down::<F>(o, da, db, after1, y);
    let (o1, o2, o3, a1, a2, b1, b2) = choose|
        o1: Os2x,
        o2: Os2x,
        o3: Os2x,
        a1: u32,
        a2: u32,
        b1: u32,
        b2: u32,
    |
        #![trigger goes_up::<F>(theirs2, a, o1, a1, a2), goes_up::<F>(o1, b, o2, b1, b2), clips_down::<F>(o2, a1, a2, o3, da)]
        goes_up::<F>(theirs2, a, o1, a1, a2) && goes_up::<F>(o1, b, o2, b1, b2) && clips_down::<F>(
            o2,
            a1,
            a2,
            o3,
            da,
        ) && clips_down::<F>(o3, b1, b2, after2, db);
    same_stage_goes_up::<F>(ours2, theirs2, a, o1, a1, a2);
    let p1 = Os2x { up: o1.up, down: ours2.down };
    same_stage_goes_up::<F>(p1, o1, b, o2, b1, b2);
    let p2 = Os2x { up: o2.up, down: p1.down };
    same_stage_clips_down::<F>(p2, o2, a1, a2, o3, da);
    let p3 = Os2x { up: p2.up, down: o3.down };
    same_stage_clips_down::<F>(p3, o3, b1, b2, after2, db);
    assert(Os2x { up: p3.up, down: after2.down } == after2);
    assert(inner_steps::<F>(ours2, a, b, after2, da, db));
    same_stage_goes_up::<F>(ours1, theirs1, x, o, a, b);
    let p = Os2x { up: o.up, down: ours1.down };
    same_stage_goes_down::<F>(p, o, da, db, after1, y);
    assert(Os2x { up: p.up, down: after1.down } == after1);
    assert(goes_up::<F>(ours1, x, p, a, b) && inner_steps::<F>(ours2, a, b, after2, da, db));
}

/// Two states of a distortion that sound the same. The gains and the tone, which
/// every block sets anew, may differ.
pub open spec fn distorts_same<F>(a: Drive<F>, b: Drive<F>) -> bool {
    &&& same_stage(a.run.os1, b.run.os1)
    &&& same_stage(a.run.os2, b.run.os2)
    &&& b == (Drive {
        run: DriveRun {
            pre: b.run.pre,
            makeup: b.run.makeup,
            lpf_a: b.run.lpf_a,
            os1: b.run.os1,
            os2: b.run.os2,
            ..a.run
        },
        ..a
    })
}

/// States that sound the same, with the same gains and tone, can make the same step.
proof fn same_drive_same_step<F: Arith>(
    a: DriveRun<F>,
    b: DriveRun<F>,
    x: u32,
    after: DriveRun<F>,
    y: u32,
)
    requires
        same_stage(a.os1, b.os1),
        same_stage(a.os2, b.os2),
        b == (DriveRun { os1: b.os1, os2: b.os2, ..a }),
        b.steps(x, after, y),
    ensures
        a.steps(x, after, y),
{
    let (driven, clipped) = choose|driven: u32, clipped: u32|
        #![trigger product_is::<F>(after.hpf_y, b.pre, driven), blend_is::<F>(b.lpf_a, b.lpf_y, clipped, after.lpf_y)]
        product_is::<F>(after.hpf_y, b.pre, driven) && clipper_steps::<F>(
            b.os1,
            b.os2,
            driven,
            after.os1,
            after.os2,
            clipped,
        ) && blend_is::<F>(b.lpf_a, b.lpf_y, clipped, after.lpf_y);
    same_stages_clip_alike::<F>(
        a.os1,
        a.os2,
        b.os1,
        b.os2,
        driven,
        after.os1,
        after.os2,
        clipped,
    );
    assert(product_is::<F>(after.hpf_y, a.pre, driven) && blend_is::<F>(
        a.lpf_a,
        a.lpf_y,
        clipped,
        after.lpf_y,
    ));
}

/// What one distortion makes of a block, another that sounds the same can make of it
/// too, and they sound the same again.
proof fn same_drive_same_block<F: Arith>(
    a: Drive<F>,
    b: Drive<F>,
    input: Seq<u32>,
    after: Drive<F>,
    output: Seq<u32>,
)
    requires
        distorts_same(a, b),
        b.processed(input, after, output),
    ensures
        exists|next: Drive<F>| #[trigger]
            a.processed(input, next, output) && distorts_same(next, after),
{
    let (enabled, drive_in, drive_out, tone_hz) = choose|
        enabled: u32,
        drive_in: u32,
        drive_out: u32,
        tone_hz: u32,
    | #[trigger]
        b.processed_with(enabled, drive_in, drive_out, tone_hz, input, after, output) && read_is(
            b.enabled,
            enabled,
        ) && read_is(b.drive_db, drive_in) && read_is(b.drive_db, drive_out) && read_is(
            b.tone_hz,
            tone_hz,
        );
    if is_off(enabled) {
        assert(a.processed_with(enabled, drive_in, drive_out, tone_hz, input, a, output));
        assert(a.processed(input, a, output));
    } else {
        let s = after.run;
        let ours = DriveRun { pre: s.pre, makeup: s.makeup, lpf_a: s.lpf_a, ..a.run };
        let theirs = DriveRun { pre: s.pre, makeup: s.makeup, lpf_a: s.lpf_a, ..b.run };
        let step = stepping::<DriveRun<F>>();
        let trace = choose|trace: Seq<DriveRun<F>>| #[trigger]
            traces(step, theirs, input, s, output, trace);
        if input.len() == 0 {
            let next = Drive { run: ours, ..a };
            assert(traces(step, ours, input, ours, output, seq![ours]));
            assert(a.processed_with(enabled, drive_in, drive_out, tone_hz, input, next, output));
            assert(a.processed(input, next, output));
        } else {
            let other = trace.update(0, ours);
            assert(step(trace[0], input[0], trace[0int + 1], output[0]));
            same_drive_same_step(ours, theirs, input[0], trace[1], output[0]);
            assert forall|i: int|
                #![trigger other[i], input[i]]
                0 <= i < input.len() implies step(other[i], input[i], other[i + 1], output[i]) by {
                assert(step(trace[i], input[i], trace[i + 1], output[i]));
            }
            assert(traces(step, ours, input, s, output, other));
            assert(a.processed_with(enabled, drive_in, drive_out, tone_hz, input, after, output));
            assert(a.processed(input, after, output));
        }
    }
}

/// Whatever a distortion that was reset makes of the blocks that follow, it could have
/// made right after `prepare`.
pub proof fn reset_drive_plays_as_prepared<F: Arith>(
    drive: Drive<F>,
    sample_rate: u32,
    max_block: usize,
    trace: Seq<Drive<F>>,
    reset: Drive<F>,
    units: Seq<Drive<F>>,
    inputs: Seq<Seq<u32>>,
    outputs: Seq<Seq<u32>>,
)
    requires
        plays(trace),
        drive.prepared(sample_rate, max_block, trace[0]),
        trace[0].wf(),
        trace.last().cleared(reset),
        performs(units, inputs, outputs),
        units[0] == reset,
    ensures
        exists|fresh: Seq<Drive<F>>| #[trigger]
            performs(fresh, inputs, outputs) && fresh[0] == trace[0],
{
    reset_drive_is_as_prepared(drive, sample_rate, max_block, trace, reset);
    let alike = |a: Drive<F>, b: Drive<F>| distorts_same(a, b);
    assert(distorts_same(trace[0], reset));
    assert forall|x: Drive<F>, y: Drive<F>, input: Seq<u32>, after: Drive<F>, output: Seq<u32>|
        #![trigger matches_step(alike, x, input, after, output), y.processed(input, after, output)]
        alike(x, y) && y.processed(input, after, output) implies matches_step(
        alike,
        x,
        input,
        after,
        output,
    ) by {
        same_drive_same_block(x, y, input, after, output);
        let next = choose|next: Drive<F>| #[trigger]
            x.processed(input, next, output) && distorts_same(next, after);
        assert(x.processed(input, next, output) && alike(next, after));
    }
    alike_units_perform_alike(alike, trace[0], units, inputs, outputs);
}

/// What every hyperbolic tangent has: it keeps the sign, lies between minus one and one
/// and no further from zero than its argument, and is not flat around zero.
pub open spec fn saturates<F: Arith>() -> bool {
    forall|s: u32, t: u32|
        !not_a_number(s) && #[trigger] tanh_is::<F>(s, t) ==> {
            &&& !not_a_number(t)
            &&& rank(s) >= 0 ==> 0 <= rank(t) <= rank(s) && rank(t) <= rank(ONE)
            &&& rank(s) <= 0 ==> rank(s) <= rank(t) <= 0 && -rank(ONE) <= rank(t)
            &&& 0 <= rank(s) <= rank(ONE) ==> 2 * units(t) >= units(s)
            &&& -rank(ONE) <= rank(s) <= 0 ==> 2 * units(t) <= units(s)
            &&& rank(s) >= rank(ONE) ==> 2 * units(t) >= one()
            &&& rank(s) <= -rank(ONE) ==> 2 * units(t) <= -one()
        }
}

/// The clipping curve keeps the sign: what is positive comes out positive and at most
/// one, what is negative comes out negative and not below minus two thirds, so that the
/// negative half saturates earlier. Only next to zero may a sample vanish.
pub proof fn clipping_keeps_the_sign<F: Arith>(x: u32, r: u32)
    requires
        faithful::<F>(),
        saturates::<F>(),
        finite(x),
        shape_is::<F>(x, r),
    ensures
        finite(r),
        rank(x) >= 0 ==> 0 <= rank(r) <= rank(ONE) && rank(r) <= rank(x),
        rank(x) > 0 ==> rank(r) > 0,
        rank(x) <= 0 ==> rank(r) <= 0,
        units(x) <= -4 ==> rank(r) < 0,
        rank(x) <= 0 ==> forall|c: u32| #[trigger]
            finite(c) && 3 * units(c) <= -2 * one() ==> rank(c) <= rank(r),
{
    units_of_one();
    units_of_three_halves();
    units_follow_the_order(x, ZERO);
    units_follow_the_order(r, ZERO);
    units_follow_the_order(negated(ONE), ZERO);
    if at_least(x, ZERO) {
        assert forall|c: u32| rank(x) <= 0 && #[trigger] finite(c) && 3 * units(c) <= -2
            * one() implies rank(c) <= rank(r) by {
            units_follow_the_order(c, ZERO);
        }
    } else {
        let (s, t) = choose|s: u32, t: u32| #[trigger]
            product_is::<F>(ASYMMETRY, x, s) && #[trigger] tanh_is::<F>(s, t) && quotient_is::<F>(
                t,
                ASYMMETRY,
                r,
            );
        let (a, ux) = (units(ASYMMETRY), units(x));
        positive_factors_keep_the_sign::<F>(x, ASYMMETRY, s);
        between_is_finite(negated(ONE), t, ZERO);
        positive_factors_keep_the_sign::<F>(t, ASYMMETRY, r);
        assert(a * ux <= ux * one()) by (nonlinear_arith)
            requires
                2 * a == 3 * one(),
                ux <= 0,
                one() > 0,
        ;
        rounds_below(a * ux, one(), s, x);
        units_follow_the_order(s, negated(ONE));
        units_follow_the_order(s, ZERO);
        let ut = units(t);
        assert(-one() * a <= ut * one() <= 0) by (nonlinear_arith)
            requires
                -one() <= ut <= 0,
                2 * a == 3 * one(),
                one() > 0,
        ;
        rounds_above(ut * one(), a, r, negated(ONE));
        between_is_finite(negated(ONE), r, ZERO);
        if ux <= -4 {
            assert(2 * ut <= ux || 2 * ut <= -one());
            one_is_large();
            let least = 0x8000_0001u32;
            assert(units(least) == -1 && finite(least));
            assert(ut * one() <= -1 * a) by (nonlinear_arith)
                requires
                    ut <= -2,
                    2 * a == 3 * one(),
                    one() > 0,
            ;
            rounds_below(ut * one(), a, r, least);
        }
        assert forall|c: u32| #[trigger] finite(c) && 3 * units(c) <= -2 * one() implies rank(c)
            <= rank(r) by {
            let uc = units(c);
            assert(uc * a <= ut * one()) by (nonlinear_arith)
                requires
                    3 * uc <= -2 * one(),
                    -one() <= ut,
                    2 * a == 3 * one(),
                    one() > 0,
            ;
            rounds_above(ut * one(), a, r, c);
        }
    }
}

/// One is worth more than a few of the smallest numbers.
proof fn one_is_large()
    ensures
        one() >= 8,
{
    units_follow_the_order(8u32, ONE);
    assert(units(8u32) == 8);
}

/// Whether an operation on one number keeps the order.
pub open spec fn in_order(op: spec_fn(u32, u32) -> bool) -> bool {
    forall|a: u32, b: u32, r: u32, s: u32|
        !not_a_number(a) && !not_a_number(b) && rank(a) <= rank(b) && #[trigger] op(a, r)
            && #[trigger] op(b, s) ==> rank(r) <= rank(s)
}

/// Louder samples come out louder: the clipping curve keeps the order of samples wherever
/// its three operations do.
pub proof fn clipping_keeps_the_order<F: Arith>(x: u32, y: u32, r: u32, s: u32)
    requires
        faithful::<F>(),
        saturates::<F>(),
        in_order(|a: u32, t: u32| tanh_is::<F>(a, t)),
        in_order(|a: u32, t: u32| product_is::<F>(ASYMMETRY, a, t)),
        in_order(|a: u32, t: u32| quotient_is::<F>(a, ASYMMETRY, t)),
        finite(x) && finite(y),
        rank(x) <= rank(y),
        shape_is::<F>(x, r),
        shape_is::<F>(y, s),
    ensures
        rank(r) <= rank(s),
{
    let curve = |a: u32, t: u32| tanh_is::<F>(a, t);
    let up = |a: u32, t: u32| product_is::<F>(ASYMMETRY, a, t);
    let down = |a: u32, t: u32| quotient_is::<F>(a, ASYMMETRY, t);
    clipping_keeps_the_sign::<F>(x, r);
    clipping_keeps_the_sign::<F>(y, s);
    if at_least(x, ZERO) && at_least(y, ZERO) {
        assert(curve(x, r) && curve(y, s));
    } else if !at_least(x, ZERO) && !at_least(y, ZERO) {
        let (s1, t1) = choose|s1: u32, t1: u32| #[trigger]
            product_is::<F>(ASYMMETRY, x, s1) && #[trigger] tanh_is::<F>(s1, t1) && quotient_is::<
                F,
            >(t1, ASYMMETRY, r);
        let (s2, t2) = choose|s2: u32, t2: u32| #[trigger]
            product_is::<F>(ASYMMETRY, y, s2) && #[trigger] tanh_is::<F>(s2, t2) && quotient_is::<
                F,
            >(t2, ASYMMETRY, s);
        units_of_three_halves();
        units_of_one();
        positive_factors_keep_the_sign::<F>(x, ASYMMETRY, s1);
        positive_factors_keep_the_sign::<F>(y, ASYMMETRY, s2);
        assert(up(x, s1) && up(y, s2));
        assert(curve(s1, t1) && curve(s2, t2));
        assert(down(t1, r) && down(t2, s));
    }
}

/// `firs` are the states of a filter that turns each of `input` into that of `output` at
/// its place.
pub open spec fn fir_runs<F: Arith>(firs: Seq<Fir>, input: Seq<u32>, output: Seq<u32>) -> bool {
    &&& firs.len() == input.len() + 1
    &&& output.len() == input.len()
    &&& forall|i: int|
        #![trigger firs[i]]
        0 <= i < input.len() ==> fir_ticks::<F>(firs[i], input[i], firs[i + 1], output[i])
}

/// A filter answers an impulse with its taps, one after the other: a filter that has
/// heard nothing, fed with one sample and then silence, gives that sample times tap `k`
/// at place `k`, and silence once the taps are through.
pub proof fn filter_answers_with_its_taps<F: Arith>(
    firs: Seq<Fir>,
    input: Seq<u32>,
    output: Seq<u32>,
    k: int,
)
    requires
        faithful::<F>(),
        fir_runs::<F>(firs, input, output),
        firs[0].line@ == silence(firs[0].taps@.len()),
        only_at(input, 0),
        finite(input[0]) && -one() <= units(input[0]) <= one(),
        forall|j: int| 0 <= j < firs[0].taps@.len() ==> finite(#[trigger] firs[0].taps@[j]),
        0 <= k < input.len(),
    ensures
        k < firs[0].taps@.len() ==> exists|p: u32| #[trigger]
            product_is::<F>(firs[0].taps@[k], input[0], p) && same(output[k], p),
        k >= firs[0].taps@.len() > 0 ==> same(output[k], ZERO),
{
    let n = firs[0].taps@.len();
    fir_hears::<F>(firs, input, output, k);
    assert(fir_ticks::<F>(firs[k], input[k], firs[k + 1], output[k]));
    fir_hears::<F>(firs, input, output, k + 1);
    let past = firs[k + 1].line@.reverse();
    if k < n {
        assert(only_at(past, k));
        assert(past[k] == input[0]);
        dot_with_one_term::<F>(firs[0].taps@, past, k, output[k]);
    } else if n > 0 {
        assert(only_at(past, 0) && past[0] == ZERO);
        units_of_one();
        dot_with_one_term::<F>(firs[0].taps@, past, 0, output[k]);
        let p = choose|p: u32| #[trigger]
            product_is::<F>(firs[0].taps@[0], past[0], p) && same(output[k], p);
        crate::number::product_with_zero::<F>(firs[0].taps@[0], past[0], p);
    }
}

/// What a filter has heard after `k` samples, the first of them an impulse.
proof fn fir_hears<F: Arith>(firs: Seq<Fir>, input: Seq<u32>, output: Seq<u32>, k: int)
    requires
        fir_runs::<F>(firs, input, output),
        firs[0].line@ == silence(firs[0].taps@.len()),
        only_at(input, 0),
        0 <= k <= input.len(),
    ensures
        firs[k].taps == firs[0].taps,
        firs[0].taps@.len() > 0 ==> firs[k].line@.len() == firs[0].taps@.len(),
        firs[0].taps@.len() > 0 ==> forall|j: int|
            0 <= j < firs[k].line@.len() ==> #[trigger] firs[k].line@[j] == if j
                == firs[0].taps@.len() - k && k > 0 {
                input[0]
            } else {
                ZERO
            },
    decreases k,
{
    if k > 0 {
        fir_hears::<F>(firs, input, output, k - 1);
        assert(fir_ticks::<F>(firs[k - 1], input[k - 1], firs[k - 1 + 1], output[k - 1]));
    }
}

/// The drive lifts the level before the clipping and takes half of the lift back, in
/// decibels, behind it: the gain before is the power of ten of a twentieth of the drive, the
/// gain behind that of minus a fortieth. Without drive both are one.
pub proof fn drive_is_compensated<F: Arith>(
    drive: Drive<F>,
    enabled: u32,
    db: u32,
    tone_hz: u32,
    input: Seq<u32>,
    after: Drive<F>,
    output: Seq<u32>,
)
    requires
        faithful::<F>(),
        raises_ten::<F>(),
        drive.processed_with(enabled, db, db, tone_hz, input, after, output),
        !is_off(enabled),
        finite(db),
    ensures
        exists|e: u32| #[trigger] exp10_is::<F>(e, after.run.pre) && rounds(units(db), 20, e),
        exists|e: u32| #[trigger] exp10_is::<F>(e, after.run.makeup) && rounds(-units(db), 40, e),
        units(db) == 0 ==> same(after.run.pre, ONE) && same(after.run.makeup, ONE),
        units(db) >= 0 ==> rank(after.run.makeup) <= rank(ONE) <= rank(after.run.pre),
{
    units_of_one();
    units_of_decades();
    levels_are_powers_of_ten::<F>(db, after.run.pre);
    let e = choose|e: u32| #[trigger]
        quotient_is::<F>(negated(db), HALF_SLOPE_DB, e) && exp10_is::<F>(e, after.run.makeup);
    units_of_negated(db);
    rounds_scales(-units(db), 40, one(), e);
    small_quotients_are_finite::<F>(negated(db), HALF_SLOPE_DB, e);
    units_follow_the_order(e, ZERO);
    assert(exp10_is::<F>(e, after.run.makeup));
}

/// `r` is the coefficient of a filter with its corner at `hz`: the exponential of minus a
/// full turn times the frequency over the sample rate, next to it at every step.
pub open spec fn corner_at<F: Arith>(sr: u32, hz: u32, r: u32) -> bool {
    exists|w: u32, e: u32|
        #![trigger rounds(-(units(TAU) * units(hz)), one(), w), exp_is::<F>(e, r)]
        rounds(-(units(TAU) * units(hz)), one(), w) && rounds(units(w) * one(), units(sr), e)
            && exp_is::<F>(e, r)
}

/// The filters of the distortion have their corners where they are asked for: the low cut
/// at 120 Hz, the tone control where it is turned to, within 800 to 8000 Hz.
pub proof fn filters_have_their_corners<F: Arith>(sr: u32, hz: u32, r: u32)
    requires
        faithful::<F>(),
        corner_is::<F>(sr, hz, r),
        finite(sr) && one() <= units(sr),
        finite(hz) && 0 <= units(hz) <= 8000 * one(),
    ensures
        corner_at::<F>(sr, hz, r),
        units(LOW_CUT_HZ) == 120 * one() && units(DARKEST_HZ) == 800 * one() && units(BRIGHTEST_HZ)
            == 8000 * one(),
{
    units_of_one();
    crate::number::units_of_four();
    whole_numbers_are_numbers(120);
    whole_numbers_are_numbers(800);
    whole_numbers_are_numbers(8000);
    whole_numbers_are_numbers(64000);
    reveal_with_fuel(whole, 24);
    assert(whole(120) == LOW_CUT_HZ && whole(800) == DARKEST_HZ && whole(8000) == BRIGHTEST_HZ);
    let (w, e) = choose|w: u32, e: u32| #[trigger]
        product_is::<F>(negated(TAU), hz, w) && #[trigger] quotient_is::<F>(w, sr, e) && exp_is::<
            F,
        >(e, r);
    units_of_negated(TAU);
    let most = negated(whole(64000));
    units_of_negated(whole(64000));
    units_follow_the_order(TAU, ZERO);
    units_follow_the_order(TAU, 0x4100_0000u32);
    let (t, h) = (units(TAU), units(hz));
    assert(-t * h == -(t * h)) by (nonlinear_arith);
    assert(-(64000 * one()) * one() <= -(t * h) <= 0) by (nonlinear_arith)
        requires
            0 <= t <= 8 * one(),
            0 <= h <= 8000 * one(),
            one() > 0,
    ;
    rounds_above(-(t * h), one(), w, most);
    rounds_below(-(t * h), one(), w, ZERO);
    between_is_finite(most, w, ZERO);
    assert(rounds(-(t * h), one(), w) && exp_is::<F>(e, r));
}

/// The low cut forgets a steady level: while the same sample keeps coming in, what it gives
/// falls towards zero, wherever the sums that come up are numbers; and a jump passes it,
/// less what the coefficient takes.
pub proof fn low_cut_forgets_a_steady_level<F: Arith>(a: u32, y: u32, x: u32, x_before: u32, r: u32)
    requires
        faithful::<F>(),
        high_pass_is::<F>(a, y, x, x_before, r),
        finite(a) && 0 <= units(a) <= one(),
        finite(y) && finite(x) && finite(x_before),
    ensures
        units(x) == units(x_before) && (exists|s: u32| #[trigger]
            finite(s) && units(s) == units(y) + units(x)) ==> finite(r) && (units(y) >= 0 ==> 0
            <= units(r) <= units(y)) && (units(y) <= 0 ==> units(y) <= units(r) <= 0) && (OCTAVE
            <= y < crate::bits::INFINITY && rank(a) <= rank(ONE) - 2 ==> rank(r) < rank(y)),
        units(y) == 0 && units(x_before) == 0 ==> exists|d: u32| #[trigger]
            product_is::<F>(a, d, r) && same(d, x),
{
    units_of_one();
    let (s, d) = choose|s: u32, d: u32| #[trigger]
        sum_is::<F>(y, x, s) && #[trigger] difference_is::<F>(s, x_before, d) && product_is::<F>(
            a,
            d,
            r,
        );
    if units(x) == units(x_before) && exists|s: u32| #[trigger]
        finite(s) && units(s) == units(y) + units(x) {
        let t = choose|s: u32| #[trigger] finite(s) && units(s) == units(y) + units(x);
        exact_results_are_hit(units(y) + units(x), 1, s, t);
        exact_results_are_hit(units(s) - units(x_before), 1, d, y);
        factor_up_to_one_shrinks::<F>(d, a, r);
        units_follow_the_order(d, y);
        units_follow_the_order(r, d);
        if OCTAVE <= y < crate::bits::INFINITY && rank(a) <= rank(ONE) - 2 {
            units_follow_the_order(a, ZERO);
            product_lowers::<F>(a, d, r);
        }
    }
    if units(y) == 0 && units(x_before) == 0 {
        zero_adds_nothing::<F>(x, y, s);
        zero_adds_nothing::<F>(s, x_before, d);
        units_follow_the_order(d, x);
        assert(product_is::<F>(a, d, r));
    }
}

/// A fresh stage goes up by its first two taps, at twice the level, and down by its first:
/// of two samples that go down the first one counts.
pub proof fn stages_filter_on_both_ways<F: Arith>(
    os: Os2x,
    x: u32,
    above: Os2x,
    a: u32,
    b: u32,
    below: Os2x,
    y: u32,
)
    requires
        faithful::<F>(),
        os.up.taps@.len() >= 2 && os.down.taps@.len() >= 2,
        os.up.line@ == silence(os.up.taps@.len()),
        os.down.line@ == silence(os.down.taps@.len()),
        forall|j: int| 0 <= j < os.up.taps@.len() ==> finite(#[trigger] os.up.taps@[j]),
        forall|j: int| 0 <= j < os.down.taps@.len() ==> finite(#[trigger] os.down.taps@[j]),
        finite(x) && -one() <= units(x) <= one(),
        goes_up::<F>(os, x, above, a, b),
        goes_down::<F>(os, x, ZERO, below, y),
    ensures
        exists|p: u32, q: u32|
            #![trigger product_is::<F>(os.up.taps@[0], x, p), product_is::<F>(TWO, q, a)]
            product_is::<F>(os.up.taps@[0], x, p) && same(q, p) && product_is::<F>(TWO, q, a),
        exists|p: u32, q: u32|
            #![trigger product_is::<F>(os.up.taps@[1], x, p), product_is::<F>(TWO, q, b)]
            product_is::<F>(os.up.taps@[1], x, p) && same(q, p) && product_is::<F>(TWO, q, b),
        exists|p: u32| #[trigger] product_is::<F>(os.down.taps@[0], x, p) && same(y, p),
{
    let input = seq![x, ZERO];
    let (mid, p, q) = choose|mid: Fir, p: u32, q: u32|
        #![trigger fir_ticks::<F>(os.up, x, mid, p), fir_ticks::<F>(mid, ZERO, above.up, q)]
        fir_ticks::<F>(os.up, x, mid, p) && fir_ticks::<F>(mid, ZERO, above.up, q)
            && product_is::<F>(TWO, p, a) && product_is::<F>(TWO, q, b);
    let firs = seq![os.up, mid, above.up];
    assert(fir_runs::<F>(firs, input, seq![p, q])) by {
        assert forall|i: int|
            #![trigger firs[i]]
            0 <= i < input.len() implies fir_ticks::<F>(
            firs[i],
            input[i],
            firs[i + 1],
            seq![p, q][i],
        ) by {
            assert(i == 0 || i == 1);
        }
    }
    assert(only_at(input, 0));
    filter_answers_with_its_taps::<F>(firs, input, seq![p, q], 0);
    filter_answers_with_its_taps::<F>(firs, input, seq![p, q], 1);
    let (low, dropped) = choose|low: Fir, dropped: u32|
        #![trigger fir_ticks::<F>(os.down, x, low, y), fir_ticks::<F>(low, ZERO, below.down, dropped)]
        fir_ticks::<F>(os.down, x, low, y) && fir_ticks::<F>(low, ZERO, below.down, dropped);
    let downs = seq![os.down, low, below.down];
    assert(fir_runs::<F>(downs, input, seq![y, dropped])) by {
        assert forall|i: int|
            #![trigger downs[i]]
            0 <= i < input.len() implies fir_ticks::<F>(
            downs[i],
            input[i],
            downs[i + 1],
            seq![y, dropped][i],
        ) by {
            assert(i == 0 || i == 1);
        }
    }
    filter_answers_with_its_taps::<F>(downs, input, seq![y, dropped], 0);
}

/// The tone control with nothing kept lets what is clipped through, and with everything
/// kept stands still; with no compensation the tone control is what comes out.
pub proof fn tone_control_reaches_its_ends<F: Arith>(
    run: DriveRun<F>,
    x: u32,
    after: DriveRun<F>,
    y: u32,
)
    requires
        faithful::<F>(),
        run.steps(x, after, y),
        finite(run.lpf_a) && finite(run.lpf_y) && finite(after.lpf_y),
        finite(run.makeup) && units(run.makeup) == one(),
    ensures
        same(y, after.lpf_y),
        after.hpf_x == x,
        exists|driven: u32, clipped: u32|
            #![trigger product_is::<F>(after.hpf_y, run.pre, driven), clipper_steps::<F>(run.os1, run.os2, driven, after.os1, after.os2, clipped)]
            {
                &&& product_is::<F>(after.hpf_y, run.pre, driven)
                &&& clipper_steps::<F>(run.os1, run.os2, driven, after.os1, after.os2, clipped)
                &&& finite(clipped) && units(run.lpf_a) == 0 ==> units(after.lpf_y) == units(clipped)
                &&& finite(clipped) && units(run.lpf_a) == one() ==> units(after.lpf_y) == units(
                    run.lpf_y,
                )
            },
{
    units_of_one();
    product_with_one::<F>(after.lpf_y, run.makeup, y);
    let (driven, clipped) = choose|driven: u32, clipped: u32|
        #![trigger product_is::<F>(after.hpf_y, run.pre, driven), blend_is::<F>(run.lpf_a, run.lpf_y, clipped, after.lpf_y)]
        product_is::<F>(after.hpf_y, run.pre, driven) && clipper_steps::<F>(
            run.os1,
            run.os2,
            driven,
            after.os1,
            after.os2,
            clipped,
        ) && blend_is::<F>(run.lpf_a, run.lpf_y, clipped, after.lpf_y);
    if finite(clipped) {
        blends_reach_their_ends::<F>(run.lpf_a, run.lpf_y, clipped, after.lpf_y);
    }
    assert(product_is::<F>(after.hpf_y, run.pre, driven) && clipper_steps::<F>(
        run.os1,
        run.os2,
        driven,
        after.os1,
        after.os2,
        clipped,
    ));
}

/// Both samples are clipped before they go down: what enters the filter has the sign of
/// what came, and no more than full scale.
pub proof fn both_samples_are_clipped<F: Arith>(before: Os2x, a: u32, b: u32, after: Os2x, y: u32)
    requires
        faithful::<F>(),
        saturates::<F>(),
        clips_down::<F>(before, a, b, after, y),
        finite(a) && finite(b),
        before.down.line@.len() >= 2,
    ensures
        ({
            let line = after.down.line@;
            let (c, d) = (line[line.len() - 2], line[line.len() - 1]);
            &&& line.len() == before.down.line@.len()
            &&& shape_is::<F>(a, c) && shape_is::<F>(b, d)
            &&& -one() <= units(c) <= one() && (units(a) >= 0 ==> units(c) >= 0) && (units(a) <= 0
                ==> units(c) <= 0)
            &&& -one() <= units(d) <= one() && (units(b) >= 0 ==> units(d) >= 0) && (units(b) <= 0
                ==> units(d) <= 0)
        }),
{
    let (c, d) = choose|c: u32, d: u32| #[trigger]
        shape_is::<F>(a, c) && #[trigger] shape_is::<F>(b, d) && goes_down::<F>(
            before,
            c,
            d,
            after,
            y,
        );
    clipped_within_full_scale::<F>(a, c);
    clipped_within_full_scale::<F>(b, d);
    let line = after.down.line@;
    assert(line[line.len() - 2] == c && line[line.len() - 1] == d);
}

/// What is clipped keeps its sign and stays within full scale.
proof fn clipped_within_full_scale<F: Arith>(x: u32, r: u32)
    requires
        faithful::<F>(),
        saturates::<F>(),
        finite(x),
        shape_is::<F>(x, r),
    ensures
        -one() <= units(r) <= one(),
        units(x) >= 0 ==> units(r) >= 0,
        units(x) <= 0 ==> units(r) <= 0,
{
    units_of_one();
    units_of_negated(ONE);
    clipping_keeps_the_sign::<F>(x, r);
    units_follow_the_order(x, ZERO);
    units_follow_the_order(r, ZERO);
    units_follow_the_order(r, ONE);
    if units(x) <= 0 {
        assert(finite(negated(ONE)) && 3 * units(negated(ONE)) <= -2 * one());
        units_follow_the_order(negated(ONE), r);
    }
}

/// The inner stage takes the samples in their order, each with a zero behind it, and the
/// outer one takes what comes back in the same order.
pub proof fn stages_keep_the_order<F: Arith>(
    os1: Os2x,
    os2: Os2x,
    x: u32,
    os1_after: Os2x,
    os2_after: Os2x,
    y: u32,
)
    requires
        clipper_steps::<F>(os1, os2, x, os1_after, os2_after, y),
        os1.up.line@.len() >= 2 && os1.down.line@.len() >= 2,
        os2.up.line@.len() >= 4 && os2.down.line@.len() >= 4,
    ensures
        exists|o1: Os2x, a: u32, b: u32, da: u32, db: u32|
            #![trigger goes_up::<F>(os1, x, o1, a, b), inner_steps::<F>(os2, a, b, os2_after, da, db)]
            {
                let (up, down, outer) = (
                    os2_after.up.line@,
                    os2_after.down.line@,
                    os1_after.down.line@,
                );
                &&& goes_up::<F>(os1, x, o1, a, b)
                &&& inner_steps::<F>(os2, a, b, os2_after, da, db)
                &&& o1.up.line@[o1.up.line@.len() - 2] == x && o1.up.line@.last() == ZERO
                &&& up[up.len() - 4] == a && up[up.len() - 3] == ZERO
                &&& up[up.len() - 2] == b && up[up.len() - 1] == ZERO
                &&& outer[outer.len() - 2] == da && outer[outer.len() - 1] == db
                &&& dot_is::<F>(
                    os2.down.taps@,
                    os2.down.line@.drop_first().push(down[down.len() - 4]).reverse(),
                    da,
                )
            },
{
    let (o1, a, b, da, db) = choose|o1: Os2x, a: u32, b: u32, da: u32, db: u32|
        #![trigger goes_up::<F>(os1, x, o1, a, b), inner_steps::<F>(os2, a, b, os2_after, da, db)]
        goes_up::<F>(os1, x, o1, a, b) && inner_steps::<F>(os2, a, b, os2_after, da, db)
            && goes_down::<F>(o1, da, db, os1_after, y);
    let (p1, p2, p3, a1, a2, b1, b2) = choose|
        p1: Os2x,
        p2: Os2x,
        p3: Os2x,
        a1: u32,
        a2: u32,
        b1: u32,
        b2: u32,
    |
        #![trigger goes_up::<F>(os2, a, p1, a1, a2), goes_up::<F>(p1, b, p2, b1, b2), clips_down::<F>(p2, a1, a2, p3, da)]
        goes_up::<F>(os2, a, p1, a1, a2) && goes_up::<F>(p1, b, p2, b1, b2) && clips_down::<F>(
            p2,
            a1,
            a2,
            p3,
            da,
        ) && clips_down::<F>(p3, b1, b2, os2_after, db);
    let (c, d) = choose|c: u32, d: u32| #[trigger]
        shape_is::<F>(a1, c) && #[trigger] shape_is::<F>(a2, d) && goes_down::<F>(p2, c, d, p3, da);
    let (e, f) = choose|e: u32, f: u32| #[trigger]
        shape_is::<F>(b1, e) && #[trigger] shape_is::<F>(b2, f) && goes_down::<F>(
            p3,
            e,
            f,
            os2_after,
            db,
        );
    let down = os2_after.down.line@;
    assert(down[down.len() - 4] == c);
}

/// The windowed sinc is one half in the middle, and elsewhere the sine of a quarter turn
/// times the place, over half a turn times it; next to it at every step.
pub proof fn sinc_follows_the_sine<F: Arith>(x: u32, r: u32)
    requires
        faithful::<F>(),
        swings_within_one::<F>(),
        sinc_is::<F>(x, r),
        finite(x) && 0 <= units(x) <= 15 * one(),
        units(x) > 0 ==> units(x) >= one(),
    ensures
        units(x) == 0 ==> 2 * units(r) == one(),
        units(x) > 0 ==> exists|turn: u32, half: u32, s: u32, below: u32|
            #![trigger rounds(units(PI) * units(x), one(), turn), rounds(units(turn), 2, half), sin_is::<F>(half, s), rounds(units(s) * one(), units(below), r)]
            {
                &&& rounds(units(PI) * units(x), one(), turn)
                &&& rounds(units(turn), 2, half)
                &&& sin_is::<F>(half, s)
                &&& rounds(units(PI) * units(x), one(), below)
                &&& rounds(units(s) * one(), units(below), r)
            },
        2 * units(PI) == units(TAU),
{
    units_of_one();
    pi_is_half_a_turn();
    units_follow_the_order(x, ZERO);
    if units(x) > 0 {
        let (turn, half, s) = choose|turn: u32, half: u32, s: u32|
            #![trigger quotient_is::<F>(turn, TWO, half), sin_is::<F>(half, s)]
            product_is::<F>(PI, x, turn) && quotient_is::<F>(turn, TWO, half) && sin_is::<F>(half, s)
                && sinc_ratio::<F>(x, s, r);
        let below = choose|below: u32| #[trigger]
            product_is::<F>(PI, x, below) && quotient_is::<F>(s, below, r);
        turns_are_moderate::<F>(x, turn);
        turns_are_moderate::<F>(x, below);
        rounds_scales(units(turn), 2, one(), half);
        small_quotients_are_finite::<F>(turn, TWO, half);
    }
}

/// Every sine lies between minus one and one.
pub open spec fn swings_within_one<F: Arith>() -> bool {
    forall|a: u32, r: u32|
        finite(a) && #[trigger] sin_is::<F>(a, r) ==> finite(r) && -one() <= units(r) <= one()
}

/// Half a turn is half of a whole one, and more than three.
proof fn pi_is_half_a_turn()
    ensures
        2 * units(PI) == units(TAU),
        finite(PI) && finite(TAU),
        3 * one() <= units(PI) <= 4 * one(),
{
    vstd::arithmetic::power2::lemma2_to64();
    octaves_down(TAU, 1);
    whole_numbers_are_numbers(3);
    whole_numbers_are_numbers(4);
    assert(whole(3) == 0x4040_0000u32 && whole(4) == 0x4080_0000u32) by {
        reveal_with_fuel(whole, 24);
    }
    units_follow_the_order(PI, whole(3));
    units_follow_the_order(PI, whole(4));
}

/// Half a turn times a place of the filter is a moderate number.
proof fn turns_are_moderate<F: Arith>(x: u32, turn: u32)
    requires
        faithful::<F>(),
        product_is::<F>(PI, x, turn),
        finite(x) && one() <= units(x) <= 15 * one(),
    ensures
        finite(turn) && one() <= units(turn) <= 60 * one(),
{
    units_of_one();
    pi_is_half_a_turn();
    whole_numbers_are_numbers(60);
    let (p, u, o) = (units(PI), units(x), one());
    assert(o * o <= p * u <= (60 * o) * o) by (nonlinear_arith)
        requires
            3 * o <= p <= 4 * o,
            o <= u <= 15 * o,
            o > 0,
    ;
    rounds_above(p * u, o, turn, ONE);
    rounds_below(p * u, o, turn, whole(60));
    between_is_finite(ONE, turn, whole(60));
}

/// The window is that of Blackman: 0.42, less half of the cosine of one turn and with 0.08
/// of that of two turns over its span; next to it at every step.
pub proof fn window_is_blackmans<F: Arith>(twice: u32, i: u32, span: u32, r: u32)
    requires
        faithful::<F>(),
        blackman_is::<F>(twice, i, span, r),
        product_is::<F>(TWO, TAU, twice),
        forall|a: u32, c: u32| #[trigger]
            cos_is::<F>(a, c) ==> finite(c) && -one() <= units(c) <= one(),
    ensures
        units(twice) == 2 * units(TAU),
        exists|w0: u32, w2: u32, c1: u32, h1: u32, d: u32, c2: u32, h2: u32|
            #![trigger rounds(42 * one(), 100, w0), rounds(8 * one(), 100, w2), window_cos_is::<F>(TAU, i, span, c1), rounds(units(c1), 2, h1), rounds(units(w0) - units(h1), 1, d), window_cos_is::<F>(twice, i, span, c2), rounds(units(w2) * units(c2), one(), h2)]
            {
                &&& rounds(42 * one(), 100, w0) && rounds(8 * one(), 100, w2)
                &&& window_cos_is::<F>(TAU, i, span, c1) && window_cos_is::<F>(twice, i, span, c2)
                &&& rounds(units(c1), 2, h1)
                &&& rounds(units(w0) - units(h1), 1, d)
                &&& rounds(units(w2) * units(c2), one(), h2)
                &&& rounds(units(d) + units(h2), 1, r)
            },
{
    units_of_one();
    units_of_negated(ONE);
    units_of_negated(TWO);
    pi_is_half_a_turn();
    vstd::arithmetic::power2::lemma2_to64();
    doubles_are_exact::<F>(TAU, twice);
    constants_round(0x3ed7_0a3d, 42, 100, 125, 0x570a3d, 4);
    constants_round(0x3da3_d70a, 8, 100, 123, 0x23d70a, 16);
    let (c1, h1, d, c2, h2) = choose|c1: u32, h1: u32, d: u32, c2: u32, h2: u32|
        #![trigger window_cos_is::<F>(TAU, i, span, c1), product_is::<F>(HALF, c1, h1), difference_is::<F>(BLACKMAN_0, h1, d), window_cos_is::<F>(twice, i, span, c2), product_is::<F>(BLACKMAN_2, c2, h2)]
        window_cos_is::<F>(TAU, i, span, c1) && product_is::<F>(HALF, c1, h1) && difference_is::<F>(
            BLACKMAN_0,
            h1,
            d,
        ) && window_cos_is::<F>(twice, i, span, c2) && product_is::<F>(BLACKMAN_2, c2, h2)
            && sum_is::<F>(d, h2, r);
    assert(units(HALF) * units(c1) == units(c1) * units(HALF)) by (nonlinear_arith);
    rounds_scales(units(c1), 2, units(HALF), h1);
    factor_up_to_one_shrinks::<F>(c1, HALF, h1);
    units_follow_the_order(BLACKMAN_0, ONE);
    units_follow_the_order(BLACKMAN_0, ZERO);
    units_follow_the_order(BLACKMAN_2, ONE);
    units_follow_the_order(BLACKMAN_2, ZERO);
    let gap = units(BLACKMAN_0) - units(h1);
    rounds_above(gap, 1, d, negated(TWO));
    rounds_below(gap, 1, d, TWO);
    between_is_finite(negated(TWO), d, TWO);
    factor_up_to_one_shrinks::<F>(c2, BLACKMAN_2, h2);
    assert(rounds(42 * one(), 100, BLACKMAN_0) && rounds(8 * one(), 100, BLACKMAN_2));
}

/// The angle of the window goes with the place over the span.
pub proof fn window_turns_with_the_place<F: Arith>(turn: u32, i: u32, span: u32, r: u32)
    requires
        faithful::<F>(),
        window_cos_is::<F>(turn, i, span, r),
        finite(turn) && 0 <= units(turn) <= 16 * one(),
        finite(i) && 0 <= units(i) <= 30 * one(),
        finite(span) && units(span) == 30 * one(),
    ensures
        exists|t: u32, a: u32| #[trigger]
            rounds(units(turn) * units(i), one(), t) && rounds(units(t), 30, a)
                && #[trigger] cos_is::<F>(a, r),
{
    units_of_one();
    let (t, a) = choose|t: u32, a: u32| #[trigger]
        product_is::<F>(turn, i, t) && #[trigger] quotient_is::<F>(t, span, a) && cos_is::<F>(a, r);
    whole_numbers_are_numbers(480);
    let (p, u, o) = (units(turn), units(i), one());
    assert(0 <= p * u <= (480 * o) * o) by (nonlinear_arith)
        requires
            0 <= p <= 16 * o,
            0 <= u <= 30 * o,
            o > 0,
    ;
    rounds_above(p * u, o, t, ZERO);
    rounds_below(p * u, o, t, whole(480));
    between_is_finite(ZERO, t, whole(480));
    rounds_scales(units(t), 30, o, a);
}

/// `r` is a result of the sinc `k - 15` places from the middle, times the window at place
/// `k` of 30.
pub open spec fn windowed_at<F: Arith>(k: int, r: u32) -> bool {
    exists|x: u32, s: u32, twice: u32, i: u32, span: u32, w: u32|
        #![trigger sinc_is::<F>(x, s), blackman_is::<F>(twice, i, span, w)]
        {
            &&& finite(x) && units(x) == (k - 15) * one() && sinc_is::<F>(x, s)
            &&& finite(i) && units(i) == k * one() && finite(span) && units(span) == 30 * one()
            &&& product_is::<F>(TWO, TAU, twice) && blackman_is::<F>(twice, i, span, w)
            &&& product_is::<F>(s, w, r)
        }
}

/// A tap of the halfband filter is its windowed sinc, over the sum of them all.
pub proof fn taps_share_their_sum<F: Arith>(taps: Seq<u32>, k: int)
    requires
        faithful::<F>(),
        counts::<F>(),
        halfband::<F>(taps),
        0 <= k < TAPS,
    ensures
        taps.len() == 31,
        exists|raw: Seq<u32>, sums: Seq<u32>| #[trigger]
            halfband_from::<F>(taps, raw, sums) && windowed_at::<F>(k, raw[k]) && (finite(raw[k])
                && finite(sums[31]) && units(sums[31]) > 0 ==> rounds(
                units(raw[k]) * one(),
                units(sums[31]),
                taps[k],
            )) && (k > 0 ==> sum_is::<F>(sums[k], raw[k], sums[k + 1])) && sums[0] == ZERO,
{
    units_of_one();
    let (raw, sums) = choose|raw: Seq<u32>, sums: Seq<u32>| #[trigger]
        halfband_from::<F>(taps, raw, sums);
    assert(raw_tap_is::<F>(k as usize, raw[k]));
    let (i, mid, span, twice, x, s, w) = choose|
        i: u32,
        mid: u32,
        span: u32,
        twice: u32,
        x: u32,
        s: u32,
        w: u32,
    |
        #![trigger of_count_is::<F>(k as usize, i), of_count_is::<F>(MIDDLE, mid), blackman_is::<F>(twice, i, span, w), difference_is::<F>(i, mid, x), sinc_is::<F>(x, s)]
        of_count_is::<F>(k as usize, i) && of_count_is::<F>(MIDDLE, mid) && of_count_is::<F>(
            (TAPS - 1) as usize,
            span,
        ) && product_is::<F>(TWO, TAU, twice) && difference_is::<F>(i, mid, x) && sinc_is::<F>(x, s)
            && blackman_is::<F>(twice, i, span, w) && product_is::<F>(s, w, raw[k]);
    counts_are_exact::<F>(k as usize, i);
    counts_are_exact::<F>(MIDDLE, mid);
    counts_are_exact::<F>((TAPS - 1) as usize, span);
    integers_are_numbers(k - 15);
    assert(k * one() - 15 * one() == (k - 15) * one()) by (nonlinear_arith);
    exact_results_are_hit(k * one() - 15 * one(), 1, x, integer(k - 15));
}

/// A sample goes through all stages: the low cut takes the last input away and keeps its
/// share, the pre-gain multiplies what is left on the way into the clipping, and the
/// make-up gain what comes out of the tone control; next to it at every step.
pub proof fn drive_passes_its_stages<F: Arith>(
    run: DriveRun<F>,
    x: u32,
    after: DriveRun<F>,
    y: u32,
)
    requires
        faithful::<F>(),
        run.steps(x, after, y),
        finite(run.hpf_a) && 0 <= units(run.hpf_a) <= one(),
        finite(run.hpf_y) && -1024 * one() <= units(run.hpf_y) <= 1024 * one(),
        finite(run.hpf_x) && -1024 * one() <= units(run.hpf_x) <= 1024 * one(),
        finite(x) && -1024 * one() <= units(x) <= 1024 * one(),
        finite(run.pre) && finite(run.makeup) && finite(after.lpf_y),
    ensures
        exists|s: u32, d: u32|
            #![trigger rounds(units(run.hpf_y) + units(x), 1, s), rounds(units(s) - units(run.hpf_x), 1, d)]
            {
                &&& rounds(units(run.hpf_y) + units(x), 1, s)
                &&& rounds(units(s) - units(run.hpf_x), 1, d)
                &&& rounds(units(run.hpf_a) * units(d), one(), after.hpf_y)
            },
        exists|driven: u32, clipped: u32|
            #![trigger rounds(units(after.hpf_y) * units(run.pre), one(), driven), clipper_steps::<F>(run.os1, run.os2, driven, after.os1, after.os2, clipped)]
            rounds(units(after.hpf_y) * units(run.pre), one(), driven) && clipper_steps::<F>(
                run.os1,
                run.os2,
                driven,
                after.os1,
                after.os2,
                clipped,
            ) && blend_is::<F>(run.lpf_a, run.lpf_y, clipped, after.lpf_y),
        rounds(units(after.lpf_y) * units(run.makeup), one(), y),
{
    units_of_one();
    let (s, d) = choose|s: u32, d: u32| #[trigger]
        sum_is::<F>(run.hpf_y, x, s) && #[trigger] difference_is::<F>(s, run.hpf_x, d)
            && product_is::<F>(run.hpf_a, d, after.hpf_y);
    whole_numbers_are_numbers(4096);
    units_of_negated(whole(4096));
    rounds_above(units(run.hpf_y) + units(x), 1, s, negated(whole(4096)));
    rounds_below(units(run.hpf_y) + units(x), 1, s, whole(4096));
    between_is_finite(negated(whole(4096)), s, whole(4096));
    whole_numbers_are_numbers(8192);
    units_of_negated(whole(8192));
    rounds_above(units(s) - units(run.hpf_x), 1, d, negated(whole(8192)));
    rounds_below(units(s) - units(run.hpf_x), 1, d, whole(8192));
    between_is_finite(negated(whole(8192)), d, whole(8192));
    factor_up_to_one_shrinks::<F>(d, run.hpf_a, after.hpf_y);
    let (driven, clipped) = choose|driven: u32, clipped: u32|
        #![trigger product_is::<F>(after.hpf_y, run.pre, driven), blend_is::<F>(run.lpf_a, run.lpf_y, clipped, after.lpf_y)]
        product_is::<F>(after.hpf_y, run.pre, driven) && clipper_steps::<F>(
            run.os1,
            run.os2,
            driven,
            after.os1,
            after.os2,
            clipped,
        ) && blend_is::<F>(run.lpf_a, run.lpf_y, clipped, after.lpf_y);
    assert(rounds(units(after.hpf_y) * units(run.pre), one(), driven));
}

/// The tone control has its corner where it is turned to, at the rate of the stream, not
/// below 800 Hz and not above 8 kHz; the low cut has its own at 120 Hz.
pub proof fn tone_sets_the_corner<F: Arith>(
    drive: Drive<F>,
    sample_rate: u32,
    max_block: usize,
    ready: Drive<F>,
    enabled: u32,
    db: u32,
    tone_hz: u32,
    input: Seq<u32>,
    after: Drive<F>,
    output: Seq<u32>,
)
    requires
        faithful::<F>(),
        drive.prepared(sample_rate, max_block, ready),
        ready.processed_with(enabled, db, db, tone_hz, input, after, output),
        !is_off(enabled),
        finite(sample_rate) && one() <= units(sample_rate),
        finite(tone_hz),
    ensures
        exists|hz: u32| #[trigger]
            corner_at::<F>(sample_rate, hz, ready.run.hpf_a) && units(hz) == 120 * one(),
        exists|hz: u32| #[trigger]
            corner_at::<F>(sample_rate, hz, after.run.lpf_a) && units(hz) == if units(tone_hz) < 800
                * one() {
                800 * one()
            } else if units(tone_hz) > 8000 * one() {
                8000 * one()
            } else {
                units(tone_hz)
            },
{
    units_of_one();
    whole_numbers_are_numbers(120);
    whole_numbers_are_numbers(800);
    whole_numbers_are_numbers(8000);
    assert(whole(120) == LOW_CUT_HZ && whole(800) == DARKEST_HZ && whole(8000) == BRIGHTEST_HZ) by {
        reveal_with_fuel(whole, 24);
    }
    units_follow_the_order(tone_hz, DARKEST_HZ);
    units_follow_the_order(tone_hz, BRIGHTEST_HZ);
    let hz = clamped(tone_hz, DARKEST_HZ, BRIGHTEST_HZ);
    filters_have_their_corners::<F>(sample_rate, LOW_CUT_HZ, ready.run.hpf_a);
    filters_have_their_corners::<F>(sample_rate, hz, after.run.lpf_a);
}

} // verus!
