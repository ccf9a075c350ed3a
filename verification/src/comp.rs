//! Feed-forward compressor.
//!
//! Sits between the noise gate and the distortion and narrows the distance between
//! loud and quiet. The gain is computed in decibels with a soft knee; the gain
//! reduction deepens fast and recovers slowly. One knob, `amount`, moves both
//! threshold and ratio.
use crate::arith::{
    blend, blend_is, difference_is, exp10_is, factor, factor_is, log10_is, pole, pole_is,
    product_is, quotient_is, sum_is, Arith, DECADE_DB,
};
use crate::bits::{
    abs, at_least, below, clamp, clamped, ge, is_off, lt, magnitude, neg, negated, not_a_number,
    off, rank, ONE, TWO, ZERO,
};
use crate::block::{run_block, run_keeps, runs, stepping, traces, Step};
use crate::number::{
    blends_reach_their_ends, blends_stay_negative, constants_round, exact_results_are_hit,
    factor_up_to_one_shrinks, faithful, finite, keeps_over, leaves_a_number,
    levels_are_powers_of_ten, one, poles_follow_their_time, product_with_one, raises_ten, rounds,
    rounds_above, rounds_below, rounds_scales, same, small_products_are_finite, units,
    units_follow_the_order, units_of_negated, units_of_one, whole, whole_numbers_are_numbers,
};
use crate::param::{read, read_is, SharedParam};
use crate::processor::{
    alike_units_perform_alike, matches_step, performs, playing_keeps, plays, AudioProcessor,
};
use core::marker::PhantomData;
use vstd::prelude::*;

verus! {

/// Deepening of the gain reduction, 5 ms.
pub const ATTACK_SECS: u32 = 0x3ba3_d70a;

/// Recovery of the gain reduction, 120 ms.
pub const RELEASE_SECS: u32 = 0x3df5_c28f;

/// Half the width of the knee, 3 dB.
pub const HALF_KNEE_DB: u32 = 0x4040_0000;

/// Twice the width of the knee, 12 dB.
pub const TWICE_KNEE_DB: u32 = 0x4140_0000;

/// Keeps the logarithm of silence finite.
pub const LEAST_LEVEL: u32 = 0x3089_705f;

/// The threshold at full amount, -36 dBFS.
pub const DEEPEST_DB: u32 = 0xc210_0000;

/// How far the amount raises the ratio above 2:1.
pub const RATIO_SPAN: u32 = 0x40c0_0000;

/// Where a level lies with respect to the knee.
#[derive(Clone, Copy, PartialEq, Eq, Structural, Debug)]
pub enum Knee {
    /// Too low to be compressed.
    Under,
    /// In the transition.
    Within,
    /// Compressed at the full ratio.
    Past,
}

/// Where a level that exceeds the threshold by `over` decibels lies.
pub open spec fn knee_of(over: u32) -> Knee {
    if at_least(negated(HALF_KNEE_DB), over) {
        Knee::Under
    } else if at_least(over, HALF_KNEE_DB) {
        Knee::Past
    } else {
        Knee::Within
    }
}

/// Where a level that exceeds the threshold by `over` decibels lies.
pub fn knee(over: u32) -> (r: Knee)
    ensures
        r == knee_of(over),
{
    if ge(neg(HALF_KNEE_DB), over) {
        Knee::Under
    } else if ge(over, HALF_KNEE_DB) {
        Knee::Past
    } else {
        Knee::Within
    }
}

/// `r` is a result of the gain computer: nothing under the knee, `-slope * over`
/// past it, and `-slope * t * t / 12` with `t = over + 3` within.
pub open spec fn reduction_is<F: Arith>(slope: u32, over: u32, r: u32) -> bool {
    match knee_of(over) {
        Knee::Under => r == ZERO,
        Knee::Past => product_is::<F>(negated(slope), over, r),
        Knee::Within => exists|t: u32, u: u32, v: u32|
            #![trigger product_is::<F>(negated(slope), t, u), product_is::<F>(u, t, v)]
            sum_is::<F>(over, HALF_KNEE_DB, t) && product_is::<F>(negated(slope), t, u)
                && product_is::<F>(u, t, v) && quotient_is::<F>(v, TWICE_KNEE_DB, r),
    }
}

/// The gain reduction, in decibels, that a level `over` the threshold calls for.
pub fn reduction<F: Arith>(slope: u32, over: u32) -> (r: u32)
    ensures
        reduction_is::<F>(slope, over, r),
{
    match knee(over) {
        Knee::Under => ZERO,
        Knee::Past => F::times(neg(slope), over),
        Knee::Within => {
            let t: u32 = F::plus(over, HALF_KNEE_DB);
            let u: u32 = F::times(neg(slope), t);
            let v: u32 = F::times(u, t);
            let r: u32 = F::over(v, TWICE_KNEE_DB);
            assert(product_is::<F>(negated(slope), t, u) && product_is::<F>(u, t, v));
            r
        },
    }
}

/// `r` is a result of `20 * log10(|x| + 1e-9) - threshold`.
pub open spec fn excess_is<F: Arith>(x: u32, threshold: u32, r: u32) -> bool {
    exists|level: u32, digits: u32, db: u32|
        #![trigger log10_is::<F>(level, digits), product_is::<F>(DECADE_DB, digits, db)]
        sum_is::<F>(magnitude(x), LEAST_LEVEL, level) && log10_is::<F>(level, digits)
            && product_is::<F>(DECADE_DB, digits, db) && difference_is::<F>(db, threshold, r)
}

/// By how many decibels `x` exceeds the threshold.
pub fn excess<F: Arith>(x: u32, threshold: u32) -> (r: u32)
    ensures
        excess_is::<F>(x, threshold, r),
{
    let level: u32 = F::plus(abs(x), LEAST_LEVEL);
    let digits: u32 = F::log10(level);
    let db: u32 = F::times(DECADE_DB, digits);
    let r: u32 = F::minus(db, threshold);
    assert(log10_is::<F>(level, digits) && product_is::<F>(DECADE_DB, digits, db));
    r
}

/// The compressor at work on a block.
pub struct CompRun<F> {
    /// The threshold, in dBFS.
    pub thresh_db: u32,
    /// What the ratio takes away of every decibel past the knee.
    pub slope: u32,
    /// The factor that makes up for the loss.
    pub makeup: u32,
    /// What the reduction keeps over one sample while it deepens.
    pub atk: u32,
    /// What the reduction keeps over one sample while it recovers.
    pub rel: u32,
    /// The gain reduction in force, in decibels.
    pub gr_db: u32,
    /// The arithmetic.
    pub arith: PhantomData<F>,
}

impl<F: Arith> Step for CompRun<F> {
    open spec fn sound(&self) -> bool {
        true
    }

    open spec fn steps(&self, x: u32, after: Self, y: u32) -> bool {
        &&& after == CompRun { gr_db: after.gr_db, ..*self }
        &&& exists|over: u32, target: u32|
            #![trigger excess_is::<F>(x, self.thresh_db, over), reduction_is::<F>(self.slope, over, target)]
            excess_is::<F>(x, self.thresh_db, over) && reduction_is::<F>(self.slope, over, target)
                && blend_is::<F>(
                if below(target, self.gr_db) {
                    self.atk
                } else {
                    self.rel
                },
                self.gr_db,
                target,
                after.gr_db,
            )
        &&& exists|f: u32, g: u32| #[trigger]
            factor_is::<F>(after.gr_db, f) && #[trigger] product_is::<F>(f, self.makeup, g)
                && product_is::<F>(x, g, y)
    }

    fn step(&mut self, x: u32) -> (y: u32) {
        let over: u32 = excess::<F>(x, self.thresh_db);
        let target: u32 = reduction::<F>(self.slope, over);
        assert(excess_is::<F>(x, self.thresh_db, over) && reduction_is::<F>(
            self.slope,
            over,
            target,
        ));
        let c: u32 = if lt(target, self.gr_db) {
            self.atk
        } else {
            self.rel
        };
        self.gr_db = blend::<F>(c, self.gr_db, target);
        let f: u32 = factor::<F>(self.gr_db);
        let g: u32 = F::times(f, self.makeup);
        assert(factor_is::<F>(self.gr_db, f) && product_is::<F>(f, self.makeup, g));
        F::times(x, g)
    }
}

/// `slope` is a result of `1 - 1 / (2 + 6 * amount)`.
pub open spec fn slope_is<F: Arith>(amount: u32, slope: u32) -> bool {
    exists|rise: u32, ratio: u32, share: u32|
        #![trigger sum_is::<F>(TWO, rise, ratio), quotient_is::<F>(ONE, ratio, share)]
        product_is::<F>(RATIO_SPAN, amount, rise) && sum_is::<F>(TWO, rise, ratio) && quotient_is::<
            F,
        >(ONE, ratio, share) && difference_is::<F>(ONE, share, slope)
}

/// The compressor. `amount` runs from 0 to 1 and moves the threshold from 0 to
/// -36 dBFS and the ratio from 2:1 to 8:1.
pub struct Compressor<F> {
    /// Amount, 0 to 1.
    pub amount: SharedParam,
    /// Make-up gain in decibels.
    pub makeup_db: SharedParam,
    /// On above one half.
    pub enabled: SharedParam,
    /// The running state.
    pub run: CompRun<F>,
}

impl<F: Arith> Compressor<F> {
    /// A compressor that follows the three parameters.
    pub fn new(amount: SharedParam, makeup_db: SharedParam, enabled: SharedParam) -> (r: Self)
        ensures
            r.amount == amount,
            r.makeup_db == makeup_db,
            r.enabled == enabled,
            r.run.gr_db == ZERO,
            r.run.atk == ZERO,
            r.run.rel == ZERO,
    {
        Compressor {
            amount,
            makeup_db,
            enabled,
            run: CompRun {
                thresh_db: ZERO,
                slope: ZERO,
                makeup: ZERO,
                atk: ZERO,
                rel: ZERO,
                gr_db: ZERO,
                arith: PhantomData,
            },
        }
    }

    /// A block at given parameter values: handed through if switched off, and
    /// otherwise run with the threshold, ratio and make-up gain that they set.
    pub open spec fn processed_with(
        &self,
        enabled: u32,
        amount: u32,
        makeup_db: u32,
        input: Seq<u32>,
        after: Self,
        output: Seq<u32>,
    ) -> bool {
        let amt = clamped(amount, ZERO, ONE);
        let s = after.run;
        let begin = CompRun {
            thresh_db: s.thresh_db,
            slope: s.slope,
            makeup: s.makeup,
            ..self.run
        };
        &&& after == Compressor { run: after.run, ..*self }
        &&& if is_off(enabled) {
            after.run == self.run && output == input
        } else {
            &&& factor_is::<F>(makeup_db, s.makeup)
            &&& product_is::<F>(DEEPEST_DB, amt, s.thresh_db)
            &&& slope_is::<F>(amt, s.slope)
            &&& runs(stepping::<CompRun<F>>(), begin, input, s, output)
        }
    }

    /// One block at given parameter values.
    pub fn process_with(&mut self, enabled: u32, amount: u32, makeup_db: u32, buf: &mut [u32])
        ensures
            final(buf)@.len() == old(buf)@.len(),
            old(self).processed_with(enabled, amount, makeup_db, old(buf)@, *final(self), final(buf)@),
    {
        if off(enabled) {
            return;
        }
        let amt: u32 = clamp(amount, ZERO, ONE);
        let makeup: u32 = factor::<F>(makeup_db);
        let thresh_db: u32 = F::times(DEEPEST_DB, amt);
        let rise: u32 = F::times(RATIO_SPAN, amt);
        let ratio: u32 = F::plus(TWO, rise);
        let share: u32 = F::over(ONE, ratio);
        let slope: u32 = F::minus(ONE, share);
        assert(sum_is::<F>(TWO, rise, ratio) && quotient_is::<F>(ONE, ratio, share));
        self.run.makeup = makeup;
        self.run.thresh_db = thresh_db;
        self.run.slope = slope;
        let ghost begin = self.run;
        run_block(&mut self.run, buf);
        proof {
            run_keeps(
                stepping::<CompRun<F>>(),
                |r: CompRun<F>|
                    r.makeup == makeup && r.thresh_db == thresh_db && r.slope == slope,
                begin,
                old(buf)@,
                self.run,
                buf@,
            );
        }
    }
}

impl<F: Arith> AudioProcessor for Compressor<F> {
    open spec fn wf(&self) -> bool {
        true
    }

    open spec fn accepts(&self, n: nat) -> bool {
        true
    }

    open spec fn resettable(&self) -> bool {
        true
    }

    /// Both time constants are tuned to the rate and the reduction is lifted.
    open spec fn prepared(&self, sample_rate: u32, max_block: usize, after: Self) -> bool {
        &&& after == Compressor { run: after.run, ..*self }
        &&& after.run == CompRun {
            atk: after.run.atk,
            rel: after.run.rel,
            gr_db: ZERO,
            ..self.run
        }
        &&& pole_is::<F>(sample_rate, ATTACK_SECS, after.run.atk)
        &&& pole_is::<F>(sample_rate, RELEASE_SECS, after.run.rel)
    }

    /// As at some values that the parameters had.
    open spec fn processed(&self, input: Seq<u32>, after: Self, output: Seq<u32>) -> bool {
        exists|enabled: u32, amount: u32, makeup_db: u32| #[trigger]
            self.processed_with(enabled, amount, makeup_db, input, after, output) && read_is(
                self.enabled,
                enabled,
            ) && read_is(self.amount, amount) && read_is(self.makeup_db, makeup_db)
    }

    open spec fn cleared(&self, after: Self) -> bool {
        after == Compressor { run: CompRun { gr_db: ZERO, ..self.run }, ..*self }
    }

    fn prepare(&mut self, sample_rate: u32, _max_block: usize) {
        self.run.atk = pole::<F>(sample_rate, ATTACK_SECS);
        self.run.rel = pole::<F>(sample_rate, RELEASE_SECS);
        self.run.gr_db = ZERO;
    }

    fn process(&mut self, buf: &mut [u32]) {
        let enabled: u32 = read(&self.enabled);
        let amount: u32 = read(&self.amount);
        let makeup_db: u32 = read(&self.makeup_db);
        self.process_with(enabled, amount, makeup_db, buf);
    }

    fn reset(&mut self) {
        self.run.gr_db = ZERO;
    }
}

/// A compressor that is switched off hands the signal through and keeps its
/// state.
pub proof fn disabled_compressor_is_identity<F: Arith>(
    comp: Compressor<F>,
    enabled: u32,
    amount: u32,
    makeup_db: u32,
    input: Seq<u32>,
    after: Compressor<F>,
    output: Seq<u32>,
)
    requires
        comp.processed_with(enabled, amount, makeup_db, input, after, output),
        is_off(enabled),
    ensures
        output == input,
        after == comp,
{
}

/// However much was played, a reset leaves the compressor as `prepare` did, but
/// for what every block sets anew: threshold, ratio and make-up gain.
pub proof fn reset_compressor_is_as_prepared<F: Arith>(
    comp: Compressor<F>,
    sample_rate: u32,
    max_block: usize,
    trace: Seq<Compressor<F>>,
    reset: Compressor<F>,
)
    requires
        plays(trace),
        comp.prepared(sample_rate, max_block, trace[0]),
        trace.last().cleared(reset),
    ensures
        reset == (Compressor {
            run: CompRun {
                thresh_db: reset.run.thresh_db,
                slope: reset.run.slope,
                makeup: reset.run.makeup,
                ..trace[0].run
            },
            ..trace[0]
        }),
{
    let fresh = trace[0];
    let tuned = |r: CompRun<F>|
        r == CompRun {
            thresh_db: r.thresh_db,
            slope: r.slope,
            makeup: r.makeup,
            gr_db: r.gr_db,
            ..fresh.run
        };
    let kept = |c: Compressor<F>| c == (Compressor { run: c.run, ..fresh }) && tuned(c.run);
    assert forall|a: Compressor<F>, input: Seq<u32>, b: Compressor<F>, output: Seq<u32>|
        kept(a) && #[trigger] a.processed(input, b, output) implies kept(b) by {
        let (enabled, amount, makeup_db) = choose|enabled: u32, amount: u32, makeup_db: u32|
            #[trigger] a.processed_with(enabled, amount, makeup_db, input, b, output);
        if !is_off(enabled) {
            let begin = CompRun {
                thresh_db: b.run.thresh_db,
                slope: b.run.slope,
                makeup: b.run.makeup,
                ..a.run
            };
            run_keeps(stepping::<CompRun<F>>(), tuned, begin, input, b.run, output);
        }
    }
    playing_keeps(trace, kept);
}

/// A level that stays under the knee calls for no reduction at all.
pub proof fn no_reduction_under_the_knee<F: Arith>(slope: u32, over: u32, r: u32)
    requires
        reduction_is::<F>(slope, over, r),
        below(over, negated(HALF_KNEE_DB)),
    ensures
        r == ZERO,
{
}

/// Whatever a compressor that was reset makes of the blocks that follow, it could have
/// made right after `prepare`.
pub proof fn reset_compressor_plays_as_prepared<F: Arith>(
    comp: Compressor<F>,
    sample_rate: u32,
    max_block: usize,
    trace: Seq<Compressor<F>>,
    reset: Compressor<F>,
    units: Seq<Compressor<F>>,
    inputs: Seq<Seq<u32>>,
    outputs: Seq<Seq<u32>>,
)
    requires
        plays(trace),
        comp.prepared(sample_rate, max_block, trace[0]),
        trace.last().cleared(reset),
        performs(units, inputs, outputs),
        units[0] == reset,
    ensures
        exists|fresh: Seq<Compressor<F>>| #[trigger]
            performs(fresh, inputs, outputs) && fresh[0] == trace[0],
{
    reset_compressor_is_as_prepared(comp, sample_rate, max_block, trace, reset);
    let alike = |a: Compressor<F>, b: Compressor<F>|
        b == (Compressor {
            run: CompRun {
                thresh_db: b.run.thresh_db,
                slope: b.run.slope,
                makeup: b.run.makeup,
                ..a.run
            },
            ..a
        });
    assert forall|
        x: Compressor<F>,
        y: Compressor<F>,
        input: Seq<u32>,
        after: Compressor<F>,
        output: Seq<u32>,
    |
        #![trigger matches_step(alike, x, input, after, output), y.processed(input, after, output)]
        alike(x, y) && y.processed(input, after, output) implies matches_step(
        alike,
        x,
        input,
        after,
        output,
    ) by {
        let (enabled, amount, makeup_db) = choose|enabled: u32, amount: u32, makeup_db: u32| #[trigger]
            y.processed_with(enabled, amount, makeup_db, input, after, output) && read_is(y.enabled, enabled) && read_is(y.amount, amount) && read_is(y.makeup_db, makeup_db);
        if is_off(enabled) {
            assert(x.processed_with(enabled, amount, makeup_db, input, x, output));
            assert(x.processed(input, x, output) && alike(x, after));
        } else {
            assert(x.processed_with(enabled, amount, makeup_db, input, after, output));
            assert(x.processed(input, after, output) && alike(after, after));
        }
    }
    alike_units_perform_alike(alike, trace[0], units, inputs, outputs);
}

/// Whether a sample is too quiet to be compressed: it stays three decibels below the
/// threshold, whatever its level comes out as.
pub open spec fn quiet<F: Arith>(x: u32, threshold: u32) -> bool {
    forall|over: u32| #[trigger]
        excess_is::<F>(x, threshold, over) ==> at_least(negated(HALF_KNEE_DB), over)
}

/// What is quiet passes a compressor at rest as it is, but for the make-up gain; without
/// make-up gain it is not changed at all.
pub proof fn quiet_playing_is_not_compressed<F: Arith>(
    comp: Compressor<F>,
    enabled: u32,
    amount: u32,
    makeup_db: u32,
    input: Seq<u32>,
    after: Compressor<F>,
    output: Seq<u32>,
    i: int,
)
    requires
        faithful::<F>(),
        raises_ten::<F>(),
        comp.processed_with(enabled, amount, makeup_db, input, after, output),
        !is_off(enabled),
        finite(comp.run.gr_db) && units(comp.run.gr_db) == 0,
        leaves_a_number(comp.run.atk) && leaves_a_number(comp.run.rel),
        finite(makeup_db),
        finite(after.run.makeup),
        forall|k: int|
            0 <= k < input.len() ==> finite(input[k]) && #[trigger] quiet::<F>(
                input[k],
                after.run.thresh_db,
            ),
        0 <= i < input.len(),
    ensures
        exists|g: u32| #[trigger]
            product_is::<F>(input[i], g, output[i]) && same(g, after.run.makeup),
        units(makeup_db) == 0 ==> same(output[i], input[i]),
        units(after.run.gr_db) == 0,
{
    let s = after.run;
    let begin = CompRun { thresh_db: s.thresh_db, slope: s.slope, makeup: s.makeup, ..comp.run };
    let step = stepping::<CompRun<F>>();
    let trace = choose|trace: Seq<CompRun<F>>| #[trigger]
        traces(step, begin, input, s, output, trace);
    stays_at_rest(begin, input, s, output, trace, input.len());
    stays_at_rest(begin, input, s, output, trace, (i + 1) as nat);
    assert(step(trace[i], input[i], trace[i + 1], output[i]));
    let (a, b, x, y) = (trace[i], trace[i + 1], input[i], output[i]);
    assert(a.steps(x, b, y));
    assert(quiet::<F>(input[i], s.thresh_db));
    let (f, g) = choose|f: u32, g: u32| #[trigger]
        factor_is::<F>(b.gr_db, f) && #[trigger] product_is::<F>(f, a.makeup, g) && product_is::<F>(
            x,
            g,
            y,
        );
    units_of_one();
    levels_are_powers_of_ten::<F>(b.gr_db, f);
    units_follow_the_order(f, ONE);
    product_with_one::<F>(f, a.makeup, g);
    if units(makeup_db) == 0 {
        levels_are_powers_of_ten::<F>(makeup_db, s.makeup);
        units_follow_the_order(s.makeup, ONE);
        product_with_one::<F>(x, g, y);
    }
}

/// A compressor at rest stays at rest over the first `n` quiet samples.
proof fn stays_at_rest<F: Arith>(
    before: CompRun<F>,
    input: Seq<u32>,
    after: CompRun<F>,
    output: Seq<u32>,
    trace: Seq<CompRun<F>>,
    n: nat,
)
    requires
        faithful::<F>(),
        traces(stepping::<CompRun<F>>(), before, input, after, output, trace),
        n <= input.len(),
        finite(before.gr_db) && units(before.gr_db) == 0,
        leaves_a_number(before.atk) && leaves_a_number(before.rel),
        forall|k: int|
            0 <= k < input.len() ==> #[trigger] quiet::<F>(input[k], before.thresh_db),
    ensures
        trace[n as int] == (CompRun { gr_db: trace[n as int].gr_db, ..before }),
        finite(trace[n as int].gr_db) && units(trace[n as int].gr_db) == 0,
    decreases n,
{
    if n > 0 {
        let k = n - 1;
        stays_at_rest(before, input, after, output, trace, k as nat);
        assert(stepping::<CompRun<F>>()(trace[k], input[k], trace[k + 1], output[k]));
        let (a, b, x) = (trace[k], trace[k + 1], input[k]);
        assert(a.steps(x, b, output[k]));
        assert(quiet::<F>(input[k], before.thresh_db));
        let (over, target) = choose|over: u32, target: u32|
            #![trigger excess_is::<F>(x, a.thresh_db, over), reduction_is::<F>(a.slope, over, target)]
            excess_is::<F>(x, a.thresh_db, over) && reduction_is::<F>(a.slope, over, target)
                && blend_is::<F>(
                if below(target, a.gr_db) {
                    a.atk
                } else {
                    a.rel
                },
                a.gr_db,
                target,
                b.gr_db,
            );
        units_of_one();
        let c = if below(target, a.gr_db) {
            a.atk
        } else {
            a.rel
        };
        blends_stay_negative::<F>(c, a.gr_db, target, b.gr_db);
    }
}

/// The gain computer takes away and never adds. Past the knee it takes the share `slope`
/// of every decibel over the threshold, and so never more than brings the level back to
/// it; within the knee it takes at most as much as a level three decibels over calls for.
pub proof fn reduction_takes_its_share<F: Arith>(slope: u32, over: u32, r: u32)
    requires
        faithful::<F>(),
        reduction_is::<F>(slope, over, r),
        finite(slope) && 0 <= units(slope) <= one(),
        finite(over),
    ensures
        finite(r),
        units(r) <= 0,
        3 * one() <= units(over) ==> rounds(-(units(slope) * units(over)), one(), r),
        3 * one() <= units(over) ==> -units(over) <= units(r),
        units(over) <= -3 * one() ==> units(r) == 0,
        units(over) <= 3 * one() ==> -3 * one() <= units(r),
{
    units_of_one();
    whole_numbers_are_numbers(3);
    whole_numbers_are_numbers(6);
    whole_numbers_are_numbers(12);
    whole_numbers_are_numbers(36);
    reveal_with_fuel(whole, 24);
    assert(whole(3) == HALF_KNEE_DB);
    assert(whole(12) == TWICE_KNEE_DB);
    let three = HALF_KNEE_DB;
    units_of_negated(three);
    units_of_negated(slope);
    units_follow_the_order(over, three);
    units_follow_the_order(over, negated(three));
    let (k, v) = (units(slope), units(over));
    match knee_of(over) {
        Knee::Under => {},
        Knee::Past => {
            small_products_are_finite::<F>(over, negated(slope), r);
            assert(units(negated(slope)) * v == -(k * v)) by (nonlinear_arith)
                requires
                    units(negated(slope)) == -k,
            ;
            assert(-(k * v) <= 0) by (nonlinear_arith)
                requires
                    k >= 0,
                    v >= 0,
            ;
            rounds_below(-(k * v), one(), r, ZERO);
            if v <= 3 * one() {
                units_follow_the_order(over, three);
            }
        },
        Knee::Within => {
            let (t, u, w) = choose|t: u32, u: u32, w: u32|
                #![trigger product_is::<F>(negated(slope), t, u), product_is::<F>(u, t, w)]
                sum_is::<F>(over, HALF_KNEE_DB, t) && product_is::<F>(negated(slope), t, u)
                    && product_is::<F>(u, t, w) && quotient_is::<F>(w, TWICE_KNEE_DB, r);
            let six = whole(6);
            rounds_above(v + 3 * one(), 1, t, ZERO);
            rounds_below(v + 3 * one(), 1, t, six);
            crate::number::between_is_finite(ZERO, t, six);
            small_products_are_finite::<F>(t, negated(slope), u);
            let (ut, uu) = (units(t), units(u));
            assert(units(negated(slope)) * ut <= 0) by (nonlinear_arith)
                requires
                    units(negated(slope)) <= 0,
                    ut >= 0,
            ;
            rounds_below(units(negated(slope)) * ut, one(), u, ZERO);
            assert(-(36 * one()) * one() <= uu * ut <= 0) by (nonlinear_arith)
                requires
                    -6 * one() <= uu <= 0,
                    0 <= ut <= 6 * one(),
                    one() > 0,
            ;
            let most = whole(36);
            units_of_negated(most);
            rounds_above(uu * ut, one(), w, negated(most));
            rounds_below(uu * ut, one(), w, ZERO);
            crate::number::between_is_finite(negated(most), w, ZERO);
            let uw = units(w);
            assert(-(3 * one()) * (12 * one()) <= uw * one() <= 0) by (nonlinear_arith)
                requires
                    -36 * one() <= uw <= 0,
                    one() > 0,
            ;
            rounds_above(uw * one(), 12 * one(), r, negated(three));
            rounds_below(uw * one(), 12 * one(), r, ZERO);
            crate::number::between_is_finite(negated(three), r, ZERO);
        },
    }
}

/// The amount sets threshold and ratio: nothing gives a threshold of 0 dB and a ratio of
/// 2:1, which takes half of every decibel, everything -36 dB and 8:1, which takes seven
/// eighths; and in between the slope is one less a share of 2 and six times the amount.
pub proof fn amount_sets_the_ratio<F: Arith>(amount: u32, slope: u32, threshold: u32)
    requires
        faithful::<F>(),
        finite(amount) && 0 <= units(amount) <= one(),
        slope_is::<F>(amount, slope),
        product_is::<F>(DEEPEST_DB, amount, threshold),
    ensures
        exists|rise: u32, ratio: u32, share: u32|
            #![trigger rounds(6 * units(amount), 1, rise), rounds(one() * one(), units(ratio), share)]
            rounds(6 * units(amount), 1, rise) && rounds(2 * one() + units(rise), 1, ratio)
                && rounds(one() * one(), units(ratio), share) && rounds(
                one() - units(share),
                1,
                slope,
            ),
        units(amount) == 0 ==> 2 * units(slope) == one() && units(threshold) == 0,
        units(amount) == one() ==> 8 * units(slope) == 7 * one() && units(threshold) == -36 * one(),
        finite(slope) && 0 <= units(slope) <= one(),
        rounds(-36 * units(amount), 1, threshold),
{
    units_of_one();
    whole_numbers_are_numbers(6);
    whole_numbers_are_numbers(8);
    whole_numbers_are_numbers(36);
    reveal_with_fuel(whole, 24);
    assert(whole(6) == RATIO_SPAN);
    assert(negated(whole(36)) == DEEPEST_DB);
    units_of_negated(whole(36));
    let (rise, ratio, share) = choose|rise: u32, ratio: u32, share: u32|
        #![trigger sum_is::<F>(TWO, rise, ratio), quotient_is::<F>(ONE, ratio, share)]
        product_is::<F>(RATIO_SPAN, amount, rise) && sum_is::<F>(TWO, rise, ratio) && quotient_is::<
            F,
        >(ONE, ratio, share) && difference_is::<F>(ONE, share, slope);
    let a = units(amount);
    assert((6 * one()) * a == (6 * a) * one() && (-36 * one()) * a == (-36 * a) * one())
        by (nonlinear_arith);
    crate::number::rounds_scales(6 * a, 1, one(), rise);
    crate::number::rounds_scales(-36 * a, 1, one(), threshold);
    factor_up_to_one_shrinks::<F>(RATIO_SPAN, amount, rise);
    let eight = whole(8);
    rounds_above(2 * one() + units(rise), 1, ratio, TWO);
    rounds_below(2 * one() + units(rise), 1, ratio, eight);
    crate::number::between_is_finite(TWO, ratio, eight);
    crate::number::small_quotients_are_finite::<F>(ONE, ratio, share);
    rounds_above(one() - units(share), 1, slope, ZERO);
    rounds_below(one() - units(share), 1, slope, ONE);
    crate::number::between_is_finite(ZERO, slope, ONE);
    assert(rounds(6 * units(amount), 1, rise) && rounds(one() * one(), units(ratio), share));
    if a == 0 {
        exact_results_are_hit(0, 1, rise, ZERO);
        exact_results_are_hit(2 * one(), 1, ratio, TWO);
        let half = crate::bits::HALF;
        assert(units(half) * (2 * one()) == one() * one()) by (nonlinear_arith)
            requires
                2 * units(half) == one(),
        ;
        exact_results_are_hit(one() * one(), 2 * one(), share, half);
        exact_results_are_hit(one() - units(half), 1, slope, half);
        exact_results_are_hit(0, 1, threshold, ZERO);
    }
    if a == one() {
        exact_results_are_hit(6 * one(), 1, rise, whole(6));
        exact_results_are_hit(8 * one(), 1, ratio, eight);
        units_of_eighths();
        let (eighth, rest) = (0x3e00_0000u32, 0x3f60_0000u32);
        assert(units(eighth) * (8 * one()) == one() * one()) by (nonlinear_arith)
            requires
                8 * units(eighth) == one(),
        ;
        exact_results_are_hit(one() * one(), 8 * one(), share, eighth);
        exact_results_are_hit(one() - units(eighth), 1, slope, rest);
        exact_results_are_hit(-36 * one(), 1, threshold, DEEPEST_DB);
    }
}

/// One eighth and seven eighths.
proof fn units_of_eighths()
    ensures
        8 * units(0x3e00_0000) == one(),
        8 * units(0x3f60_0000) == 7 * one(),
        finite(0x3e00_0000) && finite(0x3f60_0000),
{
    vstd::arithmetic::power2::lemma_pow2_unfold(126);
    vstd::arithmetic::power2::lemma_pow2_unfold(125);
    vstd::arithmetic::power2::lemma_pow2_unfold(124);
    let p = vstd::arithmetic::power2::pow2(123) as int;
    assert(units(ONE) == 0x80_0000 * vstd::arithmetic::power2::pow2(126));
    assert(units(0x3e00_0000) == 0x80_0000 * p);
    assert(0x3f60_0000u32 / 0x80_0000 == 126 && 0x3f60_0000u32 % 0x80_0000 == 0x60_0000);
    assert(units(0x3f60_0000) == (0x80_0000 + 0x60_0000) * vstd::arithmetic::power2::pow2(125));
    assert(8 * ((0x80_0000 + 0x60_0000) * (4 * p)) == 7 * (0x80_0000 * (8 * p))) by (nonlinear_arith);
}

/// A compressor without make-up gain never makes a sample louder, and the reduction in
/// force is never a boost. With an attack that keeps nothing it deepens at once, and with
/// a release that keeps everything it does not recover.
pub proof fn compressor_only_takes_away<F: Arith>(
    run: CompRun<F>,
    x: u32,
    after: CompRun<F>,
    y: u32,
)
    requires
        faithful::<F>(),
        raises_ten::<F>(),
        run.steps(x, after, y),
        finite(x),
        finite(run.slope) && 0 <= units(run.slope) <= one(),
        leaves_a_number(run.atk) && leaves_a_number(run.rel),
        finite(run.gr_db) && units(run.gr_db) <= 0,
        forall|over: u32| #[trigger] excess_is::<F>(x, run.thresh_db, over) ==> finite(over),
    ensures
        rank(after.gr_db) <= 0,
        finite(after.gr_db) && units(run.makeup) == one() && finite(run.makeup) ==> finite(y) && (
        units(x) >= 0 ==> 0 <= units(y) <= units(x)) && (units(x) <= 0 ==> units(x) <= units(y)
            <= 0),
        exists|over: u32, target: u32|
            #![trigger excess_is::<F>(x, run.thresh_db, over), reduction_is::<F>(run.slope, over, target)]
            {
                &&& excess_is::<F>(x, run.thresh_db, over)
                &&& reduction_is::<F>(run.slope, over, target)
                &&& units(target) < units(run.gr_db) && units(run.atk) == 0 ==> same(
                    after.gr_db,
                    target,
                )
                &&& units(target) >= units(run.gr_db) && units(run.rel) == one() ==> same(
                    after.gr_db,
                    run.gr_db,
                )
            },
{
    units_of_one();
    let (over, target) = choose|over: u32, target: u32|
        #![trigger excess_is::<F>(x, run.thresh_db, over), reduction_is::<F>(run.slope, over, target)]
        excess_is::<F>(x, run.thresh_db, over) && reduction_is::<F>(run.slope, over, target)
            && blend_is::<F>(
            if below(target, run.gr_db) {
                run.atk
            } else {
                run.rel
            },
            run.gr_db,
            target,
            after.gr_db,
        );
    reduction_takes_its_share::<F>(run.slope, over, target);
    units_follow_the_order(target, run.gr_db);
    let c = if below(target, run.gr_db) {
        run.atk
    } else {
        run.rel
    };
    blends_stay_negative::<F>(c, run.gr_db, target, after.gr_db);
    blends_reach_their_ends::<F>(c, run.gr_db, target, after.gr_db);
    units_follow_the_order(after.gr_db, target);
    units_follow_the_order(after.gr_db, run.gr_db);
    if finite(after.gr_db) && units(run.makeup) == one() && finite(run.makeup) {
        let (f, g) = choose|f: u32, g: u32| #[trigger]
            factor_is::<F>(after.gr_db, f) && #[trigger] product_is::<F>(f, run.makeup, g)
                && product_is::<F>(x, g, y);
        units_follow_the_order(after.gr_db, ZERO);
        levels_are_powers_of_ten::<F>(after.gr_db, f);
        crate::number::between_is_finite(ZERO, f, ONE);
        product_with_one::<F>(f, run.makeup, g);
        factor_up_to_one_shrinks::<F>(x, g, y);
    }
    assert(excess_is::<F>(x, run.thresh_db, over) && reduction_is::<F>(run.slope, over, target));
}

/// What a sample exceeds the threshold by is twenty times the digits of its magnitude, less
/// the threshold: next to it at every step.
pub proof fn excess_is_in_decibels<F: Arith>(x: u32, threshold: u32, over: u32)
    requires
        faithful::<F>(),
        excess_is::<F>(x, threshold, over),
        finite(x) && finite(threshold),
    ensures
        exists|level: u32, digits: u32, db: u32|
            #![trigger log10_is::<F>(level, digits), difference_is::<F>(db, threshold, over)]
            {
                &&& rounds(units(magnitude(x)) + units(LEAST_LEVEL), 1, level)
                &&& log10_is::<F>(level, digits)
                &&& finite(digits) ==> rounds(20 * units(digits), 1, db)
                &&& difference_is::<F>(db, threshold, over)
                &&& finite(db) ==> rounds(units(db) - units(threshold), 1, over)
            },
{
    units_of_one();
    crate::number::units_of_decades();
    let (level, digits, db) = choose|level: u32, digits: u32, db: u32|
        #![trigger log10_is::<F>(level, digits), product_is::<F>(DECADE_DB, digits, db)]
        sum_is::<F>(magnitude(x), LEAST_LEVEL, level) && log10_is::<F>(level, digits)
            && product_is::<F>(DECADE_DB, digits, db) && difference_is::<F>(db, threshold, over);
    if finite(digits) {
        let l = units(digits);
        assert((20 * one()) * l == (20 * l) * one()) by (nonlinear_arith);
        crate::number::rounds_scales(20 * l, 1, one(), db);
    }
    assert(log10_is::<F>(level, digits) && difference_is::<F>(db, threshold, over));
}

/// The times of the compressor: the reduction deepens within 5 ms and recovers within
/// 120 ms, at every sample rate.
pub proof fn compressor_keeps_its_times<F: Arith>(
    comp: Compressor<F>,
    sample_rate: u32,
    max_block: usize,
    after: Compressor<F>,
)
    requires
        faithful::<F>(),
        comp.prepared(sample_rate, max_block, after),
        finite(sample_rate) && 8000 * one() <= units(sample_rate),
    ensures
        keeps_over::<F>(sample_rate, 5, 1000, after.run.atk),
        keeps_over::<F>(sample_rate, 120, 1000, after.run.rel),
{
    vstd::arithmetic::power2::lemma2_to64();
    units_of_one();
    constants_round(0x3ba3_d70a, 5, 1000, 119, 0x23d70a, 256);
    constants_round(0x3df5_c28f, 120, 1000, 123, 0x75c28f, 16);
    units_follow_the_order(ATTACK_SECS, ONE);
    units_follow_the_order(RELEASE_SECS, ONE);
    poles_follow_their_time::<F>(sample_rate, ATTACK_SECS, 5, 1000, after.run.atk);
    poles_follow_their_time::<F>(sample_rate, RELEASE_SECS, 120, 1000, after.run.rel);
}

/// Within the knee the reduction bends in a parabola: of the decibels past its lower end,
/// squared, the share `slope` over twelve is taken; next to it at every step.
pub proof fn knee_is_a_parabola<F: Arith>(slope: u32, over: u32, r: u32)
    requires
        faithful::<F>(),
        reduction_is::<F>(slope, over, r),
        finite(slope) && 0 <= units(slope) <= one(),
        finite(over) && -3 * one() < units(over) < 3 * one(),
    ensures
        exists|t: u32, u: u32, v: u32|
            #![trigger rounds(-(units(slope) * units(t)), one(), u), rounds(units(u) * units(t), one(), v)]
            {
                &&& rounds(units(over) + 3 * one(), 1, t)
                &&& rounds(-(units(slope) * units(t)), one(), u)
                &&& rounds(units(u) * units(t), one(), v)
                &&& rounds(units(v), 12, r)
            },
{
    units_of_one();
    whole_numbers_are_numbers(3);
    whole_numbers_are_numbers(6);
    whole_numbers_are_numbers(12);
    whole_numbers_are_numbers(36);
    assert(whole(3) == HALF_KNEE_DB && whole(12) == TWICE_KNEE_DB) by {
        reveal_with_fuel(whole, 24);
    }
    units_of_negated(HALF_KNEE_DB);
    units_of_negated(slope);
    units_follow_the_order(over, HALF_KNEE_DB);
    units_follow_the_order(over, negated(HALF_KNEE_DB));
    let (t, u, w) = choose|t: u32, u: u32, w: u32|
        #![trigger product_is::<F>(negated(slope), t, u), product_is::<F>(u, t, w)]
        sum_is::<F>(over, HALF_KNEE_DB, t) && product_is::<F>(negated(slope), t, u)
            && product_is::<F>(u, t, w) && quotient_is::<F>(w, TWICE_KNEE_DB, r);
    let o = one();
    rounds_above(units(over) + 3 * o, 1, t, ZERO);
    rounds_below(units(over) + 3 * o, 1, t, whole(6));
    crate::number::between_is_finite(ZERO, t, whole(6));
    small_products_are_finite::<F>(t, negated(slope), u);
    let (k, ut, uu) = (units(slope), units(t), units(u));
    assert((-k) * ut == -(k * ut)) by (nonlinear_arith);
    assert(k * ut >= 0) by (nonlinear_arith)
        requires
            k >= 0,
            ut >= 0,
    ;
    rounds_below(-(k * ut), o, u, ZERO);
    assert(-(36 * o) * o <= uu * ut <= 0) by (nonlinear_arith)
        requires
            -6 * o <= uu <= 0,
            0 <= ut <= 6 * o,
            o > 0,
    ;
    units_of_negated(whole(36));
    rounds_above(uu * ut, o, w, negated(whole(36)));
    rounds_below(uu * ut, o, w, ZERO);
    crate::number::between_is_finite(negated(whole(36)), w, ZERO);
    rounds_scales(units(w), 12, o, r);
}

/// The make-up gain is that of its level: next to `10^(level / 20)`, more than one for a
/// positive level.
pub proof fn makeup_raises_by_its_level<F: Arith>(
    comp: Compressor<F>,
    enabled: u32,
    amount: u32,
    makeup_db: u32,
    input: Seq<u32>,
    after: Compressor<F>,
    output: Seq<u32>,
)
    requires
        faithful::<F>(),
        raises_ten::<F>(),
        comp.processed_with(enabled, amount, makeup_db, input, after, output),
        !is_off(enabled),
        finite(makeup_db),
        !not_a_number(amount),
    ensures
        exists|e: u32| #[trigger]
            exp10_is::<F>(e, after.run.makeup) && rounds(units(makeup_db), 20, e),
        units(makeup_db) >= 0 ==> rank(after.run.makeup) >= rank(ONE),
        units(makeup_db) <= 0 ==> rank(after.run.makeup) <= rank(ONE),
        rounds(-36 * units(clamped(amount, ZERO, ONE)), 1, after.run.thresh_db),
        slope_is::<F>(clamped(amount, ZERO, ONE), after.run.slope),
{
    units_of_one();
    levels_are_powers_of_ten::<F>(makeup_db, after.run.makeup);
    let amt = clamped(amount, ZERO, ONE);
    crate::number::between_is_finite(ZERO, amt, ONE);
    amount_sets_the_ratio::<F>(amt, after.run.slope, after.run.thresh_db);
}

/// The reduction in force is what a sample is played with: times ten to a twentieth of it
/// and times the make-up gain; next to it at every step.
pub proof fn reduction_is_applied<F: Arith>(run: CompRun<F>, x: u32, after: CompRun<F>, y: u32)
    requires
        faithful::<F>(),
        raises_ten::<F>(),
        run.steps(x, after, y),
        finite(x) && finite(run.makeup),
        finite(after.gr_db) && units(after.gr_db) <= 0,
    ensures
        exists|e: u32, f: u32, g: u32|
            #![trigger exp10_is::<F>(e, f), rounds(units(f) * units(run.makeup), one(), g)]
            {
                &&& rounds(units(after.gr_db), 20, e)
                &&& exp10_is::<F>(e, f)
                &&& rounds(units(f) * units(run.makeup), one(), g)
                &&& finite(g) ==> rounds(units(x) * units(g), one(), y)
            },
{
    units_of_one();
    let (f, g) = choose|f: u32, g: u32| #[trigger]
        factor_is::<F>(after.gr_db, f) && #[trigger] product_is::<F>(f, run.makeup, g)
            && product_is::<F>(x, g, y);
    levels_are_powers_of_ten::<F>(after.gr_db, f);
    let e = choose|e: u32| #[trigger] exp10_is::<F>(e, f) && rounds(units(after.gr_db), 20, e);
    crate::number::between_is_finite(ZERO, f, ONE);
    assert(rounds(units(f) * units(run.makeup), one(), g));
}

} // verus!
