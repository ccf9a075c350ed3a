//! Echo.
//!
//! A mono feedback delay line behind the cabinet. The feedback path is damped,
//! so that every repetition is a little darker. When the delay time changes, the
//! length in force glides to the new one; the reading point falls between two
//! samples and is interpolated.
use crate::arith::{
    approach, approach_is, difference_is, floor_is, of_count_is, pole, pole_is, product_is,
    quotient_is, sum_is, to_count_is, Arith, MILLIS,
};
use crate::bits::{
    below, clamp, clamped, is_off, lt, negated, not_a_number, off, rank, HALF, ONE, TWO, ZERO,
};
use crate::block::{
    alike_states_run_alike, follows_suit, run_block, run_keeps, runs, stepping, traces, Step,
};
use crate::line::silence;
use crate::number::{
    between_is_finite, constants_round, counts, counts_are_exact, difference_to_itself, dyadic,
    dyadics_are_numbers, exact_results_are_hit, faithful, finite, is_count, keeps_over, one,
    poles_follow_their_time, product_with_one, product_with_zero, rounds, rounds_above,
    rounds_below, same, small_products_are_finite, small_quotients_are_finite, target_is_kept,
    units, units_follow_the_order, units_of_four, units_of_negated, units_of_one,
    units_of_thousand, whole, whole_numbers_are_numbers, zero_adds_nothing, zero_wipes,
};
use crate::param::{read, read_is, SharedParam};
use crate::processor::{
    alike_units_perform_alike, matches_step, performs, playing_keeps, plays, AudioProcessor,
    DEFAULT_RATE,
};
use core::marker::PhantomData;
use vstd::arithmetic::div_mod::{
    lemma_fundamental_div_mod, lemma_fundamental_div_mod_converse, lemma_mod_bound,
};
use vstd::prelude::*;

verus! {

/// The longest delay, 2 s.
pub const MAX_DELAY_SECS: u32 = 0x4000_0000;

/// 0.35: how far the damping of the feedback path follows.
pub const FB_DAMP: u32 = 0x3eb3_3333;

/// The highest feedback, 0.95.
pub const MAX_FEEDBACK: u32 = 0x3f73_3333;

/// The glide of the delay length, 50 ms.
pub const GLIDE_SECS: u32 = 0x3d4c_cccd;

/// The echo at work on a block.
pub struct DelayRun<F> {
    /// The ring.
    pub buf: Vec<u32>,
    /// Where the next sample is written.
    pub pos: usize,
    /// The delay in force, in samples.
    pub cur_delay: u32,
    /// The memory of the damping.
    pub fb_lp: u32,
    /// What is kept of the distance to the target over one sample.
    pub smooth: u32,
    /// The delay asked for, in samples.
    pub target: u32,
    /// What is fed back.
    pub fb: u32,
    /// What is added of the echo.
    pub mix: u32,
    /// The arithmetic.
    pub arith: PhantomData<F>,
}

/// `rp` is a result of the reading point: `pos - delay`, wrapped once around the
/// ring of `len` samples if negative.
pub open spec fn reading_point_is<F: Arith>(pos: usize, delay: u32, len: usize, rp: u32) -> bool {
    exists|p: u32, d: u32| #[trigger]
        of_count_is::<F>(pos, p) && #[trigger] difference_is::<F>(p, delay, d) && if below(d, ZERO) {
            wrapped_is::<F>(d, len, rp)
        } else {
            rp == d
        }
}

/// `r` is a result of `d + len`.
pub open spec fn wrapped_is<F: Arith>(d: u32, len: usize, r: u32) -> bool {
    exists|l: u32| #[trigger] of_count_is::<F>(len, l) && sum_is::<F>(d, l, r)
}

/// The reading point.
pub fn reading_point<F: Arith>(pos: usize, delay: u32, len: usize) -> (rp: u32)
    ensures
        reading_point_is::<F>(pos, delay, len, rp),
{
    let p: u32 = F::of_count(pos);
    let d: u32 = F::minus(p, delay);
    assert(of_count_is::<F>(pos, p) && difference_is::<F>(p, delay, d));
    if lt(d, ZERO) {
        let l: u32 = F::of_count(len);
        let rp: u32 = F::plus(d, l);
        assert(of_count_is::<F>(len, l));
        rp
    } else {
        d
    }
}

/// `r` is a result of reading `ring` at `rp`: the two samples around it, weighted
/// by their distance.
pub open spec fn interpolated_is<F: Arith>(ring: Seq<u32>, rp: u32, r: u32) -> bool {
    exists|whole: u32, n: usize, frac: u32, rest: u32|
        #![trigger floor_is::<F>(rp, whole), to_count_is::<F>(whole, n), difference_is::<F>(rp, whole, frac), difference_is::<F>(ONE, frac, rest)]
        floor_is::<F>(rp, whole) && to_count_is::<F>(whole, n) && difference_is::<F>(
            rp,
            whole,
            frac,
        ) && difference_is::<F>(ONE, frac, rest) && weighted_is::<F>(
            ring[n as int % ring.len() as int],
            rest,
            ring[(n as int % ring.len() as int + 1) % ring.len() as int],
            frac,
            r,
        )
}

/// `r` is a result of `a * p + b * q`.
pub open spec fn weighted_is<F: Arith>(a: u32, p: u32, b: u32, q: u32, r: u32) -> bool {
    exists|ap: u32, bq: u32| #[trigger]
        product_is::<F>(a, p, ap) && #[trigger] product_is::<F>(b, q, bq) && sum_is::<F>(ap, bq, r)
}

/// Reads a ring between two samples.
pub fn interpolated<F: Arith>(ring: &Vec<u32>, rp: u32) -> (r: u32)
    requires
        ring@.len() > 0,
    ensures
        interpolated_is::<F>(ring@, rp, r),
{
    let len: usize = ring.len();
    let whole: u32 = F::floor(rp);
    let n: usize = F::to_count(whole);
    let i0: usize = n % len;
    let i1: usize = (i0 + 1) % len;
    let frac: u32 = F::minus(rp, whole);
    let rest: u32 = F::minus(ONE, frac);
    let ap: u32 = F::times(ring[i0], rest);
    let bq: u32 = F::times(ring[i1], frac);
    let r: u32 = F::plus(ap, bq);
    assert(product_is::<F>(ring@[i0 as int], rest, ap) && product_is::<F>(
        ring@[i1 as int],
        frac,
        bq,
    ));
    assert(floor_is::<F>(rp, whole) && to_count_is::<F>(whole, n) && difference_is::<F>(
        rp,
        whole,
        frac,
    ) && difference_is::<F>(ONE, frac, rest));
    r
}

/// `r` is a result of the damping: `lp + 0.35 * (x - lp)`.
pub open spec fn damped_is<F: Arith>(lp: u32, x: u32, r: u32) -> bool {
    exists|gap: u32, move_by: u32| #[trigger]
        difference_is::<F>(x, lp, gap) && #[trigger] product_is::<F>(FB_DAMP, gap, move_by)
            && sum_is::<F>(lp, move_by, r)
}

/// `r` is a result of `x + a * b`.
pub open spec fn added_is<F: Arith>(x: u32, a: u32, b: u32, r: u32) -> bool {
    exists|p: u32| #[trigger] product_is::<F>(a, b, p) && sum_is::<F>(x, p, r)
}

impl<F: Arith> Step for DelayRun<F> {
    open spec fn sound(&self) -> bool {
        self.pos < self.buf@.len()
    }

    open spec fn steps(&self, x: u32, after: Self, y: u32) -> bool {
        let len = self.buf.len();
        &&& after == DelayRun {
            buf: after.buf,
            pos: after.pos,
            cur_delay: after.cur_delay,
            fb_lp: after.fb_lp,
            ..*self
        }
        &&& approach_is::<F>(self.target, self.cur_delay, self.smooth, after.cur_delay)
        &&& after.pos == (self.pos + 1) % (len as int)
        &&& exists|rp: u32, delayed: u32, w: u32|
            #![trigger reading_point_is::<F>(self.pos, after.cur_delay, len, rp), damped_is::<F>(self.fb_lp, delayed, after.fb_lp), added_is::<F>(x, after.fb_lp, self.fb, w)]
            {
                &&& reading_point_is::<F>(self.pos, after.cur_delay, len, rp)
                &&& interpolated_is::<F>(self.buf@, rp, delayed)
                &&& damped_is::<F>(self.fb_lp, delayed, after.fb_lp)
                &&& added_is::<F>(x, after.fb_lp, self.fb, w)
                &&& after.buf@ == self.buf@.update(self.pos as int, w)
                &&& added_is::<F>(x, delayed, self.mix, y)
            }
    }

    fn step(&mut self, x: u32) -> (y: u32) {
        let len: usize = self.buf.len();
        self.cur_delay = approach::<F>(self.target, self.cur_delay, self.smooth);
        let rp: u32 = reading_point::<F>(self.pos, self.cur_delay, len);
        let delayed: u32 = interpolated::<F>(&self.buf, rp);
        let gap: u32 = F::minus(delayed, self.fb_lp);
        let move_by: u32 = F::times(FB_DAMP, gap);
        assert(difference_is::<F>(delayed, self.fb_lp, gap) && product_is::<F>(
            FB_DAMP,
            gap,
            move_by,
        ));
        self.fb_lp = F::plus(self.fb_lp, move_by);
        let back: u32 = F::times(self.fb_lp, self.fb);
        let w: u32 = F::plus(x, back);
        assert(product_is::<F>(self.fb_lp, self.fb, back));
        self.buf[self.pos] = w;
        self.pos = (self.pos + 1) % len;
        let echo: u32 = F::times(delayed, self.mix);
        let y: u32 = F::plus(x, echo);
        assert(product_is::<F>(delayed, self.mix, echo));
        assert(reading_point_is::<F>(old(self).pos, self.cur_delay, len, rp) && damped_is::<F>(
            old(self).fb_lp,
            delayed,
            self.fb_lp,
        ) && added_is::<F>(x, self.fb_lp, self.fb, w));
        y
    }
}

/// `r` is a result of the delay `time_ms / 1000 * sample_rate`, pulled into what
/// a ring of `len` samples can give.
pub open spec fn length_is<F: Arith>(time_ms: u32, sample_rate: u32, len: usize, r: u32) -> bool {
    exists|secs: u32, samples: u32, l: u32, most: u32|
        #![trigger quotient_is::<F>(time_ms, MILLIS, secs), product_is::<F>(secs, sample_rate, samples), difference_is::<F>(l, TWO, most)]
        quotient_is::<F>(time_ms, MILLIS, secs) && product_is::<F>(secs, sample_rate, samples)
            && of_count_is::<F>(len, l) && difference_is::<F>(l, TWO, most) && r == clamped(
            samples,
            ONE,
            most,
        )
}

/// The delay in samples.
pub fn length<F: Arith>(time_ms: u32, sample_rate: u32, len: usize) -> (r: u32)
    ensures
        length_is::<F>(time_ms, sample_rate, len, r),
{
    let secs: u32 = F::over(time_ms, MILLIS);
    let samples: u32 = F::times(secs, sample_rate);
    let l: u32 = F::of_count(len);
    let most: u32 = F::minus(l, TWO);
    assert(quotient_is::<F>(time_ms, MILLIS, secs) && product_is::<F>(secs, sample_rate, samples)
        && difference_is::<F>(l, TWO, most));
    clamp(samples, ONE, most)
}

/// The echo.
pub struct Delay<F> {
    /// Delay time in milliseconds.
    pub time_ms: SharedParam,
    /// Feedback, 0 to 0.95.
    pub feedback: SharedParam,
    /// What is added of the echo, 0 to 1.
    pub mix: SharedParam,
    /// On above one half.
    pub enabled: SharedParam,
    /// The sample rate.
    pub sr: u32,
    /// The running state.
    pub run: DelayRun<F>,
}

impl<F: Arith> Delay<F> {
    /// An echo without a ring yet, that follows the four parameters.
    pub fn new(
        time_ms: SharedParam,
        feedback: SharedParam,
        mix: SharedParam,
        enabled: SharedParam,
    ) -> (r: Self)
        ensures
            r.time_ms == time_ms,
            r.feedback == feedback,
            r.mix == mix,
            r.enabled == enabled,
            r.sr == DEFAULT_RATE,
            r.wf(),
            r.run.buf@.len() == 0,
            r.run.pos == 0,
            r.run.cur_delay == ZERO && r.run.smooth == ZERO && r.run.fb_lp == ZERO,
    {
        Delay {
            time_ms,
            feedback,
            mix,
            enabled,
            sr: DEFAULT_RATE,
            run: DelayRun {
                buf: Vec::new(),
                pos: 0,
                cur_delay: ZERO,
                fb_lp: ZERO,
                smooth: ZERO,
                target: ZERO,
                fb: ZERO,
                mix: ZERO,
                arith: PhantomData,
            },
        }
    }

    /// A block at given parameter values: handed through if switched off or
    /// without a ring, and otherwise run.
    pub open spec fn processed_with(
        &self,
        enabled: u32,
        mix: u32,
        feedback: u32,
        time_ms: u32,
        input: Seq<u32>,
        after: Self,
        output: Seq<u32>,
    ) -> bool {
        let s = after.run;
        let begin = DelayRun {
            target: s.target,
            fb: clamped(feedback, ZERO, MAX_FEEDBACK),
            mix: clamped(mix, ZERO, ONE),
            ..self.run
        };
        &&& after == Delay { run: after.run, ..*self }
        &&& if is_off(enabled) || self.run.buf@.len() < 4 {
            after.run == self.run && output == input
        } else {
            &&& length_is::<F>(time_ms, self.sr, self.run.buf.len(), s.target)
            &&& runs(stepping::<DelayRun<F>>(), begin, input, s, output)
        }
    }

    /// One block at given parameter values.
    pub fn process_with(
        &mut self,
        enabled: u32,
        mix: u32,
        feedback: u32,
        time_ms: u32,
        buf: &mut [u32],
    )
        requires
            old(self).wf(),
        ensures
            final(self).wf(),
            final(self).run.buf@.len() == old(self).run.buf@.len(),
            final(buf)@.len() == old(buf)@.len(),
            old(self).processed_with(
                enabled,
                mix,
                feedback,
                time_ms,
                old(buf)@,
                *final(self),
                final(buf)@,
            ),
    {
        if off(enabled) {
            return;
        }
        let m: u32 = clamp(mix, ZERO, ONE);
        let fb: u32 = clamp(feedback, ZERO, MAX_FEEDBACK);
        let len: usize = self.run.buf.len();
        if len < 4 {
            return;
        }
        let target: u32 = length::<F>(time_ms, self.sr, len);
        self.run.target = target;
        self.run.fb = fb;
        self.run.mix = m;
        let ghost begin = self.run;
        run_block(&mut self.run, buf);
        proof {
            run_keeps(
                stepping::<DelayRun<F>>(),
                |r: DelayRun<F>| r.target == target && r.buf@.len() == len && r.sound(),
                begin,
                old(buf)@,
                self.run,
                buf@,
            );
        }
    }

    /// The ring silent, and the delay in force jumps to `time_ms`.
    pub fn restart(&mut self, time_ms: u32)
        requires
            old(self).wf(),
        ensures
            final(self).wf(),
            delay_restarted(*old(self), time_ms, *final(self)),
    {
        let n: usize = self.run.buf.len();
        let mut i: usize = 0;
        while i < n
            invariant
                i <= n,
                n == self.run.buf@.len(),
                n == old(self).run.buf@.len(),
                *self == (Delay { run: DelayRun { buf: self.run.buf, ..old(self).run }, ..*old(self) }),
                forall|k: int| 0 <= k < i ==> self.run.buf@[k] == ZERO,
            decreases n - i,
        {
            self.run.buf[i] = ZERO;
            i = i + 1;
        }
        assert(self.run.buf@ =~= silence(n as nat));
        self.run.pos = 0;
        self.run.fb_lp = ZERO;
        self.run.cur_delay = length::<F>(time_ms, self.sr, n);
    }
}

/// `after` is `before` with a silent ring and the delay of `time_ms`.
pub open spec fn delay_restarted<F: Arith>(
    before: Delay<F>,
    time_ms: u32,
    after: Delay<F>,
) -> bool {
    &&& after == Delay {
        run: DelayRun {
            buf: after.run.buf,
            pos: 0,
            cur_delay: after.run.cur_delay,
            fb_lp: ZERO,
            ..before.run
        },
        ..before
    }
    &&& after.run.buf@ == silence(before.run.buf@.len())
    &&& length_is::<F>(
        time_ms,
        before.sr,
        before.run.buf.len(),
        after.run.cur_delay,
    )
}

/// `len` is a result of the room for the longest delay: `2 * sample_rate`, cut
/// down to a count, and four more.
pub open spec fn room_is<F: Arith>(sample_rate: u32, len: usize) -> bool {
    exists|samples: u32, n: usize| #[trigger]
        product_is::<F>(MAX_DELAY_SECS, sample_rate, samples) && #[trigger] to_count_is::<F>(
            samples,
            n,
        ) && len == if n + 4 > usize::MAX {
            usize::MAX
        } else {
            (n + 4) as usize
        }
}

impl<F: Arith> AudioProcessor for Delay<F> {
    open spec fn wf(&self) -> bool {
        self.run.buf@.len() == 0 || self.run.sound()
    }

    open spec fn accepts(&self, n: nat) -> bool {
        true
    }

    open spec fn resettable(&self) -> bool {
        self.run.buf@.len() >= 3
    }

    /// A silent ring with room for the longest delay; the delay in force is that
    /// of some value that the parameter had.
    open spec fn prepared(&self, sample_rate: u32, max_block: usize, after: Self) -> bool {
        &&& room_is::<F>(sample_rate, after.run.buf.len())
        &&& pole_is::<F>(sample_rate, GLIDE_SECS, after.run.smooth)
        &&& exists|time_ms: u32| #[trigger]
            delay_restarted(
                Delay {
                    sr: sample_rate,
                    run: DelayRun { buf: after.run.buf, smooth: after.run.smooth, ..self.run },
                    ..*self
                },
                time_ms,
                after,
            ) && read_is(self.time_ms, time_ms)
    }

    /// As at some values that the parameters had.
    open spec fn processed(&self, input: Seq<u32>, after: Self, output: Seq<u32>) -> bool {
        exists|enabled: u32, mix: u32, feedback: u32, time_ms: u32| #[trigger]
            self.processed_with(enabled, mix, feedback, time_ms, input, after, output) && read_is(
                self.enabled,
                enabled,
            ) && read_is(self.mix, mix) && read_is(self.feedback, feedback) && read_is(
                self.time_ms,
                time_ms,
            )
    }

    open spec fn cleared(&self, after: Self) -> bool {
        exists|time_ms: u32| #[trigger]
            delay_restarted(*self, time_ms, after) && read_is(self.time_ms, time_ms)
    }

    fn prepare(&mut self, sample_rate: u32, _max_block: usize) {
        self.sr = sample_rate;
        let samples: u32 = F::times(MAX_DELAY_SECS, sample_rate);
        let n: usize = F::to_count(samples);
        assert(product_is::<F>(MAX_DELAY_SECS, sample_rate, samples) && to_count_is::<F>(
            samples,
            n,
        ));
        let len: usize = n.saturating_add(4);
        self.run.buf = vec![ZERO; len];
        self.run.pos = 0;
        self.run.smooth = pole::<F>(sample_rate, GLIDE_SECS);
        let time_ms: u32 = read(&self.time_ms);
        self.run.cur_delay = length::<F>(time_ms, sample_rate, len);
        self.run.fb_lp = ZERO;
        proof {
            assert(self.run.buf@ =~= silence(len as nat));
            assert(delay_restarted(
                Delay {
                    sr: sample_rate,
                    run: DelayRun {
                        buf: self.run.buf,
                        smooth: self.run.smooth,
                        ..old(self).run
                    },
                    ..*old(self)
                },
                time_ms,
                *self,
            ));
        }
    }

    fn process(&mut self, buf: &mut [u32]) {
        let enabled: u32 = read(&self.enabled);
        let mix: u32 = read(&self.mix);
        let feedback: u32 = read(&self.feedback);
        let time_ms: u32 = read(&self.time_ms);
        self.process_with(enabled, mix, feedback, time_ms, buf);
    }

    fn reset(&mut self) {
        let time_ms: u32 = read(&self.time_ms);
        self.restart(time_ms);
    }
}

/// An echo that is switched off hands the signal through and keeps its state.
pub proof fn disabled_delay_is_identity<F: Arith>(
    delay: Delay<F>,
    enabled: u32,
    mix: u32,
    feedback: u32,
    time_ms: u32,
    input: Seq<u32>,
    after: Delay<F>,
    output: Seq<u32>,
)
    requires
        delay.processed_with(enabled, mix, feedback, time_ms, input, after, output),
        is_off(enabled),
    ensures
        output == input,
        after == delay,
{
}

/// However much was played, a reset leaves the echo as `prepare` did: a silent ring
/// of the same length, tuned to the same rate. Only the delay in force is that of
/// the moment, and what every block sets anew may differ.
pub proof fn reset_delay_is_as_prepared<F: Arith>(
    delay: Delay<F>,
    sample_rate: u32,
    max_block: usize,
    trace: Seq<Delay<F>>,
    reset: Delay<F>,
)
    requires
        plays(trace),
        delay.prepared(sample_rate, max_block, trace[0]),
        trace.last().cleared(reset),
    ensures
        reset == (Delay {
            run: DelayRun {
                buf: reset.run.buf,
                cur_delay: reset.run.cur_delay,
                target: reset.run.target,
                fb: reset.run.fb,
                mix: reset.run.mix,
                ..trace[0].run
            },
            ..trace[0]
        }),
        reset.run.buf@ == trace[0].run.buf@,
{
    let fresh = trace[0];
    let tuned = |r: DelayRun<F>|
        {
            &&& r.smooth == fresh.run.smooth && r.arith == fresh.run.arith
            &&& r.buf@.len() == fresh.run.buf@.len()
            &&& r.pos < r.buf.len()
        };
    let kept = |d: Delay<F>| d == (Delay { run: d.run, ..fresh }) && tuned(d.run);
    assert forall|a: Delay<F>, input: Seq<u32>, b: Delay<F>, output: Seq<u32>|
        kept(a) && #[trigger] a.processed(input, b, output) implies kept(b) by {
        let (enabled, mix, feedback, time_ms) = choose|
            enabled: u32,
            mix: u32,
            feedback: u32,
            time_ms: u32,
        | #[trigger]
            a.processed_with(enabled, mix, feedback, time_ms, input, b, output);
        if !is_off(enabled) && a.run.buf@.len() >= 4 {
            let begin = DelayRun {
                target: b.run.target,
                fb: clamped(feedback, ZERO, MAX_FEEDBACK),
                mix: clamped(mix, ZERO, ONE),
                ..a.run
            };
            run_keeps(stepping::<DelayRun<F>>(), tuned, begin, input, b.run, output);
        }
    }
    playing_keeps(trace, kept);
}

/// Two states of an echo that sound the same: rings with the same samples, and the
/// same in everything but what every block sets anew.
pub open spec fn echoes_same<F>(a: DelayRun<F>, b: DelayRun<F>) -> bool {
    &&& a.buf@ == b.buf@
    &&& b == (DelayRun { buf: b.buf, target: b.target, fb: b.fb, mix: b.mix, ..a })
}

/// What one echo makes of a block, another that sounds the same can make of it too, and
/// they sound the same again.
proof fn same_echo_same_block<F: Arith>(
    a: Delay<F>,
    b: Delay<F>,
    input: Seq<u32>,
    after: Delay<F>,
    output: Seq<u32>,
)
    requires
        b == (Delay { run: b.run, ..a }),
        echoes_same(a.run, b.run),
        b.processed(input, after, output),
    ensures
        exists|next: Delay<F>| #[trigger]
            a.processed(input, next, output) && after == (Delay { run: after.run, ..next })
                && echoes_same(next.run, after.run),
{
    let (enabled, mix, feedback, time_ms) = choose|
        enabled: u32,
        mix: u32,
        feedback: u32,
        time_ms: u32,
    | #[trigger]
        b.processed_with(enabled, mix, feedback, time_ms, input, after, output) && read_is(
            b.enabled,
            enabled,
        ) && read_is(b.mix, mix) && read_is(b.feedback, feedback) && read_is(b.time_ms, time_ms);
    if is_off(enabled) || b.run.buf@.len() < 4 {
        assert(a.processed_with(enabled, mix, feedback, time_ms, input, a, output));
        assert(a.processed(input, a, output));
    } else {
        let fb = clamped(feedback, ZERO, MAX_FEEDBACK);
        let amount = clamped(mix, ZERO, ONE);
        let target = after.run.target;
        let ours = DelayRun { target, fb, mix: amount, ..a.run };
        let theirs = DelayRun { target, fb, mix: amount, ..b.run };
        let step = stepping::<DelayRun<F>>();
        let alike = |p: DelayRun<F>, q: DelayRun<F>|
            p.buf@ == q.buf@ && q == (DelayRun { buf: q.buf, ..p });
        assert forall|p: DelayRun<F>, q: DelayRun<F>, x: u32, next: DelayRun<F>, y: u32|
            #![trigger follows_suit(step, alike, p, x, next, y), step(q, x, next, y)]
            alike(p, q) && step(q, x, next, y) implies follows_suit(step, alike, p, x, next, y) by {
            assert(q.steps(x, next, y));
            assert(p.steps(x, next, y)) by {
                let len = q.buf.len();
                assert(p.buf.len() == len);
                let (rp, delayed, w) = choose|rp: u32, delayed: u32, w: u32|
                    #![trigger reading_point_is::<F>(q.pos, next.cur_delay, len, rp), damped_is::<F>(q.fb_lp, delayed, next.fb_lp), added_is::<F>(x, next.fb_lp, q.fb, w)]
                    {
                        &&& reading_point_is::<F>(q.pos, next.cur_delay, len, rp)
                        &&& interpolated_is::<F>(q.buf@, rp, delayed)
                        &&& damped_is::<F>(q.fb_lp, delayed, next.fb_lp)
                        &&& added_is::<F>(x, next.fb_lp, q.fb, w)
                        &&& next.buf@ == q.buf@.update(q.pos as int, w)
                        &&& added_is::<F>(x, delayed, q.mix, y)
                    };
                assert(reading_point_is::<F>(p.pos, next.cur_delay, p.buf.len(), rp) && damped_is::<
                    F,
                >(p.fb_lp, delayed, next.fb_lp) && added_is::<F>(x, next.fb_lp, p.fb, w));
            }
            assert(step(p, x, next, y) && alike(next, next));
        }
        alike_states_run_alike(step, alike, ours, theirs, input, after.run, output);
        let run = choose|run: DelayRun<F>| #[trigger]
            runs(step, ours, input, run, output) && alike(run, after.run);
        let next = Delay { run, ..a };
        assert(a.processed_with(enabled, mix, feedback, time_ms, input, next, output));
        assert(a.processed(input, next, output));
    }
}

/// After a reset no echo is left: whatever an echo that was reset makes of the blocks
/// that follow, it could have made right after `prepare`, had that found the delay time
/// that the reset found.
pub proof fn reset_delay_plays_as_prepared<F: Arith>(
    delay: Delay<F>,
    sample_rate: u32,
    max_block: usize,
    trace: Seq<Delay<F>>,
    reset: Delay<F>,
    units: Seq<Delay<F>>,
    inputs: Seq<Seq<u32>>,
    outputs: Seq<Seq<u32>>,
)
    requires
        plays(trace),
        delay.prepared(sample_rate, max_block, trace[0]),
        trace.last().cleared(reset),
        performs(units, inputs, outputs),
        units[0] == reset,
    ensures
        exists|fresh: Seq<Delay<F>>| #[trigger]
            performs(fresh, inputs, outputs) && delay.prepared(sample_rate, max_block, fresh[0])
                && fresh[0].run.cur_delay == reset.run.cur_delay,
{
    reset_delay_is_as_prepared(delay, sample_rate, max_block, trace, reset);
    let first = trace[0];
    let start = Delay { run: DelayRun { cur_delay: reset.run.cur_delay, ..first.run }, ..first };
    let time_ms = choose|time_ms: u32| #[trigger]
        delay_restarted(trace.last(), time_ms, reset) && read_is(trace.last().time_ms, time_ms);
    let base = Delay {
        sr: sample_rate,
        run: DelayRun { buf: start.run.buf, smooth: start.run.smooth, ..delay.run },
        ..delay
    };
    assert(trace.last().run.buf@.len() == reset.run.buf@.len());
    assert(trace.last().run.buf.len() == base.run.buf.len());
    assert(delay_restarted(base, time_ms, start));
    assert(delay.prepared(sample_rate, max_block, start));
    let alike = |a: Delay<F>, b: Delay<F>|
        b == (Delay { run: b.run, ..a }) && echoes_same(a.run, b.run);
    assert(alike(start, reset));
    assert forall|x: Delay<F>, y: Delay<F>, input: Seq<u32>, after: Delay<F>, output: Seq<u32>|
        #![trigger matches_step(alike, x, input, after, output), y.processed(input, after, output)]
        alike(x, y) && y.processed(input, after, output) implies matches_step(
        alike,
        x,
        input,
        after,
        output,
    ) by {
        same_echo_same_block(x, y, input, after, output);
        let next = choose|next: Delay<F>| #[trigger]
            x.processed(input, next, output) && after == (Delay { run: after.run, ..next })
                && echoes_same(next.run, after.run);
        assert(x.processed(input, next, output) && alike(next, after));
    }
    alike_units_perform_alike(alike, start, units, inputs, outputs);
}

/// With the mix turned down to zero the echo hands the signal through, whatever its ring
/// holds: every sample comes out as it went in. Only an echo that is no finite number
/// spoils a sample, which then is not a number.
pub proof fn echo_without_mix_is_dry<F: Arith>(
    delay: Delay<F>,
    enabled: u32,
    mix: u32,
    feedback: u32,
    time_ms: u32,
    input: Seq<u32>,
    after: Delay<F>,
    output: Seq<u32>,
)
    requires
        faithful::<F>(),
        zero_wipes::<F>(),
        delay.processed_with(enabled, mix, feedback, time_ms, input, after, output),
        !not_a_number(mix) && rank(mix) <= 0,
        forall|i: int| 0 <= i < input.len() ==> #[trigger] finite(input[i]),
    ensures
        output.len() == input.len(),
        forall|i: int|
            0 <= i < input.len() ==> same(#[trigger] output[i], input[i]) || not_a_number(
                output[i],
            ),
{
    if is_off(enabled) || delay.run.buf@.len() < 4 {
        assert forall|i: int| 0 <= i < input.len() implies same(#[trigger] output[i], input[i]) by {
            assert(finite(input[i]));
        }
    } else {
        let begin = DelayRun {
            target: after.run.target,
            fb: clamped(feedback, ZERO, MAX_FEEDBACK),
            mix: clamped(mix, ZERO, ONE),
            ..delay.run
        };
        let step = stepping::<DelayRun<F>>();
        let trace = choose|trace: Seq<DelayRun<F>>| #[trigger]
            traces(step, begin, input, after.run, output, trace);
        assert forall|i: int| 0 <= i < input.len() implies same(#[trigger] output[i], input[i])
            || not_a_number(output[i]) by {
            mix_stays(begin, input, after.run, output, trace, i);
            assert(step(trace[i], input[i], trace[i + 1], output[i]));
            assert(trace[i].steps(input[i], trace[i + 1], output[i]));
            let (a, b, x, y) = (trace[i], trace[i + 1], input[i], output[i]);
            let delayed = choose|delayed: u32| #[trigger] added_is::<F>(x, delayed, a.mix, y);
            let p = choose|p: u32| #[trigger]
                product_is::<F>(delayed, a.mix, p) && sum_is::<F>(x, p, y);
            assert(finite(x));
            if !not_a_number(p) {
                units_of_one();
                units_follow_the_order(p, ZERO);
                zero_adds_nothing::<F>(x, p, y);
            }
        }
    }
}

/// A block has one mix.
proof fn mix_stays<F: Arith>(
    before: DelayRun<F>,
    input: Seq<u32>,
    after: DelayRun<F>,
    output: Seq<u32>,
    trace: Seq<DelayRun<F>>,
    n: int,
)
    requires
        traces(stepping::<DelayRun<F>>(), before, input, after, output, trace),
        0 <= n <= input.len(),
    ensures
        trace[n].mix == before.mix,
    decreases n,
{
    if n > 0 {
        mix_stays(before, input, after, output, trace, n - 1);
        assert(stepping::<DelayRun<F>>()(
            trace[n - 1],
            input[n - 1],
            trace[n - 1 + 1],
            output[n - 1],
        ));
    }
}

/// Going `d` places back from place `n` of a ring of `len`.
proof fn places_back(n: int, d: int, len: int)
    requires
        0 <= n,
        1 <= d <= len,
    ensures
        0 <= n % len < len,
        (n - d) % len == if n % len >= d {
            n % len - d
        } else {
            n % len - d + len
        },
        0 <= (n - d) % len < len,
{
    lemma_mod_bound(n, len);
    lemma_mod_bound(n - d, len);
    lemma_fundamental_div_mod(n, len);
    let (q, m) = (n / len, n % len);
    if m >= d {
        assert(n - d == len * q + (m - d));
        vstd::arithmetic::mul::lemma_mul_is_commutative(q, len);
        lemma_fundamental_div_mod_converse(n - d, len, q, m - d);
    } else {
        assert(len * q == len * (q - 1) + len) by (nonlinear_arith);
        vstd::arithmetic::mul::lemma_mul_is_commutative(q - 1, len);
        lemma_fundamental_div_mod_converse(n - d, len, q - 1, m - d + len);
    }
}

/// The reading point of a whole delay is the place that many samples back.
proof fn reading_point_goes_back<F: Arith>(n: nat, delay: u32, d: nat, len: usize, rp: u32)
    requires
        faithful::<F>(),
        counts::<F>(),
        1 <= d <= len,
        len < 0x100_0000,
        finite(delay) && units(delay) == d * one(),
        reading_point_is::<F>((n % len as nat) as usize, delay, len, rp),
    ensures
        finite(rp),
        units(rp) == ((n - d) % len as int) * one(),
{
    units_of_one();
    places_back(n as int, d as int, len as int);
    let pos = (n % len as nat) as usize;
    let (p, diff) = choose|p: u32, diff: u32| #[trigger]
        of_count_is::<F>(pos, p) && #[trigger] difference_is::<F>(p, delay, diff) && if below(
            diff,
            ZERO,
        ) {
            wrapped_is::<F>(diff, len, rp)
        } else {
            rp == diff
        };
    counts_are_exact::<F>(pos, p);
    let gap = pos - d;
    assert(pos * one() - d * one() == gap * one()) by (nonlinear_arith)
        requires
            gap == pos - d,
    ;
    if gap >= 0 {
        whole_numbers_are_numbers(gap as nat);
        exact_results_are_hit(gap * one(), 1, diff, whole(gap as nat));
        assert(gap * one() >= 0) by (nonlinear_arith)
            requires
                gap >= 0,
                one() > 0,
        ;
        units_follow_the_order(diff, ZERO);
    } else {
        whole_numbers_are_numbers((-gap) as nat);
        units_of_negated(whole((-gap) as nat));
        assert(gap * one() == -((-gap) * one()) && gap * one() < 0) by (nonlinear_arith)
            requires
                gap < 0,
                one() > 0,
        ;
        exact_results_are_hit(gap * one(), 1, diff, negated(whole((-gap) as nat)));
        units_follow_the_order(diff, ZERO);
        let l = choose|l: u32| #[trigger] of_count_is::<F>(len, l) && sum_is::<F>(diff, l, rp);
        counts_are_exact::<F>(len, l);
        let k = (gap + len) as nat;
        whole_numbers_are_numbers(k);
        assert(gap * one() + len * one() == k * one()) by (nonlinear_arith)
            requires
                k == gap + len,
        ;
        exact_results_are_hit(k * one(), 1, rp, whole(k));
    }
}

/// Reading a ring at a whole place gives the sample there.
proof fn reading_hits_the_sample<F: Arith>(ring: Seq<u32>, rp: u32, k: nat, r: u32)
    requires
        faithful::<F>(),
        counts::<F>(),
        k < ring.len() < 0x100_0000,
        finite(rp) && units(rp) == k * one(),
        forall|i: int| 0 <= i < ring.len() ==> finite(#[trigger] ring[i]),
        interpolated_is::<F>(ring, rp, r),
    ensures
        finite(r),
        units(r) == units(ring[k as int]),
{
    units_of_one();
    let (floor, n, frac, rest) = choose|floor: u32, n: usize, frac: u32, rest: u32|
        #![trigger floor_is::<F>(rp, floor), to_count_is::<F>(floor, n), difference_is::<F>(rp, floor, frac), difference_is::<F>(ONE, frac, rest)]
        floor_is::<F>(rp, floor) && to_count_is::<F>(floor, n) && difference_is::<F>(
            rp,
            floor,
            frac,
        ) && difference_is::<F>(ONE, frac, rest) && weighted_is::<F>(
            ring[n as int % ring.len() as int],
            rest,
            ring[(n as int % ring.len() as int + 1) % ring.len() as int],
            frac,
            r,
        );
    assert(is_count(k));
    assert(n == k);
    vstd::arithmetic::div_mod::lemma_small_mod(k, ring.len());
    lemma_mod_bound(k as int + 1, ring.len() as int);
    let (a, b) = (ring[k as int], ring[(k as int + 1) % ring.len() as int]);
    difference_to_itself::<F>(rp, floor, frac);
    zero_adds_nothing::<F>(ONE, frac, rest);
    let (ap, bq) = choose|ap: u32, bq: u32| #[trigger]
        product_is::<F>(a, rest, ap) && #[trigger] product_is::<F>(b, frac, bq) && sum_is::<F>(
            ap,
            bq,
            r,
        );
    product_with_one::<F>(a, rest, ap);
    product_with_zero::<F>(b, frac, bq);
    zero_adds_nothing::<F>(ap, bq, r);
}

/// The damping stays in bounds.
proof fn damping_is_bounded<F: Arith>(lp: u32, x: u32, r: u32)
    requires
        faithful::<F>(),
        finite(lp) && -4 * one() <= units(lp) <= 4 * one(),
        finite(x) && -one() <= units(x) <= one(),
        damped_is::<F>(lp, x, r),
    ensures
        finite(r) && -4 * one() <= units(r) <= 4 * one(),
{
    units_of_one();
    units_of_four();
    let (four, eight) = (0x4080_0000u32, 0x4100_0000u32);
    units_of_negated(four);
    units_of_negated(eight);
    let (gap, by) = choose|gap: u32, by: u32| #[trigger]
        difference_is::<F>(x, lp, gap) && #[trigger] product_is::<F>(FB_DAMP, gap, by)
            && sum_is::<F>(lp, by, r);
    let true_gap = units(x) - units(lp);
    rounds_above(true_gap, 1, gap, negated(eight));
    rounds_below(true_gap, 1, gap, eight);
    between_is_finite(negated(eight), gap, eight);
    units_follow_the_order(FB_DAMP, HALF);
    units_follow_the_order(FB_DAMP, ZERO);
    let (f, g) = (units(FB_DAMP), units(gap));
    assert(-4 * one() * one() <= f * g <= 4 * one() * one()) by (nonlinear_arith)
        requires
            0 <= f,
            2 * f <= one(),
            -8 * one() <= g <= 8 * one(),
            one() > 0,
    ;
    rounds_above(f * g, one(), by, negated(four));
    rounds_below(f * g, one(), by, four);
    between_is_finite(negated(four), by, four);
    small_products_are_finite::<F>(gap, FB_DAMP, by);
    if true_gap >= 0 {
        rounds_above(true_gap, 1, gap, ZERO);
        if units(lp) > 0 {
            rounds_below(true_gap, 1, gap, ONE);
            units_follow_the_order(gap, ONE);
        }
        assert(f * g >= 0) by (nonlinear_arith)
            requires
                f >= 0,
                g >= 0,
        ;
        rounds_above(f * g, one(), by, ZERO);
    } else {
        rounds_below(true_gap, 1, gap, ZERO);
        units_of_negated(ONE);
        if units(lp) < 0 {
            rounds_above(true_gap, 1, gap, negated(ONE));
            units_follow_the_order(gap, negated(ONE));
        }
        assert(f * g <= 0) by (nonlinear_arith)
            requires
                f >= 0,
                g <= 0,
        ;
        rounds_below(f * g, one(), by, ZERO);
    }
    let total = units(lp) + units(by);
    rounds_above(total, 1, r, negated(four));
    rounds_below(total, 1, r, four);
    between_is_finite(negated(four), r, four);
}

/// Whether an echo works on a ring of `len` with a whole delay of `d` samples, after `n`
/// samples.
pub open spec fn settled<F: Arith>(run: DelayRun<F>, d: nat, n: nat) -> bool {
    let len = run.buf@.len();
    &&& 1 <= d <= len < 0x100_0000
    &&& run.pos == n % len
    &&& finite(run.cur_delay) && units(run.cur_delay) == d * one()
    &&& finite(run.target) && units(run.target) == d * one()
    &&& finite(run.smooth) && finite(run.mix)
    &&& finite(run.fb) && 0 <= units(run.fb) <= one()
    &&& finite(run.fb_lp) && -4 * one() <= units(run.fb_lp) <= 4 * one()
    &&& forall|k: int| 0 <= k < len ==> finite(#[trigger] run.buf@[k])
}

/// One sample of an echo with a whole delay: what is read is what was written that many
/// samples ago.
proof fn settled_echo_steps<F: Arith>(
    run: DelayRun<F>,
    x: u32,
    after: DelayRun<F>,
    y: u32,
    d: nat,
    n: nat,
) -> (r: (u32, u32))
    requires
        faithful::<F>(),
        counts::<F>(),
        settled(run, d, n),
        run.steps(x, after, y),
        finite(x) && -one() <= units(x) <= one(),
        -one() <= units(run.buf@[(n - d) % run.buf@.len() as int]) <= one(),
    ensures
        settled(after, d, n + 1),
        after == (DelayRun {
            buf: after.buf,
            pos: after.pos,
            cur_delay: after.cur_delay,
            fb_lp: after.fb_lp,
            ..run
        }),
        finite(r.0) && units(r.0) == units(run.buf@[(n - d) % run.buf@.len() as int]),
        added_is::<F>(x, r.0, run.mix, y),
        damped_is::<F>(run.fb_lp, r.0, after.fb_lp),
        added_is::<F>(x, after.fb_lp, run.fb, r.1),
        after.buf@ == run.buf@.update((n % run.buf@.len()) as int, r.1),
        finite(r.1),
{
    let len = run.buf.len();
    let (rp, delayed, w) = choose|rp: u32, delayed: u32, w: u32|
        #![trigger reading_point_is::<F>(run.pos, after.cur_delay, len, rp), damped_is::<F>(run.fb_lp, delayed, after.fb_lp), added_is::<F>(x, after.fb_lp, run.fb, w)]
        {
            &&& reading_point_is::<F>(run.pos, after.cur_delay, len, rp)
            &&& interpolated_is::<F>(run.buf@, rp, delayed)
            &&& damped_is::<F>(run.fb_lp, delayed, after.fb_lp)
            &&& added_is::<F>(x, after.fb_lp, run.fb, w)
            &&& after.buf@ == run.buf@.update(run.pos as int, w)
            &&& added_is::<F>(x, delayed, run.mix, y)
        };
    target_is_kept::<F>(run.target, run.cur_delay, run.smooth, after.cur_delay);
    places_back(n as int, d as int, len as int);
    reading_point_goes_back::<F>(n, after.cur_delay, d, len, rp);
    let k = (n - d) % len as int;
    reading_hits_the_sample::<F>(run.buf@, rp, k as nat, delayed);
    damping_is_bounded::<F>(run.fb_lp, delayed, after.fb_lp);
    units_of_one();
    units_of_four();
    let eight = 0x4100_0000u32;
    units_of_negated(eight);
    let back = choose|back: u32| #[trigger]
        product_is::<F>(after.fb_lp, run.fb, back) && sum_is::<F>(x, back, w);
    small_products_are_finite::<F>(after.fb_lp, run.fb, back);
    rounds_above(units(x) + units(back), 1, w, negated(eight));
    rounds_below(units(x) + units(back), 1, w, eight);
    between_is_finite(negated(eight), w, eight);
    assert((n as int + 1) % len as int == (n as int % len as int + 1) % len as int) by {
        vstd::arithmetic::div_mod::lemma_add_mod_noop(n as int, 1, len as int);
        if len > 1 {
            vstd::arithmetic::div_mod::lemma_small_mod(1, len as nat);
        } else {
            assert(len == 1);
        }
    }
    (delayed, w)
}

/// What was played at place `j`, silence before the start.
pub open spec fn heard_at(input: Seq<u32>, j: int) -> u32 {
    if j < 0 {
        ZERO
    } else {
        input[j]
    }
}

/// `y` is a result of the dry sample `x` and an echo of `past` at the level `mix`.
pub open spec fn echoed<F: Arith>(x: u32, past: u32, mix: u32, y: u32) -> bool {
    exists|e: u32, p: u32|
        same(e, past) && #[trigger] product_is::<F>(e, mix, p) && sum_is::<F>(x, p, y)
}

/// One echo, exactly as late as the delay asks for and as loud as the mix: without
/// feedback, every sample that comes out of a fresh echo is the sample at its place, at
/// full level, plus the one from `d` samples before times the mix, however long it plays.
pub proof fn echo_comes_once<F: Arith>(
    delay: Delay<F>,
    enabled: u32,
    mix: u32,
    feedback: u32,
    time_ms: u32,
    input: Seq<u32>,
    after: Delay<F>,
    output: Seq<u32>,
    d: nat,
    i: int,
)
    requires
        faithful::<F>(),
        counts::<F>(),
        delay.processed_with(enabled, mix, feedback, time_ms, input, after, output),
        !is_off(enabled),
        4 <= delay.run.buf@.len() < 0x100_0000,
        1 <= d <= delay.run.buf@.len(),
        delay.run.buf@ == silence(delay.run.buf@.len()),
        delay.run.pos == 0,
        delay.run.fb_lp == ZERO,
        finite(delay.run.smooth),
        finite(delay.run.cur_delay) && units(delay.run.cur_delay) == d * one(),
        finite(after.run.target) && units(after.run.target) == d * one(),
        !not_a_number(mix),
        !not_a_number(feedback) && rank(feedback) <= 0,
        forall|k: int|
            0 <= k < input.len() ==> finite(#[trigger] input[k]) && -one() <= units(input[k])
                <= one(),
        0 <= i < input.len(),
    ensures
        echoed::<F>(input[i], heard_at(input, i - d), clamped(mix, ZERO, ONE), output[i]),
{
    let begin = DelayRun {
        target: after.run.target,
        fb: clamped(feedback, ZERO, MAX_FEEDBACK),
        mix: clamped(mix, ZERO, ONE),
        ..delay.run
    };
    let step = stepping::<DelayRun<F>>();
    let trace = choose|trace: Seq<DelayRun<F>>| #[trigger]
        traces(step, begin, input, after.run, output, trace);
    units_of_one();
    units_follow_the_order(begin.fb, ZERO);
    assert(settled(begin, d, 0)) by {
        vstd::arithmetic::div_mod::lemma_small_mod(0, begin.buf@.len());
    }
    ring_holds_the_past(begin, input, after.run, output, trace, d, i as nat);
    assert(step(trace[i], input[i], trace[i + 1], output[i]));
    let len = begin.buf@.len() as int;
    assert(holds_at(trace[i], input, i - d, len));
    let (e, w) = settled_echo_steps::<F>(
        trace[i],
        input[i],
        trace[i + 1],
        output[i],
        d,
        i as nat,
    );
    units_follow_the_order(e, heard_at(input, i - d));
    let p = choose|p: u32| #[trigger]
        product_is::<F>(e, begin.mix, p) && sum_is::<F>(input[i], p, output[i]);
    assert(same(e, heard_at(input, i - d)) && product_is::<F>(e, begin.mix, p));
}

/// Whether the ring holds what was played at place `j`.
spec fn holds_at<F: Arith>(run: DelayRun<F>, input: Seq<u32>, j: int, len: int) -> bool {
    units(run.buf@[j % len]) == units(heard_at(input, j))
}

/// The ring holds the last samples as they were played, until the first echo is fed back;
/// without feedback, for ever.
proof fn ring_holds_the_past<F: Arith>(
    before: DelayRun<F>,
    input: Seq<u32>,
    after: DelayRun<F>,
    output: Seq<u32>,
    trace: Seq<DelayRun<F>>,
    d: nat,
    n: nat,
)
    requires
        faithful::<F>(),
        counts::<F>(),
        traces(stepping::<DelayRun<F>>(), before, input, after, output, trace),
        settled(before, d, 0),
        before.buf@ == silence(before.buf@.len()),
        before.fb_lp == ZERO,
        units(before.fb) == 0 || n <= d,
        forall|k: int|
            0 <= k < input.len() ==> finite(#[trigger] input[k]) && -one() <= units(input[k])
                <= one(),
        n <= input.len(),
    ensures
        settled(trace[n as int], d, n),
        trace[n as int].fb == before.fb && trace[n as int].mix == before.mix,
        trace[n as int].buf@.len() == before.buf@.len(),
        n <= d ==> units(trace[n as int].fb_lp) == 0,
        forall|j: int|
            n - before.buf@.len() <= j < n ==> #[trigger] holds_at(
                trace[n as int],
                input,
                j,
                before.buf@.len() as int,
            ),
    decreases n,
{
    let len = before.buf@.len() as int;
    units_of_one();
    if n == 0 {
        assert forall|j: int| n - len <= j < n implies #[trigger] holds_at(
            trace[n as int],
            input,
            j,
            len,
        ) by {
            lemma_mod_bound(j, len);
        }
    } else {
        let k = n - 1;
        ring_holds_the_past(before, input, after, output, trace, d, k as nat);
        assert(stepping::<DelayRun<F>>()(trace[k], input[k], trace[k + 1], output[k]));
        let (a, b) = (trace[k], trace[k + 1]);
        assert(holds_at(a, input, k - d, len));
        if k - d >= 0 {
            assert(finite(input[k - d]));
        }
        assert(finite(input[k]));
        let (e, w) = settled_echo_steps::<F>(a, input[k], b, output[k], d, k as nat);
        let back = choose|back: u32| #[trigger]
            product_is::<F>(b.fb_lp, a.fb, back) && sum_is::<F>(input[k], back, w);
        if n <= d {
            let (gap, by) = choose|gap: u32, by: u32| #[trigger]
                difference_is::<F>(e, a.fb_lp, gap) && #[trigger] product_is::<F>(FB_DAMP, gap, by)
                    && sum_is::<F>(a.fb_lp, by, b.fb_lp);
            difference_to_itself::<F>(e, a.fb_lp, gap);
            product_with_zero::<F>(FB_DAMP, gap, by);
            zero_adds_nothing::<F>(a.fb_lp, by, b.fb_lp);
        }
        product_with_zero::<F>(b.fb_lp, a.fb, back);
        zero_adds_nothing::<F>(input[k], back, w);
        assert forall|j: int| n - len <= j < n implies #[trigger] holds_at(b, input, j, len) by {
            lemma_mod_bound(j, len);
            lemma_mod_bound(k, len);
            if j < k {
                assert(holds_at(a, input, j, len));
                places_back(k, k - j, len);
            }
        }
    }
}

/// `w` is a result of the sample `x` and what is fed back of a first echo of `past`: damped
/// to 0.35 of it, times the feedback.
pub open spec fn fed_back<F: Arith>(x: u32, past: u32, fb: u32, w: u32) -> bool {
    exists|e: u32, dark: u32, lp: u32, back: u32|
        #![trigger product_is::<F>(FB_DAMP, e, dark), product_is::<F>(lp, fb, back)]
        same(e, past) && product_is::<F>(FB_DAMP, e, dark) && same(lp, dark) && product_is::<F>(
            lp,
            fb,
            back,
        ) && sum_is::<F>(x, back, w)
}

/// The echo repeats: the second time a fresh echo gives back its very first sample, it is
/// darker and as much softer as the feedback asks for, and lies on top of what was played
/// in between.
pub proof fn echo_repeats_with_feedback<F: Arith>(
    delay: Delay<F>,
    enabled: u32,
    mix: u32,
    feedback: u32,
    time_ms: u32,
    input: Seq<u32>,
    after: Delay<F>,
    output: Seq<u32>,
    d: nat,
)
    requires
        faithful::<F>(),
        counts::<F>(),
        delay.processed_with(enabled, mix, feedback, time_ms, input, after, output),
        !is_off(enabled),
        4 <= delay.run.buf@.len() < 0x100_0000,
        1 <= d < delay.run.buf@.len(),
        delay.run.buf@ == silence(delay.run.buf@.len()),
        delay.run.pos == 0,
        delay.run.fb_lp == ZERO,
        finite(delay.run.smooth),
        finite(delay.run.cur_delay) && units(delay.run.cur_delay) == d * one(),
        finite(after.run.target) && units(after.run.target) == d * one(),
        !not_a_number(mix),
        !not_a_number(feedback),
        forall|k: int|
            0 <= k < input.len() ==> finite(#[trigger] input[k]) && -one() <= units(input[k])
                <= one(),
        2 * d < input.len(),
    ensures
        exists|w: u32| #[trigger]
            fed_back::<F>(
                input[d as int],
                input[0],
                clamped(feedback, ZERO, MAX_FEEDBACK),
                w,
            ) && echoed::<F>(input[2 * d as int], w, clamped(mix, ZERO, ONE), output[2 * d as int]),
{
    let begin = DelayRun {
        target: after.run.target,
        fb: clamped(feedback, ZERO, MAX_FEEDBACK),
        mix: clamped(mix, ZERO, ONE),
        ..delay.run
    };
    let step = stepping::<DelayRun<F>>();
    let trace = choose|trace: Seq<DelayRun<F>>| #[trigger]
        traces(step, begin, input, after.run, output, trace);
    units_of_one();
    units_follow_the_order(begin.fb, ZERO);
    units_follow_the_order(MAX_FEEDBACK, ONE);
    units_follow_the_order(begin.fb, MAX_FEEDBACK);
    assert(settled(begin, d, 0)) by {
        vstd::arithmetic::div_mod::lemma_small_mod(0, begin.buf@.len());
    }
    let len = begin.buf@.len() as int;
    let k = d as int;
    ring_holds_the_past(begin, input, after.run, output, trace, d, d);
    assert(step(trace[k], input[k], trace[k + 1], output[k]));
    assert(holds_at(trace[k], input, 0, len));
    assert(finite(input[0]) && finite(input[k]));
    let (e, w) = settled_echo_steps::<F>(trace[k], input[k], trace[k + 1], output[k], d, d);
    let lp = trace[k + 1].fb_lp;
    assert(fed_back::<F>(input[k], input[0], begin.fb, w)) by {
        let (gap, by) = choose|gap: u32, by: u32| #[trigger]
            difference_is::<F>(e, trace[k].fb_lp, gap) && #[trigger] product_is::<F>(
                FB_DAMP,
                gap,
                by,
            ) && sum_is::<F>(trace[k].fb_lp, by, lp);
        zero_adds_nothing::<F>(e, trace[k].fb_lp, gap);
        units_follow_the_order(gap, input[0]);
        units_follow_the_order(FB_DAMP, ONE);
        units_follow_the_order(FB_DAMP, ZERO);
        small_products_are_finite::<F>(gap, FB_DAMP, by);
        zero_adds_nothing::<F>(by, trace[k].fb_lp, lp);
        let back = choose|back: u32| #[trigger]
            product_is::<F>(lp, begin.fb, back) && sum_is::<F>(input[k], back, w);
        assert(product_is::<F>(FB_DAMP, gap, by) && product_is::<F>(lp, begin.fb, back));
    }
    first_echo_stays(begin, input, after.run, output, trace, d, w, 2 * d);
    let m = 2 * d as int;
    assert(step(trace[m], input[m], trace[m + 1], output[m]));
    vstd::arithmetic::div_mod::lemma_small_mod(d, len as nat);
    assert(finite(input[m]));
    let (x, y) = (input[m], output[m]);
    let (a, b) = (trace[m], trace[m + 1]);
    let (rp, delayed, written) = choose|rp: u32, delayed: u32, written: u32|
        #![trigger reading_point_is::<F>(a.pos, b.cur_delay, a.buf.len(), rp), damped_is::<F>(a.fb_lp, delayed, b.fb_lp), added_is::<F>(x, b.fb_lp, a.fb, written)]
        {
            &&& reading_point_is::<F>(a.pos, b.cur_delay, a.buf.len(), rp)
            &&& interpolated_is::<F>(a.buf@, rp, delayed)
            &&& damped_is::<F>(a.fb_lp, delayed, b.fb_lp)
            &&& added_is::<F>(x, b.fb_lp, a.fb, written)
            &&& b.buf@ == a.buf@.update(a.pos as int, written)
            &&& added_is::<F>(x, delayed, a.mix, y)
        };
    target_is_kept::<F>(a.target, a.cur_delay, a.smooth, b.cur_delay);
    reading_point_goes_back::<F>(2 * d, b.cur_delay, d, a.buf.len(), rp);
    reading_hits_the_sample::<F>(a.buf@, rp, d, delayed);
    units_follow_the_order(delayed, w);
    let p = choose|p: u32| #[trigger] product_is::<F>(delayed, a.mix, p) && sum_is::<F>(x, p, y);
    assert(same(delayed, w) && product_is::<F>(delayed, begin.mix, p));
    assert(echoed::<F>(x, w, begin.mix, y));
}

/// What was written when the first echo came stays in the ring until it is read.
proof fn first_echo_stays<F: Arith>(
    before: DelayRun<F>,
    input: Seq<u32>,
    after: DelayRun<F>,
    output: Seq<u32>,
    trace: Seq<DelayRun<F>>,
    d: nat,
    w: u32,
    n: nat,
)
    requires
        faithful::<F>(),
        counts::<F>(),
        traces(stepping::<DelayRun<F>>(), before, input, after, output, trace),
        settled(before, d, 0),
        d < before.buf@.len(),
        before.buf@ == silence(before.buf@.len()),
        before.fb_lp == ZERO,
        forall|k: int|
            0 <= k < input.len() ==> finite(#[trigger] input[k]) && -one() <= units(input[k])
                <= one(),
        d < n <= 2 * d,
        2 * d < input.len(),
        finite(w),
        trace[d as int + 1].buf@ == trace[d as int].buf@.update(
            (d % before.buf@.len()) as int,
            w,
        ),
    ensures
        settled(trace[n as int], d, n),
        trace[n as int].mix == before.mix,
        trace[n as int].buf@.len() == before.buf@.len(),
        trace[n as int].buf@[d as int] == w,
        forall|j: int|
            n - before.buf@.len() <= j < d ==> #[trigger] holds_at(
                trace[n as int],
                input,
                j,
                before.buf@.len() as int,
            ),
    decreases n,
{
    let len = before.buf@.len() as int;
    units_of_one();
    vstd::arithmetic::div_mod::lemma_small_mod(d, len as nat);
    let k = n - 1;
    if k == d {
        ring_holds_the_past(before, input, after, output, trace, d, d);
    } else {
        first_echo_stays(before, input, after, output, trace, d, w, k as nat);
    }
    assert(stepping::<DelayRun<F>>()(trace[k], input[k], trace[k + 1], output[k]));
    let (a, b) = (trace[k], trace[k + 1]);
    assert(holds_at(a, input, k - d, len));
    assert(finite(input[k - d]) && finite(input[k]));
    let (e, written) = settled_echo_steps::<F>(a, input[k], b, output[k], d, k as nat);
    lemma_mod_bound(k, len);
    if k > d {
        places_back(k, k - d, len);
    }
    assert forall|j: int| n - len <= j < d implies #[trigger] holds_at(b, input, j, len) by {
        lemma_mod_bound(j, len);
        assert(holds_at(a, input, j, len));
        places_back(k, k - j, len);
    }
}

/// The delay is what its time takes at the sample rate: for every number of seconds up to
/// a thousandth of the milliseconds, and every number of samples up to what it takes,
/// the delay is at least that; and likewise from above. It keeps between one sample and
/// two less than the ring.
pub proof fn delay_takes_its_time<F: Arith>(
    time_ms: u32,
    sample_rate: u32,
    len: usize,
    r: u32,
    secs: u32,
    samples: u32,
)
    requires
        faithful::<F>(),
        counts::<F>(),
        length_is::<F>(time_ms, sample_rate, len, r),
        4 <= len < 0x100_0000,
        finite(time_ms) && finite(sample_rate) && units(sample_rate) >= 0,
        finite(secs) && finite(samples),
        one() <= units(samples) <= (len - 2) * one(),
    ensures
        1000 * units(secs) <= units(time_ms) && units(samples) * one() <= units(secs) * units(
            sample_rate,
        ) ==> units(samples) <= units(r),
        1000 * units(secs) >= units(time_ms) && units(samples) * one() >= units(secs) * units(
            sample_rate,
        ) ==> units(r) <= units(samples),
{
    units_of_one();
    units_of_thousand();
    let (s, n, l, most) = choose|s: u32, n: u32, l: u32, most: u32|
        #![trigger quotient_is::<F>(time_ms, MILLIS, s), product_is::<F>(s, sample_rate, n), difference_is::<F>(l, TWO, most)]
        quotient_is::<F>(time_ms, MILLIS, s) && product_is::<F>(s, sample_rate, n)
            && of_count_is::<F>(len, l) && difference_is::<F>(l, TWO, most) && r == clamped(
            n,
            ONE,
            most,
        );
    counts_are_exact::<F>(len, l);
    whole_numbers_are_numbers((len - 2) as nat);
    assert(len * one() - 2 * one() == (len - 2) * one()) by (nonlinear_arith);
    exact_results_are_hit((len - 2) * one(), 1, most, whole((len - 2) as nat));
    let (t, sr, us, un, k) = (
        units(time_ms),
        units(sample_rate),
        units(secs),
        units(samples),
        units(MILLIS),
    );
    assert(1000 * us <= t ==> us * k <= t * one()) by (nonlinear_arith)
        requires
            k == 1000 * one(),
            one() > 0,
    ;
    assert(1000 * us >= t ==> us * k >= t * one()) by (nonlinear_arith)
        requires
            k == 1000 * one(),
            one() > 0,
    ;
    small_quotients_are_finite::<F>(time_ms, MILLIS, s);
    units_follow_the_order(n, ONE);
    units_follow_the_order(n, most);
    units_follow_the_order(most, ONE);
    units_follow_the_order(r, samples);
    units_follow_the_order(n, samples);
    if 1000 * us <= t && un * one() <= us * sr {
        rounds_above(t * one(), k, s, secs);
        assert(us * sr <= units(s) * sr) by (nonlinear_arith)
            requires
                us <= units(s),
                sr >= 0,
        ;
        rounds_above(units(s) * sr, one(), n, samples);
    }
    if 1000 * us >= t && un * one() >= us * sr {
        rounds_below(t * one(), k, s, secs);
        assert(us * sr >= units(s) * sr) by (nonlinear_arith)
            requires
                us >= units(s),
                sr >= 0,
        ;
        rounds_below(units(s) * sr, one(), n, samples);
    }
}

/// A new delay time is glided to within 50 ms, at every sample rate.
pub proof fn delay_glides_within_its_time<F: Arith>(
    delay: Delay<F>,
    sample_rate: u32,
    max_block: usize,
    after: Delay<F>,
)
    requires
        faithful::<F>(),
        delay.prepared(sample_rate, max_block, after),
        finite(sample_rate) && 8000 * one() <= units(sample_rate),
    ensures
        keeps_over::<F>(sample_rate, 50, 1000, after.run.smooth),
{
    vstd::arithmetic::power2::lemma2_to64();
    units_of_one();
    constants_round(0x3d4c_cccd, 50, 1000, 122, 0x4ccccd, 32);
    units_follow_the_order(GLIDE_SECS, ONE);
    poles_follow_their_time::<F>(sample_rate, GLIDE_SECS, 50, 1000, after.run.smooth);
}

/// Rounding down gives the whole number at or below a number.
pub open spec fn floors<F: Arith>() -> bool {
    forall|a: u32, r: u32|
        finite(a) && 0 <= units(a) < 0x100_0000 * one() && #[trigger] floor_is::<F>(a, r) ==> finite(
            r,
        ) && exists|n: nat| #[trigger] is_count(n) && units(r) == n * one() && n * one() <= units(a)
            < (n + 1) * one()
}

/// A reading point between two samples of the ring takes of both: of the one before it
/// less the further it lies past it, and of the one after it more; next to it at every
/// step.
pub proof fn echoes_mix_their_neighbours<F: Arith>(ring: Seq<u32>, rp: u32, r: u32)
    requires
        faithful::<F>(),
        counts::<F>(),
        floors::<F>(),
        interpolated_is::<F>(ring, rp, r),
        0 < ring.len() < 0x100_0000,
        finite(rp) && 0 <= units(rp) < 0x100_0000 * one(),
        forall|k: int| 0 <= k < ring.len() ==> finite(#[trigger] ring[k]),
    ensures
        exists|n: nat, frac: u32, rest: u32, ap: u32, bq: u32|
            #![trigger rounds(units(rp) - n * one(), 1, frac), rounds(one() - units(frac), 1, rest), rounds(units(ap) + units(bq), 1, r)]
            {
                &&& n * one() <= units(rp) < (n + 1) * one()
                &&& rounds(units(rp) - n * one(), 1, frac)
                &&& rounds(one() - units(frac), 1, rest)
                &&& rounds(units(ring[n as int % ring.len() as int]) * units(rest), one(), ap)
                &&& rounds(
                    units(ring[(n + 1) as int % ring.len() as int]) * units(frac),
                    one(),
                    bq,
                )
                &&& rounds(units(ap) + units(bq), 1, r)
            },
{
    units_of_one();
    let len = ring.len() as int;
    let (below_rp, n, frac, rest) = choose|below_rp: u32, n: usize, frac: u32, rest: u32|
        #![trigger floor_is::<F>(rp, below_rp), to_count_is::<F>(below_rp, n), difference_is::<F>(rp, below_rp, frac), difference_is::<F>(ONE, frac, rest)]
        floor_is::<F>(rp, below_rp) && to_count_is::<F>(below_rp, n) && difference_is::<F>(
            rp,
            below_rp,
            frac,
        ) && difference_is::<F>(ONE, frac, rest) && weighted_is::<F>(
            ring[n as int % ring.len() as int],
            rest,
            ring[(n as int % ring.len() as int + 1) % ring.len() as int],
            frac,
            r,
        );
    let m = choose|m: nat| #[trigger]
        is_count(m) && units(below_rp) == m * one() && m * one() <= units(rp) < (m + 1) * one();
    assert(n == m);
    vstd::arithmetic::div_mod::lemma_mod_bound(n as int, len);
    vstd::arithmetic::div_mod::lemma_mod_bound(n as int + 1, len);
    assert((n as int % len + 1) % len == (n + 1) % len) by {
        vstd::arithmetic::div_mod::lemma_add_mod_noop_right(1, n as int, len);
    }
    let (a, b) = (ring[n as int % len], ring[(n + 1) % len]);
    let (ap, bq) = choose|ap: u32, bq: u32| #[trigger]
        product_is::<F>(a, rest, ap) && #[trigger] product_is::<F>(b, frac, bq) && sum_is::<F>(
            ap,
            bq,
            r,
        );
    assert((m + 1) * one() == m * one() + one()) by (nonlinear_arith);
    let gap = units(rp) - m * one();
    rounds_above(gap, 1, frac, ZERO);
    rounds_below(gap, 1, frac, ONE);
    between_is_finite(ZERO, frac, ONE);
    rounds_above(one() - units(frac), 1, rest, ZERO);
    rounds_below(one() - units(frac), 1, rest, ONE);
    between_is_finite(ZERO, rest, ONE);
    small_products_are_finite::<F>(a, rest, ap);
    small_products_are_finite::<F>(b, frac, bq);
}

/// Feedback and mix are held in bounds: the feedback between nothing and 0.95, so that
/// every echo dies away, and the mix between nothing and one; within them they are taken as
/// they are.
pub proof fn feedback_is_held_below_one<F: Arith>(
    delay: Delay<F>,
    enabled: u32,
    mix: u32,
    feedback: u32,
    time_ms: u32,
    input: Seq<u32>,
    after: Delay<F>,
    output: Seq<u32>,
)
    requires
        delay.processed_with(enabled, mix, feedback, time_ms, input, after, output),
        !is_off(enabled),
        delay.run.buf@.len() >= 4,
        !not_a_number(mix) && !not_a_number(feedback),
    ensures
        finite(after.run.fb) && 0 <= 100 * units(after.run.fb) <= 96 * one(),
        finite(after.run.mix) && 0 <= units(after.run.mix) <= one(),
        rank(feedback) >= 0 && finite(feedback) && 100 * units(feedback) <= 94 * one()
            ==> after.run.fb == feedback,
        rank(mix) >= 0 && rank(mix) <= rank(ONE) ==> after.run.mix == mix,
        rounds(95 * one(), 100, MAX_FEEDBACK),
        finite(feedback) && units(feedback) >= one() ==> after.run.fb == MAX_FEEDBACK,
        length_is::<F>(time_ms, delay.sr, delay.run.buf.len(), after.run.target),
{
    units_of_one();
    vstd::arithmetic::power2::lemma2_to64();
    let fb = clamped(feedback, ZERO, MAX_FEEDBACK);
    let level = clamped(mix, ZERO, ONE);
    run_keeps(
        stepping::<DelayRun<F>>(),
        |r: DelayRun<F>| r.fb == fb && r.mix == level,
        DelayRun { target: after.run.target, fb, mix: level, ..delay.run },
        input,
        after.run,
        output,
    );
    constants_round(0x3f73_3333, 95, 100, 126, 0x733333, 2);
    dyadics_are_numbers(243, 8);
    dyadics_are_numbers(245, 8);
    rounds_above(95 * one(), 100, MAX_FEEDBACK, dyadic(243, 8));
    rounds_below(95 * one(), 100, MAX_FEEDBACK, dyadic(245, 8));
    units_follow_the_order(feedback, MAX_FEEDBACK);
    units_follow_the_order(MAX_FEEDBACK, ZERO);
    between_is_finite(ZERO, fb, MAX_FEEDBACK);
    between_is_finite(ZERO, level, ONE);
}

/// The ring has room for two seconds, and four samples more.
pub proof fn ring_holds_two_seconds<F: Arith>(sample_rate: u32, n: nat, len: usize)
    requires
        faithful::<F>(),
        counts::<F>(),
        room_is::<F>(sample_rate, len),
        finite(sample_rate) && units(sample_rate) == n * one(),
        n < 0x40_0000,
    ensures
        len == 2 * n + 4,
{
    units_of_one();
    whole_numbers_are_numbers(2 * n);
    let (samples, m) = choose|samples: u32, m: usize| #[trigger]
        product_is::<F>(MAX_DELAY_SECS, sample_rate, samples) && #[trigger] to_count_is::<F>(
            samples,
            m,
        ) && len == if m + 4 > usize::MAX {
            usize::MAX
        } else {
            (m + 4) as usize
        };
    let o = one();
    assert(((2 * n) * o) * o == (2 * o) * (n * o)) by (nonlinear_arith);
    exact_results_are_hit((2 * o) * (n * o), o, samples, whole(2 * n));
    assert(is_count(2 * n));
}

/// The delay in force glides to the one asked for: of the distance, what the smoother keeps
/// is left after every sample; next to it at every step.
pub proof fn delay_glides_to_its_target<F: Arith>(
    run: DelayRun<F>,
    x: u32,
    after: DelayRun<F>,
    y: u32,
)
    requires
        faithful::<F>(),
        run.steps(x, after, y),
        finite(run.target) && 0 <= units(run.target) <= 0x40_0000 * one(),
        finite(run.cur_delay) && 0 <= units(run.cur_delay) <= 0x40_0000 * one(),
        finite(run.smooth) && 0 <= units(run.smooth) <= one(),
    ensures
        exists|gap: u32, left: u32|
            #![trigger rounds(units(run.cur_delay) - units(run.target), 1, gap), rounds(units(gap) * units(run.smooth), one(), left)]
            {
                &&& rounds(units(run.cur_delay) - units(run.target), 1, gap)
                &&& rounds(units(gap) * units(run.smooth), one(), left)
                &&& rounds(units(run.target) + units(left), 1, after.cur_delay)
            },
        units(run.smooth) == 0 ==> units(after.cur_delay) == units(run.target),
{
    units_of_one();
    let (gap, left) = choose|gap: u32, left: u32|
        #![trigger difference_is::<F>(run.cur_delay, run.target, gap), product_is::<F>(gap, run.smooth, left)]
        difference_is::<F>(run.cur_delay, run.target, gap) && product_is::<F>(gap, run.smooth, left)
            && sum_is::<F>(run.target, left, after.cur_delay);
    whole_numbers_are_numbers(0x40_0000);
    units_of_negated(whole(0x40_0000));
    let apart = units(run.cur_delay) - units(run.target);
    rounds_above(apart, 1, gap, negated(whole(0x40_0000)));
    rounds_below(apart, 1, gap, whole(0x40_0000));
    between_is_finite(negated(whole(0x40_0000)), gap, whole(0x40_0000));
    small_products_are_finite::<F>(gap, run.smooth, left);
    if units(run.smooth) == 0 {
        product_with_zero::<F>(gap, run.smooth, left);
        exact_results_are_hit(units(run.target) + units(left), 1, after.cur_delay, run.target);
    }
}

} // verus!
