//! Metronome.
//!
//! Adds clicks to what comes in: short decaying sines, four beats to a bar, the
//! first of them higher and louder. It sits behind the volume, so the level of
//! the clicks is its own.
use crate::arith::{
    difference_is, pole, pole_is, product_is, quotient_is, sin_is, sum_is, Arith, TAU,
};
use crate::bits::{
    at_least, below, clamp, clamped, ge, is_off, lt, negated, not_a_number, off, rank, HALF, ONE,
    ZERO,
};
use crate::block::{
    alike_states_run_alike, follows_suit, run_block, run_keeps, runs, stepping, traces, Step,
};
use crate::number::{
    between_is_finite, constants_round, exact_results_are_hit, factor_up_to_one_shrinks, faithful,
    finite, keeps_over, one, poles_follow_their_time, rounds, rounds_above, rounds_below,
    rounds_scales, same, small_products_are_finite, units, units_follow_the_order, units_of_negated,
    units_of_one, whole, whole_numbers_are_numbers, zero_adds_nothing, OCTAVE,
};
use crate::param::{read, read_is, SharedParam};
use crate::processor::{
    alike_units_perform_alike, matches_step, performs, playing_keeps, plays, AudioProcessor,
    DEFAULT_RATE,
};
use core::marker::PhantomData;
use vstd::prelude::*;

verus! {

/// Beats in a bar; the first carries the accent.
pub const BEATS_PER_BAR: usize = 4;

/// Frequency of an accent, 1600 Hz.
pub const ACCENT_HZ: u32 = 0x44c8_0000;

/// Frequency of the other beats, 1000 Hz.
pub const NORMAL_HZ: u32 = 0x447a_0000;

/// Amplitude of the beats without an accent, 0.7.
pub const NORMAL_ENV: u32 = 0x3f33_3333;

/// Slowest tempo, 20 beats a minute.
pub const MIN_BPM: u32 = 0x41a0_0000;

/// Fastest tempo, 300 beats a minute.
pub const MAX_BPM: u32 = 0x4396_0000;

/// Seconds in a minute.
pub const MINUTE: u32 = 0x4270_0000;

/// A click fades in 30 ms.
pub const CLICK_SECS: u32 = 0x3cf5_c28f;

/// A click has died away at 1e-4.
pub const DEAD_ENV: u32 = 0x38d1_b717;

/// The metronome at work on a block.
pub struct MetroRun<F> {
    /// Samples since the last beat.
    pub phase: u32,
    /// The beat that comes next.
    pub beat: usize,
    /// Amplitude of the click.
    pub env: u32,
    /// Angle of the click.
    pub osc: u32,
    /// Frequency of the click.
    pub freq: u32,
    /// What is kept of the amplitude over one sample.
    pub decay: u32,
    /// The sample rate.
    pub sr: u32,
    /// Samples from beat to beat.
    pub period: u32,
    /// Volume of the clicks.
    pub level: u32,
    /// The arithmetic.
    pub arith: PhantomData<F>,
}

impl<F: Arith> MetroRun<F> {
    /// Whether a beat falls on the next sample.
    pub open spec fn strikes(&self) -> bool {
        at_least(self.phase, self.period)
    }

    /// `after` is `self` past the beat, if one falls now.
    pub open spec fn struck(&self, after: Self) -> bool {
        if self.strikes() {
            &&& after == MetroRun {
                phase: after.phase,
                beat: ((self.beat + 1) % BEATS_PER_BAR as int) as usize,
                env: if self.beat == 0 {
                    ONE
                } else {
                    NORMAL_ENV
                },
                osc: ZERO,
                freq: if self.beat == 0 {
                    ACCENT_HZ
                } else {
                    NORMAL_HZ
                },
                ..*self
            }
            &&& difference_is::<F>(self.phase, self.period, after.phase)
        } else {
            after == *self
        }
    }

    /// `self` adds its click to `x`, which becomes `y`, and turns into `after`.
    pub open spec fn sounds(&self, x: u32, after: Self, y: u32) -> bool {
        if below(DEAD_ENV, self.env) {
            &&& after == MetroRun { osc: after.osc, env: after.env, ..*self }
            &&& click_is::<F>(x, self.osc, self.env, self.level, y)
            &&& turned_is::<F>(self.osc, self.freq, self.sr, after.osc)
            &&& product_is::<F>(self.env, self.decay, after.env)
        } else {
            after == *self && y == x
        }
    }

    /// Takes the beat, if one falls now.
    pub fn strike(&mut self)
        requires
            old(self).sound(),
        ensures
            final(self).sound(),
            old(self).struck(*final(self)),
    {
        if ge(self.phase, self.period) {
            self.phase = F::minus(self.phase, self.period);
            if self.beat == 0 {
                self.freq = ACCENT_HZ;
                self.env = ONE;
            } else {
                self.freq = NORMAL_HZ;
                self.env = NORMAL_ENV;
            }
            self.osc = ZERO;
            self.beat = (self.beat + 1) % BEATS_PER_BAR;
        }
    }

    /// Adds the click to a sample.
    pub fn ring(&mut self, x: u32) -> (y: u32)
        ensures
            old(self).sounds(x, *final(self), y),
    {
        if lt(DEAD_ENV, self.env) {
            let y: u32 = click::<F>(x, self.osc, self.env, self.level);
            self.osc = turned::<F>(self.osc, self.freq, self.sr);
            self.env = F::times(self.env, self.decay);
            y
        } else {
            x
        }
    }
}

/// `r` is a result of `x + sin(osc) * env * level * 0.5`.
pub open spec fn click_is<F: Arith>(x: u32, osc: u32, env: u32, level: u32, r: u32) -> bool {
    exists|wave: u32, shaped: u32, loud: u32, halved: u32|
        #![trigger sin_is::<F>(osc, wave), product_is::<F>(wave, env, shaped), product_is::<F>(shaped, level, loud), product_is::<F>(loud, HALF, halved)]
        sin_is::<F>(osc, wave) && product_is::<F>(wave, env, shaped) && product_is::<F>(
            shaped,
            level,
            loud,
        ) && product_is::<F>(loud, HALF, halved) && sum_is::<F>(x, halved, r)
}

/// A sample with a click on it.
pub fn click<F: Arith>(x: u32, osc: u32, env: u32, level: u32) -> (r: u32)
    ensures
        click_is::<F>(x, osc, env, level, r),
{
    let wave: u32 = F::sin(osc);
    let shaped: u32 = F::times(wave, env);
    let loud: u32 = F::times(shaped, level);
    let halved: u32 = F::times(loud, HALF);
    let r: u32 = F::plus(x, halved);
    assert(sin_is::<F>(osc, wave) && product_is::<F>(wave, env, shaped) && product_is::<F>(
        shaped,
        level,
        loud,
    ) && product_is::<F>(loud, HALF, halved));
    r
}

/// `r` is a result of the angle one sample on: `osc + TAU * freq / sr`, less a
/// full turn where it exceeds one.
pub open spec fn turned_is<F: Arith>(osc: u32, freq: u32, sr: u32, r: u32) -> bool {
    exists|speed: u32, by: u32, raw: u32|
        #![trigger product_is::<F>(TAU, freq, speed), quotient_is::<F>(speed, sr, by), sum_is::<F>(osc, by, raw)]
        product_is::<F>(TAU, freq, speed) && quotient_is::<F>(speed, sr, by) && sum_is::<F>(
            osc,
            by,
            raw,
        ) && if below(TAU, raw) {
            difference_is::<F>(raw, TAU, r)
        } else {
            r == raw
        }
}

/// The angle one sample on.
pub fn turned<F: Arith>(osc: u32, freq: u32, sr: u32) -> (r: u32)
    ensures
        turned_is::<F>(osc, freq, sr, r),
{
    let speed: u32 = F::times(TAU, freq);
    let by: u32 = F::over(speed, sr);
    let raw: u32 = F::plus(osc, by);
    assert(product_is::<F>(TAU, freq, speed) && quotient_is::<F>(speed, sr, by) && sum_is::<F>(
        osc,
        by,
        raw,
    ));
    if lt(TAU, raw) {
        F::minus(raw, TAU)
    } else {
        raw
    }
}

impl<F: Arith> Step for MetroRun<F> {
    open spec fn sound(&self) -> bool {
        self.beat < BEATS_PER_BAR
    }

    open spec fn steps(&self, x: u32, after: Self, y: u32) -> bool {
        exists|mid: Self, rung: Self|
            self.struck(mid) && #[trigger] mid.sounds(x, rung, y) && after == (MetroRun {
                phase: after.phase,
                ..rung
            }) && sum_is::<F>(rung.phase, ONE, after.phase)
    }

    fn step(&mut self, x: u32) -> (y: u32) {
        self.strike();
        let ghost mid = *self;
        let y: u32 = self.ring(x);
        assert(mid.sounds(x, *self, y));
        self.phase = F::plus(self.phase, ONE);
        y
    }
}

/// `r` is a result of the samples from beat to beat: `sr * 60 / bpm`, the tempo
/// pulled into 20 to 300.
pub open spec fn period_is<F: Arith>(sr: u32, bpm: u32, r: u32) -> bool {
    exists|span: u32| #[trigger]
        product_is::<F>(sr, MINUTE, span) && quotient_is::<F>(
            span,
            clamped(bpm, MIN_BPM, MAX_BPM),
            r,
        )
}

/// The samples from beat to beat.
pub fn period<F: Arith>(sr: u32, bpm: u32) -> (r: u32)
    ensures
        period_is::<F>(sr, bpm, r),
{
    let span: u32 = F::times(sr, MINUTE);
    assert(product_is::<F>(sr, MINUTE, span));
    F::over(span, clamp(bpm, MIN_BPM, MAX_BPM))
}

/// The metronome.
pub struct Metronome<F> {
    /// Tempo in beats a minute.
    pub bpm: SharedParam,
    /// Volume of the clicks, 0 to 1.
    pub level: SharedParam,
    /// On above one half.
    pub enabled: SharedParam,
    /// Whether it ticked in the block before.
    pub running: bool,
    /// The running state.
    pub run: MetroRun<F>,
}

impl<F: Arith> Metronome<F> {
    /// A metronome at rest that follows the three parameters.
    pub fn new(bpm: SharedParam, level: SharedParam, enabled: SharedParam) -> (r: Self)
        ensures
            r.bpm == bpm,
            r.level == level,
            r.enabled == enabled,
            r.wf(),
            !r.running,
            r.run.sr == DEFAULT_RATE,
            r.run.freq == NORMAL_HZ,
            r.run.phase == ZERO && r.run.beat == 0 && r.run.env == ZERO && r.run.osc == ZERO,
            r.run.decay == ZERO,
    {
        Metronome {
            bpm,
            level,
            enabled,
            running: false,
            run: MetroRun {
                phase: ZERO,
                beat: 0,
                env: ZERO,
                osc: ZERO,
                freq: NORMAL_HZ,
                decay: ZERO,
                sr: DEFAULT_RATE,
                period: ZERO,
                level: ZERO,
                arith: PhantomData,
            },
        }
    }

    /// `begin` is the state that a block starts from: that of the block before,
    /// or, where the metronome was just switched on, the first beat of a bar that
    /// is due at once.
    pub open spec fn begins(&self, start_bpm: u32, begin: MetroRun<F>) -> bool {
        if self.running {
            begin == self.run
        } else {
            &&& begin == MetroRun { beat: 0, phase: begin.phase, env: ZERO, ..self.run }
            &&& period_is::<F>(self.run.sr, start_bpm, begin.phase)
        }
    }

    /// A block at given parameter values; `start_bpm` is the tempo at the moment
    /// of switching on.
    pub open spec fn processed_with(
        &self,
        enabled: u32,
        start_bpm: u32,
        bpm: u32,
        level: u32,
        input: Seq<u32>,
        after: Self,
        output: Seq<u32>,
    ) -> bool {
        &&& after == Metronome { running: after.running, run: after.run, ..*self }
        &&& after.running == !is_off(enabled)
        &&& if is_off(enabled) {
            after.run == self.run && output == input
        } else {
            &&& period_is::<F>(self.run.sr, bpm, after.run.period)
            &&& exists|begin: MetroRun<F>| #[trigger]
                self.begins(start_bpm, begin) && runs(
                    stepping::<MetroRun<F>>(),
                    MetroRun {
                        period: after.run.period,
                        level: clamped(level, ZERO, ONE),
                        ..begin
                    },
                    input,
                    after.run,
                    output,
                )
        }
    }

    /// One block at given parameter values.
    pub fn process_with(
        &mut self,
        enabled: u32,
        start_bpm: u32,
        bpm: u32,
        level: u32,
        buf: &mut [u32],
    )
        requires
            old(self).wf(),
        ensures
            final(self).wf(),
            final(buf)@.len() == old(buf)@.len(),
            old(self).processed_with(
                enabled,
                start_bpm,
                bpm,
                level,
                old(buf)@,
                *final(self),
                final(buf)@,
            ),
    {
        if off(enabled) {
            self.running = false;
            return;
        }
        if !self.running {
            self.running = true;
            self.run.beat = 0;
            self.run.phase = period::<F>(self.run.sr, start_bpm);
            self.run.env = ZERO;
        }
        let ghost first = self.run;
        assert(old(self).begins(start_bpm, first));
        let span: u32 = period::<F>(self.run.sr, bpm);
        self.run.period = span;
        self.run.level = clamp(level, ZERO, ONE);
        let ghost begin = self.run;
        run_block(&mut self.run, buf);
        proof {
            run_keeps(
                stepping::<MetroRun<F>>(),
                |r: MetroRun<F>| r.period == span,
                begin,
                old(buf)@,
                self.run,
                buf@,
            );
        }
    }
}

impl<F: Arith> AudioProcessor for Metronome<F> {
    open spec fn wf(&self) -> bool {
        self.run.sound()
    }

    open spec fn accepts(&self, n: nat) -> bool {
        true
    }

    open spec fn resettable(&self) -> bool {
        true
    }

    open spec fn prepared(&self, sample_rate: u32, max_block: usize, after: Self) -> bool {
        &&& after == Metronome {
            running: false,
            run: MetroRun {
                sr: sample_rate,
                decay: after.run.decay,
                phase: ZERO,
                beat: 0,
                env: ZERO,
                osc: ZERO,
                ..self.run
            },
            ..*self
        }
        &&& pole_is::<F>(sample_rate, CLICK_SECS, after.run.decay)
    }

    /// As at some values that the parameters had.
    open spec fn processed(&self, input: Seq<u32>, after: Self, output: Seq<u32>) -> bool {
        exists|enabled: u32, start_bpm: u32, bpm: u32, level: u32| #[trigger]
            self.processed_with(enabled, start_bpm, bpm, level, input, after, output) && read_is(
                self.enabled,
                enabled,
            ) && read_is(self.bpm, start_bpm) && read_is(self.bpm, bpm) && read_is(
                self.level,
                level,
            )
    }

    open spec fn cleared(&self, after: Self) -> bool {
        after == (Metronome {
            running: false,
            run: MetroRun { phase: ZERO, beat: 0, env: ZERO, osc: ZERO, ..self.run },
            ..*self
        })
    }

    fn prepare(&mut self, sample_rate: u32, _max_block: usize) {
        self.run.sr = sample_rate;
        self.run.decay = pole::<F>(sample_rate, CLICK_SECS);
        self.reset();
    }

    fn process(&mut self, buf: &mut [u32]) {
        let enabled: u32 = read(&self.enabled);
        let start_bpm: u32 = read(&self.bpm);
        let bpm: u32 = read(&self.bpm);
        let level: u32 = read(&self.level);
        self.process_with(enabled, start_bpm, bpm, level, buf);
    }

    fn reset(&mut self) {
        self.run.phase = ZERO;
        self.run.beat = 0;
        self.run.env = ZERO;
        self.run.osc = ZERO;
        self.running = false;
    }
}

/// A metronome that is switched off adds nothing, and starts anew when it is
/// switched on.
pub proof fn disabled_metronome_is_silent<F: Arith>(
    metro: Metronome<F>,
    enabled: u32,
    start_bpm: u32,
    bpm: u32,
    level: u32,
    input: Seq<u32>,
    after: Metronome<F>,
    output: Seq<u32>,
)
    requires
        metro.processed_with(enabled, start_bpm, bpm, level, input, after, output),
        is_off(enabled),
    ensures
        output == input,
        !after.running,
{
}

/// How many beats fall on the first `n` samples of a run.
pub open spec fn beats<F: Arith>(trace: Seq<MetroRun<F>>, n: nat) -> nat
    decreases n,
{
    if n == 0 {
        0
    } else if trace[n - 1].strikes() {
        beats(trace, (n - 1) as nat) + 1
    } else {
        beats(trace, (n - 1) as nat)
    }
}

/// The bar goes round: `k` beats into a run, the next beat is `k` further on
/// than at its start, counted in fours.
pub proof fn beats_go_round<F: Arith>(
    before: MetroRun<F>,
    input: Seq<u32>,
    after: MetroRun<F>,
    output: Seq<u32>,
    trace: Seq<MetroRun<F>>,
    n: nat,
)
    requires
        traces(stepping::<MetroRun<F>>(), before, input, after, output, trace),
        before.sound(),
        n <= input.len(),
    ensures
        trace[n as int].beat == (before.beat + beats(trace, n)) % BEATS_PER_BAR as int,
    decreases n,
{
    if n > 0 {
        let i = n - 1;
        beats_go_round(before, input, after, output, trace, i as nat);
        assert(stepping::<MetroRun<F>>()(trace[i], input[i], trace[i + 1], output[i]));
        assert(trace[i].steps(input[i], trace[i + 1], output[i]));
    }
}

/// Every fourth beat of a run that starts a bar is an accent, and no other: the
/// beat on sample `i` is struck as an accent if and only if the number of beats
/// before it is a multiple of four.
pub proof fn every_fourth_beat_is_an_accent<F: Arith>(
    before: MetroRun<F>,
    input: Seq<u32>,
    after: MetroRun<F>,
    output: Seq<u32>,
    trace: Seq<MetroRun<F>>,
    i: int,
)
    requires
        traces(stepping::<MetroRun<F>>(), before, input, after, output, trace),
        before.beat == 0,
        0 <= i < input.len(),
        trace[i].strikes(),
    ensures
        trace[i + 1].freq == if beats(trace, i as nat) % BEATS_PER_BAR as nat == 0 {
            ACCENT_HZ
        } else {
            NORMAL_HZ
        },
{
    beats_go_round(before, input, after, output, trace, i as nat);
    assert(stepping::<MetroRun<F>>()(trace[i], input[i], trace[i + 1], output[i]));
    assert(trace[i].steps(input[i], trace[i + 1], output[i]));
}

/// Switched on at a steady tempo, the metronome strikes an accent on the very
/// next sample.
pub proof fn first_beat_comes_at_once<F: Arith>(
    run: MetroRun<F>,
    x: u32,
    after: MetroRun<F>,
    y: u32,
)
    requires
        run.beat == 0,
        run.phase == run.period,
        !not_a_number(run.period),
        run.steps(x, after, y),
    ensures
        run.strikes(),
        after.freq == ACCENT_HZ,
        after.beat == 1,
{
}

/// However much was played, a reset leaves the metronome as `prepare` did, but for
/// the pitch of the last click and what every block sets anew.
pub proof fn reset_metronome_is_as_prepared<F: Arith>(
    metro: Metronome<F>,
    sample_rate: u32,
    max_block: usize,
    trace: Seq<Metronome<F>>,
    reset: Metronome<F>,
)
    requires
        plays(trace),
        metro.prepared(sample_rate, max_block, trace[0]),
        trace.last().cleared(reset),
    ensures
        reset == (Metronome {
            run: MetroRun {
                freq: reset.run.freq,
                period: reset.run.period,
                level: reset.run.level,
                ..trace[0].run
            },
            ..trace[0]
        }),
{
    let fresh = trace[0];
    let tuned = |r: MetroRun<F>|
        r == MetroRun { sr: fresh.run.sr, decay: fresh.run.decay, arith: fresh.run.arith, ..r };
    let kept = |m: Metronome<F>|
        m == (Metronome { running: m.running, run: m.run, ..fresh }) && tuned(m.run);
    assert forall|a: Metronome<F>, input: Seq<u32>, b: Metronome<F>, output: Seq<u32>|
        kept(a) && #[trigger] a.processed(input, b, output) implies kept(b) by {
        let (enabled, start_bpm, bpm, level) = choose|
            enabled: u32,
            start_bpm: u32,
            bpm: u32,
            level: u32,
        | #[trigger]
            a.processed_with(enabled, start_bpm, bpm, level, input, b, output);
        if !is_off(enabled) {
            let first = choose|begin: MetroRun<F>| #[trigger]
                a.begins(start_bpm, begin) && runs(
                    stepping::<MetroRun<F>>(),
                    MetroRun {
                        period: b.run.period,
                        level: clamped(level, ZERO, ONE),
                        ..begin
                    },
                    input,
                    b.run,
                    output,
                );
            run_keeps(
                stepping::<MetroRun<F>>(),
                tuned,
                MetroRun { period: b.run.period, level: clamped(level, ZERO, ONE), ..first },
                input,
                b.run,
                output,
            );
        }
    }
    playing_keeps(trace, kept);
}

/// Two states of a metronome that sound the same: they differ at most in what every
/// block sets anew, and in the pitch of a click that has died away.
pub open spec fn ticks_same<F>(a: MetroRun<F>, b: MetroRun<F>) -> bool {
    &&& b == (MetroRun { freq: b.freq, period: b.period, level: b.level, ..a })
    &&& a.freq == b.freq || !below(DEAD_ENV, a.env)
}

/// What one metronome makes of a block, another that sounds the same can make of it too,
/// and they sound the same again.
proof fn same_ticks_same_block<F: Arith>(
    a: Metronome<F>,
    b: Metronome<F>,
    input: Seq<u32>,
    after: Metronome<F>,
    output: Seq<u32>,
)
    requires
        b == (Metronome { run: b.run, ..a }),
        ticks_same(a.run, b.run),
        b.processed(input, after, output),
    ensures
        exists|next: Metronome<F>| #[trigger]
            a.processed(input, next, output) && after == (Metronome { run: after.run, ..next })
                && ticks_same(next.run, after.run),
{
    let (enabled, start_bpm, bpm, level) = choose|
        enabled: u32,
        start_bpm: u32,
        bpm: u32,
        level: u32,
    | #[trigger]
        b.processed_with(enabled, start_bpm, bpm, level, input, after, output) && read_is(
            b.enabled,
            enabled,
        ) && read_is(b.bpm, start_bpm) && read_is(b.bpm, bpm) && read_is(b.level, level);
    if is_off(enabled) {
        let next = Metronome { running: false, ..a };
        assert(a.processed_with(enabled, start_bpm, bpm, level, input, next, output));
        assert(a.processed(input, next, output));
    } else {
        let period = after.run.period;
        let loud = clamped(level, ZERO, ONE);
        let step = stepping::<MetroRun<F>>();
        let begin = choose|begin: MetroRun<F>| #[trigger]
            b.begins(start_bpm, begin) && runs(
                step,
                MetroRun { period, level: loud, ..begin },
                input,
                after.run,
                output,
            );
        let first = if a.running {
            a.run
        } else {
            MetroRun { beat: 0, phase: begin.phase, env: ZERO, ..a.run }
        };
        assert(a.begins(start_bpm, first));
        let ours = MetroRun { period, level: loud, ..first };
        let theirs = MetroRun { period, level: loud, ..begin };
        let alike = |p: MetroRun<F>, q: MetroRun<F>|
            q == (MetroRun { freq: q.freq, ..p }) && (p.freq == q.freq || !below(DEAD_ENV, p.env));
        assert(alike(ours, theirs));
        assert forall|p: MetroRun<F>, q: MetroRun<F>, x: u32, next: MetroRun<F>, y: u32|
            #![trigger follows_suit(step, alike, p, x, next, y), step(q, x, next, y)]
            alike(p, q) && step(q, x, next, y) implies follows_suit(step, alike, p, x, next, y) by {
            assert(q.steps(x, next, y));
            let (mid, rung) = choose|mid: MetroRun<F>, rung: MetroRun<F>|
                q.struck(mid) && #[trigger] mid.sounds(x, rung, y) && next == (MetroRun {
                    phase: next.phase,
                    ..rung
                }) && sum_is::<F>(rung.phase, ONE, next.phase);
            if q.strikes() || p.freq == q.freq {
                assert(p.struck(mid));
                assert(p.steps(x, next, y));
                assert(step(p, x, next, y) && alike(next, next));
            } else {
                let own = MetroRun { freq: p.freq, ..next };
                assert(p.struck(p));
                assert(p.sounds(x, p, y));
                assert(p.steps(x, own, y));
                assert(step(p, x, own, y) && alike(own, next));
            }
        }
        alike_states_run_alike(step, alike, ours, theirs, input, after.run, output);
        let run = choose|run: MetroRun<F>| #[trigger]
            runs(step, ours, input, run, output) && alike(run, after.run);
        let next = Metronome { running: true, run, ..a };
        assert(a.begins(start_bpm, first) && runs(
            step,
            MetroRun { period: next.run.period, level: loud, ..first },
            input,
            next.run,
            output,
        ));
        assert(a.processed_with(enabled, start_bpm, bpm, level, input, next, output));
        assert(a.processed(input, next, output));
    }
}

/// Whatever a metronome that was reset makes of the blocks that follow, it could have
/// made right after `prepare`.
pub proof fn reset_metronome_plays_as_prepared<F: Arith>(
    metro: Metronome<F>,
    sample_rate: u32,
    max_block: usize,
    trace: Seq<Metronome<F>>,
    reset: Metronome<F>,
    units: Seq<Metronome<F>>,
    inputs: Seq<Seq<u32>>,
    outputs: Seq<Seq<u32>>,
)
    requires
        plays(trace),
        metro.prepared(sample_rate, max_block, trace[0]),
        trace.last().cleared(reset),
        performs(units, inputs, outputs),
        units[0] == reset,
    ensures
        exists|fresh: Seq<Metronome<F>>| #[trigger]
            performs(fresh, inputs, outputs) && fresh[0] == trace[0],
{
    reset_metronome_is_as_prepared(metro, sample_rate, max_block, trace, reset);
    let alike = |a: Metronome<F>, b: Metronome<F>|
        b == (Metronome { run: b.run, ..a }) && ticks_same(a.run, b.run);
    assert(alike(trace[0], reset));
    assert forall|
        x: Metronome<F>,
        y: Metronome<F>,
        input: Seq<u32>,
        after: Metronome<F>,
        output: Seq<u32>,
    |
        #![trigger matches_step(alike, x, input, after, output), y.processed(input, after, output)]
        alike(x, y) && y.processed(input, after, output) implies matches_step(
        alike,
        x,
        input,
        after,
        output,
    ) by {
        same_ticks_same_block(x, y, input, after, output);
        let next = choose|next: Metronome<F>| #[trigger]
            x.processed(input, next, output) && after == (Metronome { run: after.run, ..next })
                && ticks_same(next.run, after.run);
        assert(x.processed(input, next, output) && alike(next, after));
    }
    alike_units_perform_alike(alike, trace[0], units, inputs, outputs);
}

/// Whether a metronome counts whole samples: `k` of them since the last beat, `n` from
/// beat to beat.
pub open spec fn counts_whole<F: Arith>(run: MetroRun<F>, k: nat, n: nat) -> bool {
    &&& 1 <= n < 0x100_0000 && k <= n
    &&& finite(run.phase) && units(run.phase) == k * one()
    &&& finite(run.period) && units(run.period) == n * one()
}

/// One sample on, one sample more is counted; at a beat the count starts anew.
proof fn whole_counts_step<F: Arith>(
    run: MetroRun<F>,
    x: u32,
    after: MetroRun<F>,
    y: u32,
    k: nat,
    n: nat,
)
    requires
        faithful::<F>(),
        counts_whole(run, k, n),
        run.steps(x, after, y),
    ensures
        run.strikes() <==> k == n,
        counts_whole(
            after,
            if k == n {
                1
            } else {
                k + 1
            },
            n,
        ),
{
    units_of_one();
    units_follow_the_order(run.phase, run.period);
    assert(k == n <==> k * one() >= n * one()) by (nonlinear_arith)
        requires
            k <= n,
            one() > 0,
    ;
    let (mid, rung) = choose|mid: MetroRun<F>, rung: MetroRun<F>|
        run.struck(mid) && #[trigger] mid.sounds(x, rung, y) && after == (MetroRun {
            phase: after.phase,
            ..rung
        }) && sum_is::<F>(rung.phase, ONE, after.phase);
    let was = if k == n {
        0
    } else {
        k
    };
    if k == n {
        exact_results_are_hit(0, 1, mid.phase, ZERO);
    }
    whole_numbers_are_numbers(was + 1);
    assert(was * one() + one() == (was + 1) * one()) by (nonlinear_arith);
    exact_results_are_hit((was + 1) * one(), 1, after.phase, whole(was + 1));
}

/// Beats are exactly one period apart: from a beat on, none falls on the samples of one
/// period, and the next falls on the one after them.
pub proof fn beats_are_one_period_apart<F: Arith>(
    before: MetroRun<F>,
    input: Seq<u32>,
    after: MetroRun<F>,
    output: Seq<u32>,
    trace: Seq<MetroRun<F>>,
    i: int,
    n: nat,
    j: nat,
)
    requires
        faithful::<F>(),
        traces(stepping::<MetroRun<F>>(), before, input, after, output, trace),
        counts_whole(trace[i], n, n),
        0 <= i,
        0 < j <= n,
        i + j < input.len(),
    ensures
        trace[i].strikes(),
        trace[i + j].strikes() <==> j == n,
        counts_whole(trace[i + j], j, n),
    decreases j,
{
    let k = i + j - 1;
    assert(stepping::<MetroRun<F>>()(trace[i], input[i], trace[i + 1], output[i]));
    whole_counts_step::<F>(trace[i], input[i], trace[i + 1], output[i], n, n);
    if j > 1 {
        beats_are_one_period_apart(before, input, after, output, trace, i, n, (j - 1) as nat);
        assert(stepping::<MetroRun<F>>()(trace[k], input[k], trace[k + 1], output[k]));
        whole_counts_step::<F>(trace[k], input[k], trace[k + 1], output[k], (j - 1) as nat, n);
    }
    let m = i + j;
    assert(stepping::<MetroRun<F>>()(trace[m], input[m], trace[m + 1], output[m]));
    whole_counts_step::<F>(trace[m], input[m], trace[m + 1], output[m], j, n);
}

/// A beat takes a minute's worth of samples over the tempo: with every number `q` up to
/// sixty times the sample rate and every number `h` up to `q` over the tempo, it is at
/// least `h`, and likewise from above.
pub proof fn beats_share_the_minute<F: Arith>(sr: u32, bpm: u32, r: u32, q: u32, h: u32)
    requires
        faithful::<F>(),
        period_is::<F>(sr, bpm, r),
        finite(sr) && 0 <= units(sr) <= 0x3_0000 * one(),
        !not_a_number(bpm),
        finite(q) && finite(h),
    ensures
        units(q) <= 60 * units(sr) && units(h) * units(clamped(bpm, MIN_BPM, MAX_BPM)) <= units(q)
            * one() ==> rank(h) <= rank(r),
        units(q) >= 60 * units(sr) && units(h) * units(clamped(bpm, MIN_BPM, MAX_BPM)) >= units(q)
            * one() ==> rank(r) <= rank(h),
        20 * one() <= units(clamped(bpm, MIN_BPM, MAX_BPM)) <= 300 * one(),
        rank(bpm) >= rank(MIN_BPM) && rank(bpm) <= rank(MAX_BPM) ==> clamped(
            bpm,
            MIN_BPM,
            MAX_BPM,
        ) == bpm,
{
    units_of_one();
    whole_numbers_are_numbers(20);
    whole_numbers_are_numbers(60);
    whole_numbers_are_numbers(300);
    whole_numbers_are_numbers(60 * 0x3_0000);
    reveal_with_fuel(whole, 24);
    assert(whole(20) == MIN_BPM && whole(60) == MINUTE && whole(300) == MAX_BPM);
    let b = clamped(bpm, MIN_BPM, MAX_BPM);
    units_follow_the_order(b, MIN_BPM);
    units_follow_the_order(b, MAX_BPM);
    let span = choose|span: u32| #[trigger]
        product_is::<F>(sr, MINUTE, span) && quotient_is::<F>(span, b, r);
    let (u, uq, uh, ub) = (units(sr), units(q), units(h), units(b));
    assert(u * (60 * one()) == (60 * u) * one()) by (nonlinear_arith);
    crate::number::rounds_scales(60 * u, 1, one(), span);
    let most = whole(60 * 0x3_0000);
    rounds_above(60 * u, 1, span, ZERO);
    rounds_below(60 * u, 1, span, most);
    between_is_finite(ZERO, span, most);
    let us = units(span);
    if uq <= 60 * u && uh * ub <= uq * one() {
        rounds_above(60 * u, 1, span, q);
        assert(uq * one() <= us * one()) by (nonlinear_arith)
            requires
                uq <= us,
                one() > 0,
        ;
        rounds_above(us * one(), ub, r, h);
    }
    if uq >= 60 * u && uh * ub >= uq * one() {
        rounds_below(60 * u, 1, span, q);
        assert(uq * one() >= us * one()) by (nonlinear_arith)
            requires
                uq >= us,
                one() > 0,
        ;
        rounds_below(us * one(), ub, r, h);
    }
}

/// What every sine has: it lies between minus one and one.
pub open spec fn swings<F: Arith>() -> bool {
    forall|a: u32, r: u32|
        finite(a) && #[trigger] sin_is::<F>(a, r) ==> finite(r) && -one() <= units(r) <= one()
}

/// Whether a click is in bounds: its amplitude between nothing and one, its angle within a
/// turn, its pitch no higher than that of an accent.
pub open spec fn click_in_bounds<F: Arith>(run: MetroRun<F>) -> bool {
    &&& finite(run.env) && 0 <= units(run.env) <= one()
    &&& finite(run.decay) && 0 <= units(run.decay) <= one()
    &&& finite(run.osc) && 0 <= units(run.osc) <= units(TAU)
    &&& finite(run.freq) && 0 <= units(run.freq) <= 1600 * one()
    &&& finite(run.sr) && 3200 * one() <= units(run.sr)
    &&& finite(run.level) && 0 <= units(run.level) <= one()
}

/// `y` is a result of adding to `x` a click of at most half the level.
pub open spec fn softly_clicked<F: Arith>(x: u32, level: u32, y: u32) -> bool {
    exists|h: u32| #[trigger]
        sum_is::<F>(x, h, y) && finite(h) && forall|c: u32| #[trigger]
            finite(c) && 2 * units(c) >= units(level) ==> -units(c) <= units(h) <= units(c)
}

/// One sample of a click that is in bounds.
proof fn clicks_step_in_bounds<F: Arith>(
    run: MetroRun<F>,
    x: u32,
    after: MetroRun<F>,
    y: u32,
)
    requires
        faithful::<F>(),
        swings::<F>(),
        click_in_bounds(run),
        run.steps(x, after, y),
    ensures
        click_in_bounds(after),
        after.level == run.level,
        y == x || softly_clicked::<F>(x, run.level, y),
{
    units_of_one();
    let (mid, rung) = choose|mid: MetroRun<F>, rung: MetroRun<F>|
        run.struck(mid) && #[trigger] mid.sounds(x, rung, y) && after == (MetroRun {
            phase: after.phase,
            ..rung
        }) && sum_is::<F>(rung.phase, ONE, after.phase);
    whole_numbers_are_numbers(1600);
    whole_numbers_are_numbers(1000);
    whole_numbers_are_numbers(12800);
    reveal_with_fuel(whole, 24);
    assert(whole(1600) == ACCENT_HZ && whole(1000) == NORMAL_HZ);
    units_follow_the_order(NORMAL_ENV, ONE);
    units_follow_the_order(NORMAL_ENV, ZERO);
    units_follow_the_order(TAU, ZERO);
    assert(click_in_bounds(mid));
    if below(DEAD_ENV, mid.env) {
        let (wave, shaped, loud, halved) = choose|wave: u32, shaped: u32, loud: u32, halved: u32|
            #![trigger sin_is::<F>(mid.osc, wave), product_is::<F>(wave, mid.env, shaped), product_is::<F>(shaped, mid.level, loud), product_is::<F>(loud, HALF, halved)]
            sin_is::<F>(mid.osc, wave) && product_is::<F>(wave, mid.env, shaped) && product_is::<F>(
                shaped,
                mid.level,
                loud,
            ) && product_is::<F>(loud, HALF, halved) && sum_is::<F>(x, halved, y);
        factor_up_to_one_shrinks::<F>(wave, mid.env, shaped);
        small_products_are_finite::<F>(mid.level, shaped, loud);
        factor_up_to_one_shrinks::<F>(loud, HALF, halved);
        let (l, hf) = (units(loud), units(HALF));
        assert forall|c: u32| #[trigger] finite(c) && 2 * units(c) >= units(run.level) implies -units(
            c,
        ) <= units(halved) <= units(c) by {
            let uc = units(c);
            units_of_negated(c);
            assert(l * hf <= uc * one() && -uc * one() <= l * hf) by (nonlinear_arith)
                requires
                    2 * hf == one(),
                    -2 * uc <= l <= 2 * uc,
                    one() > 0,
            ;
            rounds_below(l * hf, one(), halved, c);
            rounds_above(l * hf, one(), halved, negated(c));
        }
        assert(softly_clicked::<F>(x, run.level, y));
        factor_up_to_one_shrinks::<F>(mid.env, mid.decay, rung.env);
        angles_stay_within_a_turn::<F>(mid.osc, mid.freq, mid.sr, rung.osc);
    }
}

/// The angle of a click stays within a turn.
proof fn angles_stay_within_a_turn<F: Arith>(osc: u32, freq: u32, sr: u32, r: u32)
    requires
        faithful::<F>(),
        turned_is::<F>(osc, freq, sr, r),
        finite(osc) && 0 <= units(osc) <= units(TAU),
        finite(freq) && 0 <= units(freq) <= 1600 * one(),
        finite(sr) && 3200 * one() <= units(sr),
    ensures
        finite(r) && 0 <= units(r) <= units(TAU),
{
    units_of_one();
    crate::number::units_of_four();
    let (four, eight) = (0x4080_0000u32, 0x4100_0000u32);
    let twice = 0x4149_0fdbu32;
    units_follow_the_order(TAU, four);
    units_follow_the_order(TAU, eight);
    assert(units(twice) == 2 * units(TAU)) by {
        vstd::arithmetic::power2::lemma_pow2_unfold(129);
        assert(TAU / OCTAVE == 129 && TAU % OCTAVE == 0x49_0fdb);
        assert(twice / OCTAVE == 130 && twice % OCTAVE == 0x49_0fdb);
        let f = (OCTAVE + 0x49_0fdb) as int;
        let p = vstd::arithmetic::power2::pow2(128) as int;
        assert(units(TAU) == f * p && units(twice) == f * (2 * p));
        assert(f * (2 * p) == 2 * (f * p)) by (nonlinear_arith);
    }
    let (speed, by, raw) = choose|speed: u32, by: u32, raw: u32|
        #![trigger product_is::<F>(TAU, freq, speed), quotient_is::<F>(speed, sr, by), sum_is::<F>(osc, by, raw)]
        product_is::<F>(TAU, freq, speed) && quotient_is::<F>(speed, sr, by) && sum_is::<F>(
            osc,
            by,
            raw,
        ) && if below(TAU, raw) {
            difference_is::<F>(raw, TAU, r)
        } else {
            r == raw
        };
    whole_numbers_are_numbers(12800);
    let most = whole(12800);
    let (t, f, s) = (units(TAU), units(freq), units(sr));
    assert(0 <= t * f <= (12800 * one()) * one()) by (nonlinear_arith)
        requires
            0 <= t <= 8 * one(),
            0 <= f <= 1600 * one(),
            one() > 0,
    ;
    rounds_above(t * f, one(), speed, ZERO);
    rounds_below(t * f, one(), speed, most);
    between_is_finite(ZERO, speed, most);
    let v = units(speed);
    assert(0 <= v * one() <= t * s) by (nonlinear_arith)
        requires
            0 <= v <= 12800 * one(),
            4 * one() <= t,
            3200 * one() <= s,
            one() > 0,
    ;
    rounds_above(v * one(), s, by, ZERO);
    rounds_below(v * one(), s, by, TAU);
    between_is_finite(ZERO, by, TAU);
    rounds_above(units(osc) + units(by), 1, raw, ZERO);
    rounds_below(units(osc) + units(by), 1, raw, twice);
    between_is_finite(ZERO, raw, twice);
    units_follow_the_order(TAU, raw);
    if below(TAU, raw) {
        rounds_above(units(raw) - t, 1, r, ZERO);
        rounds_below(units(raw) - t, 1, r, TAU);
        between_is_finite(ZERO, r, TAU);
    }
}

/// The metronome only adds, and softly: every sample comes out as it went in, plus a click
/// of at most half the level; at level zero it adds nothing.
pub proof fn clicks_are_added_softly<F: Arith>(
    metro: Metronome<F>,
    enabled: u32,
    start_bpm: u32,
    bpm: u32,
    level: u32,
    input: Seq<u32>,
    after: Metronome<F>,
    output: Seq<u32>,
    i: int,
)
    requires
        faithful::<F>(),
        swings::<F>(),
        metro.processed_with(enabled, start_bpm, bpm, level, input, after, output),
        click_in_bounds(MetroRun { level: ZERO, ..metro.run }),
        !not_a_number(level),
        0 <= i < input.len(),
        finite(input[i]),
    ensures
        output[i] == input[i] || softly_clicked::<F>(
            input[i],
            clamped(level, ZERO, ONE),
            output[i],
        ),
        rank(level) <= 0 ==> same(output[i], input[i]),
{
    if !is_off(enabled) {
        let step = stepping::<MetroRun<F>>();
        let loud = clamped(level, ZERO, ONE);
        let begin = choose|begin: MetroRun<F>| #[trigger]
            metro.begins(start_bpm, begin) && runs(
                step,
                MetroRun { period: after.run.period, level: loud, ..begin },
                input,
                after.run,
                output,
            );
        let first = MetroRun { period: after.run.period, level: loud, ..begin };
        let trace = choose|trace: Seq<MetroRun<F>>| #[trigger]
            traces(step, first, input, after.run, output, trace);
        units_of_one();
        units_follow_the_order(loud, ZERO);
        units_follow_the_order(loud, ONE);
        assert(click_in_bounds(first));
        clicks_run_in_bounds(first, input, after.run, output, trace, i as nat);
        assert(step(trace[i], input[i], trace[i + 1], output[i]));
        clicks_step_in_bounds::<F>(trace[i], input[i], trace[i + 1], output[i]);
        if rank(level) <= 0 && output[i] != input[i] {
            let h = choose|h: u32| #[trigger]
                sum_is::<F>(input[i], h, output[i]) && finite(h) && forall|c: u32| #[trigger]
                    finite(c) && 2 * units(c) >= units(loud) ==> -units(c) <= units(h) <= units(c);
            assert(finite(ZERO));
            zero_adds_nothing::<F>(input[i], h, output[i]);
        }
    }
}

/// Clicks stay in bounds over the first `n` samples.
proof fn clicks_run_in_bounds<F: Arith>(
    before: MetroRun<F>,
    input: Seq<u32>,
    after: MetroRun<F>,
    output: Seq<u32>,
    trace: Seq<MetroRun<F>>,
    n: nat,
)
    requires
        faithful::<F>(),
        swings::<F>(),
        traces(stepping::<MetroRun<F>>(), before, input, after, output, trace),
        click_in_bounds(before),
        n <= input.len(),
    ensures
        click_in_bounds(trace[n as int]),
        trace[n as int].level == before.level,
    decreases n,
{
    if n > 0 {
        let k = n - 1;
        clicks_run_in_bounds(before, input, after, output, trace, k as nat);
        assert(stepping::<MetroRun<F>>()(trace[k], input[k], trace[k + 1], output[k]));
        clicks_step_in_bounds::<F>(trace[k], input[k], trace[k + 1], output[k]);
    }
}

/// A click fades: its amplitude falls with every sample, and one that has died away adds
/// nothing more.
pub proof fn clicks_fade<F: Arith>(run: MetroRun<F>, x: u32, after: MetroRun<F>, y: u32)
    requires
        faithful::<F>(),
        run.sounds(x, after, y),
        finite(run.env) && rank(run.env) >= 0,
        0 <= rank(run.decay) <= rank(ONE) - 2,
    ensures
        below(DEAD_ENV, run.env) ==> 0 <= rank(after.env) < rank(run.env),
        !below(DEAD_ENV, run.env) ==> y == x && after == run,
{
    if below(DEAD_ENV, run.env) {
        assert(product_is::<F>(run.env, run.decay, after.env));
        crate::number::product_lowers::<F>(run.decay, run.env, after.env);
    }
}

/// An accent stands out: it is struck higher and louder than any other beat, at 1600 Hz
/// against 1000 Hz and at full against 0.7 of the amplitude.
pub proof fn accents_stand_out<F: Arith>(
    accent: MetroRun<F>,
    after_accent: MetroRun<F>,
    other: MetroRun<F>,
    after_other: MetroRun<F>,
)
    requires
        accent.strikes() && accent.beat == 0 && accent.struck(after_accent),
        other.strikes() && other.beat != 0 && other.struck(after_other),
    ensures
        below(after_other.freq, after_accent.freq),
        below(after_other.env, after_accent.env),
        after_accent.env == ONE,
        after_accent.osc == ZERO && after_other.osc == ZERO,
        units(after_accent.freq) == 1600 * one() && units(after_other.freq) == 1000 * one(),
        rounds(7 * one(), 10, after_other.env),
{
    vstd::arithmetic::power2::lemma2_to64();
    whole_numbers_are_numbers(1600);
    whole_numbers_are_numbers(1000);
    assert(whole(1600) == ACCENT_HZ && whole(1000) == NORMAL_HZ) by {
        reveal_with_fuel(whole, 24);
    }
    constants_round(0x3f33_3333, 7, 10, 126, 0x333333, 2);
}

/// The pitch of a click: with every sample its angle moves on by a full turn times its
/// frequency over the sample rate, next to it at every step, less a turn where it is past
/// one.
pub proof fn clicks_turn_with_their_frequency<F: Arith>(osc: u32, freq: u32, sr: u32, r: u32)
    requires
        faithful::<F>(),
        turned_is::<F>(osc, freq, sr, r),
        finite(osc) && 0 <= units(osc) <= units(TAU),
        finite(freq) && 0 <= units(freq) <= 1600 * one(),
        finite(sr) && 3200 * one() <= units(sr),
    ensures
        exists|speed: u32, by: u32, raw: u32|
            #![trigger rounds(units(TAU) * units(freq), one(), speed), rounds(units(speed) * one(), units(sr), by), rounds(units(osc) + units(by), 1, raw)]
            {
                &&& rounds(units(TAU) * units(freq), one(), speed)
                &&& rounds(units(speed) * one(), units(sr), by)
                &&& rounds(units(osc) + units(by), 1, raw)
                &&& units(raw) <= units(TAU) ==> r == raw
                &&& units(raw) > units(TAU) ==> rounds(units(raw) - units(TAU), 1, r)
            },
        finite(r) && 0 <= units(r) <= units(TAU),
{
    units_of_one();
    angles_stay_within_a_turn::<F>(osc, freq, sr, r);
    let (speed, by, raw) = choose|speed: u32, by: u32, raw: u32|
        #![trigger product_is::<F>(TAU, freq, speed), quotient_is::<F>(speed, sr, by), sum_is::<F>(osc, by, raw)]
        product_is::<F>(TAU, freq, speed) && quotient_is::<F>(speed, sr, by) && sum_is::<F>(
            osc,
            by,
            raw,
        ) && if below(TAU, raw) {
            difference_is::<F>(raw, TAU, r)
        } else {
            r == raw
        };
    steps_of_a_turn::<F>(osc, freq, sr, speed, by, raw);
    units_follow_the_order(TAU, raw);
    assert(rounds(units(TAU) * units(freq), one(), speed) && rounds(
        units(speed) * one(),
        units(sr),
        by,
    ) && rounds(units(osc) + units(by), 1, raw));
}

/// The steps on the way to the next angle are finite.
proof fn steps_of_a_turn<F: Arith>(osc: u32, freq: u32, sr: u32, speed: u32, by: u32, raw: u32)
    requires
        faithful::<F>(),
        product_is::<F>(TAU, freq, speed),
        quotient_is::<F>(speed, sr, by),
        sum_is::<F>(osc, by, raw),
        finite(osc) && 0 <= units(osc) <= units(TAU),
        finite(freq) && 0 <= units(freq) <= 1600 * one(),
        finite(sr) && 3200 * one() <= units(sr),
    ensures
        finite(speed) && finite(by) && finite(raw),
{
    units_of_one();
    crate::number::units_of_four();
    let (four, eight) = (0x4080_0000u32, 0x4100_0000u32);
    units_follow_the_order(TAU, four);
    units_follow_the_order(TAU, eight);
    whole_numbers_are_numbers(12800);
    let most = whole(12800);
    let (t, f, s) = (units(TAU), units(freq), units(sr));
    assert(0 <= t * f <= (12800 * one()) * one()) by (nonlinear_arith)
        requires
            0 <= t <= 8 * one(),
            0 <= f <= 1600 * one(),
            one() > 0,
    ;
    rounds_above(t * f, one(), speed, ZERO);
    rounds_below(t * f, one(), speed, most);
    between_is_finite(ZERO, speed, most);
    crate::number::small_quotients_are_finite::<F>(speed, sr, by);
    whole_numbers_are_numbers(12808);
    rounds_above(units(osc) + units(by), 1, raw, ZERO);
    rounds_below(units(osc) + units(by), 1, raw, whole(12808));
    between_is_finite(ZERO, raw, whole(12808));
}

/// A click fades within 30 ms, at every sample rate.
pub proof fn clicks_fade_within_their_time<F: Arith>(
    metro: Metronome<F>,
    sample_rate: u32,
    max_block: usize,
    after: Metronome<F>,
)
    requires
        faithful::<F>(),
        metro.prepared(sample_rate, max_block, after),
        finite(sample_rate) && 8000 * one() <= units(sample_rate),
    ensures
        keeps_over::<F>(sample_rate, 30, 1000, after.run.decay),
{
    vstd::arithmetic::power2::lemma2_to64();
    units_of_one();
    constants_round(0x3cf5_c28f, 30, 1000, 121, 0x75c28f, 64);
    units_follow_the_order(CLICK_SECS, ONE);
    poles_follow_their_time::<F>(sample_rate, CLICK_SECS, 30, 1000, after.run.decay);
}

/// What a click adds is its sine, times its amplitude and the level, halved; next to it at
/// every step. It is no more than half of the amplitude, and nothing where the sine is.
pub proof fn clicks_have_their_amplitude<F: Arith>(x: u32, osc: u32, env: u32, level: u32, r: u32)
    requires
        faithful::<F>(),
        swings::<F>(),
        click_is::<F>(x, osc, env, level, r),
        finite(x) && finite(osc),
        finite(env) && 0 <= units(env) <= one(),
        finite(level) && 0 <= units(level) <= one(),
    ensures
        exists|wave: u32, shaped: u32, loud: u32, half: u32|
            #![trigger sin_is::<F>(osc, wave), rounds(units(wave) * units(env), one(), shaped), rounds(units(shaped) * units(level), one(), loud), rounds(units(x) + units(half), 1, r)]
            {
                &&& sin_is::<F>(osc, wave)
                &&& rounds(units(wave) * units(env), one(), shaped)
                &&& rounds(units(shaped) * units(level), one(), loud)
                &&& rounds(units(loud), 2, half)
                &&& rounds(units(x) + units(half), 1, r)
                &&& units(wave) == 0 ==> same(r, x)
            },
{
    units_of_one();
    let (wave, shaped, loud, halved) = choose|wave: u32, shaped: u32, loud: u32, halved: u32|
        #![trigger sin_is::<F>(osc, wave), product_is::<F>(wave, env, shaped), product_is::<F>(shaped, level, loud), product_is::<F>(loud, HALF, halved)]
        sin_is::<F>(osc, wave) && product_is::<F>(wave, env, shaped) && product_is::<F>(
            shaped,
            level,
            loud,
        ) && product_is::<F>(loud, HALF, halved) && sum_is::<F>(x, halved, r);
    factor_up_to_one_shrinks::<F>(wave, env, shaped);
    factor_up_to_one_shrinks::<F>(shaped, level, loud);
    factor_up_to_one_shrinks::<F>(loud, HALF, halved);
    rounds_scales(units(loud), 2, units(HALF), halved);
    if units(wave) == 0 {
        zero_adds_nothing::<F>(x, halved, r);
    }
}

/// Clicks are heard: from a beat on, until it has died away, every sample has the click
/// added, which starts at the beginning of a wave, and the wave and its amplitude move on.
pub proof fn clicks_are_heard<F: Arith>(run: MetroRun<F>, x: u32, after: MetroRun<F>, y: u32)
    requires
        run.steps(x, after, y),
    ensures
        run.strikes() ==> click_is::<F>(
            x,
            ZERO,
            if run.beat == 0 {
                ONE
            } else {
                NORMAL_ENV
            },
            run.level,
            y,
        ),
        !run.strikes() && below(DEAD_ENV, run.env) ==> {
            &&& click_is::<F>(x, run.osc, run.env, run.level, y)
            &&& turned_is::<F>(run.osc, run.freq, run.sr, after.osc)
            &&& product_is::<F>(run.env, run.decay, after.env)
        },
        !run.strikes() && !below(DEAD_ENV, run.env) ==> y == x,
        !run.strikes() ==> sum_is::<F>(run.phase, ONE, after.phase),
{
    assert(below(DEAD_ENV, ONE) && below(DEAD_ENV, NORMAL_ENV));
}

} // verus!
