//! Noise gate.
//!
//! Sits before the distortion: it watches the envelope of the clean guitar and
//! fades the signal out below a threshold, so that there is nothing left to
//! amplify. The envelope jumps up and decays exponentially, the thresholds for
//! opening and closing lie 6 dB apart, and the noise gate opens fast and closes slowly.
use crate::arith::{
    blend, blend_is, difference_is, factor, factor_is, pole, pole_is, product_is, sum_is, Arith,
};
use crate::bits::{
    abs, below, clamp, clamped, is_off, lt, magnitude, negated, not_a_number, off, rank, HALF,
    INFINITY, ONE, ZERO,
};
use crate::block::{run_block, run_keeps, runs, stepping, traces, Step};
use crate::number::{
    between_is_finite, blends_stay_between, constants_round, factor_below_one_lowers,
    factor_up_to_one_shrinks, faithful, finite, keeps_over, leaves_a_number,
    levels_are_powers_of_ten, one, poles_follow_their_time, product_with_one, product_with_zero,
    raises_ten, rounds, rounds_above, rounds_below, rounds_scales, same, units,
    units_follow_the_order, units_of_negated, units_of_one, whole, whole_numbers_are_numbers,
    zero_adds_nothing, OCTAVE,
};
use crate::param::{read, read_is, SharedParam};
use crate::processor::{
    alike_units_perform_alike, matches_step, performs, playing_keeps, plays, AudioProcessor,
    DEFAULT_RATE,
};
use core::marker::PhantomData;
use vstd::prelude::*;

verus! {

/// Release of the envelope, 10 ms.
pub const ENV_SECS: u32 = 0x3c23_d70a;

/// Opening of the noise gate, 1 ms.
pub const OPEN_SECS: u32 = 0x3a83_126f;

/// Closing of the noise gate, 100 ms.
pub const CLOSE_SECS: u32 = 0x3dcc_cccd;

/// Amounts below one hundredth switch the noise gate off.
pub const LEAST_AMOUNT: u32 = 0x3c23_d70a;

/// The threshold at amount zero, -70 dBFS.
pub const FLOOR_DB: u32 = 0xc28c_0000;

/// How far the amount raises the threshold, 35 dB.
pub const SPAN_DB: u32 = 0x420c_0000;

/// The noise gate at work on a block.
pub struct GateRun<F> {
    /// Above this envelope a closed gate opens.
    pub open_thr: u32,
    /// Below this envelope an open gate closes.
    pub close_thr: u32,
    /// What the envelope keeps over one sample.
    pub env_rel: u32,
    /// What the gain keeps over one sample while it rises.
    pub atk: u32,
    /// What the gain keeps over one sample while it falls.
    pub rel: u32,
    /// The envelope.
    pub env: u32,
    /// The gain.
    pub gain: u32,
    /// Whether the noise gate stands open.
    pub open: bool,
    /// The arithmetic.
    pub arith: PhantomData<F>,
}

/// Where the noise gate stands once the envelope has reached `env`.
pub open spec fn next_open(open: bool, env: u32, open_thr: u32, close_thr: u32) -> bool {
    if open {
        !below(env, close_thr)
    } else {
        below(open_thr, env)
    }
}

/// The gain that a gate in this position tends to.
pub open spec fn gate_target(open: bool) -> u32 {
    if open {
        ONE
    } else {
        ZERO
    }
}

impl<F: Arith> Step for GateRun<F> {
    open spec fn sound(&self) -> bool {
        true
    }

    open spec fn steps(&self, x: u32, after: Self, y: u32) -> bool {
        let target = gate_target(after.open);
        let c = if below(self.gain, target) {
            self.atk
        } else {
            self.rel
        };
        &&& after == GateRun { env: after.env, gain: after.gain, open: after.open, ..*self }
        &&& if below(self.env, magnitude(x)) {
            after.env == magnitude(x)
        } else {
            product_is::<F>(self.env_rel, self.env, after.env)
        }
        &&& after.open == next_open(self.open, after.env, self.open_thr, self.close_thr)
        &&& blend_is::<F>(c, self.gain, target, after.gain)
        &&& product_is::<F>(x, after.gain, y)
    }

    fn step(&mut self, x: u32) -> (y: u32) {
        let rect: u32 = abs(x);
        self.env = if lt(self.env, rect) {
            rect
        } else {
            F::times(self.env_rel, self.env)
        };
        if self.open {
            if lt(self.env, self.close_thr) {
                self.open = false;
            }
        } else if lt(self.open_thr, self.env) {
            self.open = true;
        }
        let target: u32 = if self.open {
            ONE
        } else {
            ZERO
        };
        let c: u32 = if lt(self.gain, target) {
            self.atk
        } else {
            self.rel
        };
        self.gain = blend::<F>(c, self.gain, target);
        F::times(x, self.gain)
    }
}

/// `thr` is a result of `10^((-70 + 35 * amount) / 20)`.
pub open spec fn open_threshold_is<F: Arith>(amount: u32, thr: u32) -> bool {
    exists|rise: u32, db: u32|
        product_is::<F>(SPAN_DB, amount, rise) && #[trigger] sum_is::<F>(FLOOR_DB, rise, db)
            && factor_is::<F>(db, thr)
}

/// The noise gate. `amount` runs from 0 to 1 and moves the threshold from -70
/// to -35 dBFS; at 0 the noise gate does nothing.
pub struct Gate<F> {
    /// Strength, 0 to 1.
    pub amount: SharedParam,
    /// On above one half.
    pub enabled: SharedParam,
    /// The sample rate.
    pub sr: u32,
    /// The running state.
    pub run: GateRun<F>,
}

/// Whether these parameter values switch the noise gate off.
pub open spec fn gate_idle(enabled: u32, amount: u32) -> bool {
    is_off(enabled) || below(clamped(amount, ZERO, ONE), LEAST_AMOUNT)
}

impl<F: Arith> Gate<F> {
    /// As it is made: closed, at rest, and not tuned to any rate.
    pub open spec fn untouched(&self) -> bool {
        let run = self.run;
        &&& self.sr == DEFAULT_RATE
        &&& run.env == ZERO && run.gain == ZERO && !run.open
        &&& run.env_rel == ZERO && run.atk == ZERO && run.rel == ZERO
        &&& run.open_thr == ZERO && run.close_thr == ZERO
    }

    /// A closed gate that follows the two parameters.
    pub fn new(amount: SharedParam, enabled: SharedParam) -> (r: Self)
        ensures
            r.amount == amount,
            r.enabled == enabled,
            r.untouched(),
    {
        Gate {
            amount,
            enabled,
            sr: DEFAULT_RATE,
            run: GateRun {
                open_thr: ZERO,
                close_thr: ZERO,
                env_rel: ZERO,
                atk: ZERO,
                rel: ZERO,
                env: ZERO,
                gain: ZERO,
                open: false,
                arith: PhantomData,
            },
        }
    }

    /// A block at given parameter values: handed through if they switch the
    /// gate off, and otherwise run with the thresholds that `amount` sets.
    pub open spec fn processed_with(
        &self,
        enabled: u32,
        amount: u32,
        input: Seq<u32>,
        after: Self,
        output: Seq<u32>,
    ) -> bool {
        &&& after == Gate { run: after.run, ..*self }
        &&& if gate_idle(enabled, amount) {
            after.run == self.run && output == input
        } else {
            let s = after.run;
            let begin = GateRun { open_thr: s.open_thr, close_thr: s.close_thr, ..self.run };
            &&& open_threshold_is::<F>(clamped(amount, ZERO, ONE), s.open_thr)
            &&& product_is::<F>(s.open_thr, HALF, s.close_thr)
            &&& runs(stepping::<GateRun<F>>(), begin, input, s, output)
        }
    }

    /// One block at given parameter values.
    pub fn process_with(&mut self, enabled: u32, amount: u32, buf: &mut [u32])
        ensures
            final(buf)@.len() == old(buf)@.len(),
            old(self).processed_with(enabled, amount, old(buf)@, *final(self), final(buf)@),
    {
        if off(enabled) {
            return;
        }
        let amt: u32 = clamp(amount, ZERO, ONE);
        if lt(amt, LEAST_AMOUNT) {
            return;
        }
        let rise: u32 = F::times(SPAN_DB, amt);
        let db: u32 = F::plus(FLOOR_DB, rise);
        let open_thr: u32 = factor::<F>(db);
        assert(sum_is::<F>(FLOOR_DB, rise, db));
        let close_thr: u32 = F::times(open_thr, HALF);
        self.run.open_thr = open_thr;
        self.run.close_thr = close_thr;
        let ghost begin = self.run;
        run_block(&mut self.run, buf);
        proof {
            run_keeps(
                stepping::<GateRun<F>>(),
                |r: GateRun<F>| r.open_thr == open_thr && r.close_thr == close_thr,
                begin,
                old(buf)@,
                self.run,
                buf@,
            );
        }
    }
}

impl<F: Arith> AudioProcessor for Gate<F> {
    open spec fn wf(&self) -> bool {
        true
    }

    open spec fn accepts(&self, n: nat) -> bool {
        true
    }

    open spec fn resettable(&self) -> bool {
        true
    }

    /// The three time constants are tuned to the rate, and the past is
    /// forgotten.
    open spec fn prepared(&self, sample_rate: u32, max_block: usize, after: Self) -> bool {
        &&& after == Gate { sr: sample_rate, run: after.run, ..*self }
        &&& after.run == GateRun {
            env_rel: after.run.env_rel,
            atk: after.run.atk,
            rel: after.run.rel,
            env: ZERO,
            gain: ZERO,
            open: false,
            ..self.run
        }
        &&& pole_is::<F>(sample_rate, ENV_SECS, after.run.env_rel)
        &&& pole_is::<F>(sample_rate, OPEN_SECS, after.run.atk)
        &&& pole_is::<F>(sample_rate, CLOSE_SECS, after.run.rel)
    }

    /// As at some pair of values that the parameters had.
    open spec fn processed(&self, input: Seq<u32>, after: Self, output: Seq<u32>) -> bool {
        exists|enabled: u32, amount: u32| #[trigger]
            self.processed_with(enabled, amount, input, after, output) && read_is(
                self.enabled,
                enabled,
            ) && read_is(self.amount, amount)
    }

    open spec fn cleared(&self, after: Self) -> bool {
        after == Gate {
            run: GateRun { env: ZERO, gain: ZERO, open: false, ..self.run },
            ..*self
        }
    }

    fn prepare(&mut self, sample_rate: u32, _max_block: usize) {
        self.sr = sample_rate;
        self.run.env_rel = pole::<F>(sample_rate, ENV_SECS);
        self.run.atk = pole::<F>(sample_rate, OPEN_SECS);
        self.run.rel = pole::<F>(sample_rate, CLOSE_SECS);
        self.reset();
    }

    fn process(&mut self, buf: &mut [u32]) {
        let enabled: u32 = read(&self.enabled);
        let amount: u32 = read(&self.amount);
        self.process_with(enabled, amount, buf);
    }

    fn reset(&mut self) {
        self.run.env = ZERO;
        self.run.gain = ZERO;
        self.run.open = false;
    }
}

/// A gate that is switched off, or whose amount is turned down, hands the
/// signal through and keeps its state.
pub proof fn idle_gate_is_identity<F: Arith>(
    gate: Gate<F>,
    enabled: u32,
    amount: u32,
    input: Seq<u32>,
    after: Gate<F>,
    output: Seq<u32>,
)
    requires
        gate.processed_with(enabled, amount, input, after, output),
        gate_idle(enabled, amount),
    ensures
        output == input,
        after == gate,
{
}

/// However much was played, a reset leaves the noise gate as `prepare` did, but
/// for the two thresholds, which every block sets anew.
pub proof fn reset_gate_is_as_prepared<F: Arith>(
    gate: Gate<F>,
    sample_rate: u32,
    max_block: usize,
    trace: Seq<Gate<F>>,
    reset: Gate<F>,
)
    requires
        plays(trace),
        gate.prepared(sample_rate, max_block, trace[0]),
        trace.last().cleared(reset),
    ensures
        reset == (Gate {
            run: GateRun {
                open_thr: reset.run.open_thr,
                close_thr: reset.run.close_thr,
                ..trace[0].run
            },
            ..trace[0]
        }),
{
    let fresh = trace[0];
    let tuned = |r: GateRun<F>|
        r == GateRun {
            open_thr: r.open_thr,
            close_thr: r.close_thr,
            env: r.env,
            gain: r.gain,
            open: r.open,
            ..fresh.run
        };
    let kept = |g: Gate<F>| g == (Gate { run: g.run, ..fresh }) && tuned(g.run);
    assert forall|a: Gate<F>, input: Seq<u32>, b: Gate<F>, output: Seq<u32>|
        kept(a) && #[trigger] a.processed(input, b, output) implies kept(b) by {
        let (enabled, amount) = choose|enabled: u32, amount: u32| #[trigger]
            a.processed_with(enabled, amount, input, b, output);
        if !gate_idle(enabled, amount) {
            let begin = GateRun {
                open_thr: b.run.open_thr,
                close_thr: b.run.close_thr,
                ..a.run
            };
            run_keeps(stepping::<GateRun<F>>(), tuned, begin, input, b.run, output);
        }
    }
    playing_keeps(trace, kept);
}

/// Between the two thresholds the noise gate stays as it is: it does not chatter.
pub proof fn gate_holds_between_thresholds(open: bool, env: u32, open_thr: u32, close_thr: u32)
    requires
        !below(env, close_thr),
        !below(open_thr, env),
    ensures
        next_open(open, env, open_thr, close_thr) == open,
{
}

/// Above the opening threshold the noise gate is open and below the closing one it is
/// closed, wherever it stood.
pub proof fn gate_follows_the_envelope(open: bool, env: u32, open_thr: u32, close_thr: u32)
    requires
        !below(open_thr, close_thr),
    ensures
        below(open_thr, env) && !not_a_number(close_thr) ==> next_open(
            open,
            env,
            open_thr,
            close_thr,
        ),
        below(env, close_thr) && !not_a_number(open_thr) ==> !next_open(
            open,
            env,
            open_thr,
            close_thr,
        ),
{
}

/// Whatever a noise gate that was reset makes of the blocks that follow, it could have
/// made right after `prepare`.
pub proof fn reset_gate_plays_as_prepared<F: Arith>(
    gate: Gate<F>,
    sample_rate: u32,
    max_block: usize,
    trace: Seq<Gate<F>>,
    reset: Gate<F>,
    units: Seq<Gate<F>>,
    inputs: Seq<Seq<u32>>,
    outputs: Seq<Seq<u32>>,
)
    requires
        plays(trace),
        gate.prepared(sample_rate, max_block, trace[0]),
        trace.last().cleared(reset),
        performs(units, inputs, outputs),
        units[0] == reset,
    ensures
        exists|fresh: Seq<Gate<F>>| #[trigger]
            performs(fresh, inputs, outputs) && fresh[0] == trace[0],
{
    reset_gate_is_as_prepared(gate, sample_rate, max_block, trace, reset);
    let alike = |a: Gate<F>, b: Gate<F>|
        b == (Gate {
            run: GateRun {
                open_thr: b.run.open_thr,
                close_thr: b.run.close_thr,
                ..a.run
            },
            ..a
        });
    assert forall|
        x: Gate<F>,
        y: Gate<F>,
        input: Seq<u32>,
        after: Gate<F>,
        output: Seq<u32>,
    |
        #![trigger matches_step(alike, x, input, after, output), y.processed(input, after, output)]
        alike(x, y) && y.processed(input, after, output) implies matches_step(
        alike,
        x,
        input,
        after,
        output,
    ) by {
        let (enabled, amount) = choose|enabled: u32, amount: u32| #[trigger]
            y.processed_with(enabled, amount, input, after, output) && read_is(y.enabled, enabled) && read_is(y.amount, amount);
        if gate_idle(enabled, amount) {
            assert(x.processed_with(enabled, amount, input, x, output));
            assert(x.processed(input, x, output) && alike(x, after));
        } else {
            assert(x.processed_with(enabled, amount, input, after, output));
            assert(x.processed(input, after, output) && alike(after, after));
        }
    }
    alike_units_perform_alike(alike, trace[0], units, inputs, outputs);
}

/// A closed noise gate stays closed over a quiet block: as long as no sample exceeds the
/// opening threshold, and letting the envelope fall never lifts it over the threshold.
pub proof fn quiet_gate_stays_closed<F: Arith>(
    before: GateRun<F>,
    input: Seq<u32>,
    after: GateRun<F>,
    output: Seq<u32>,
)
    requires
        runs(stepping::<GateRun<F>>(), before, input, after, output),
        !before.open,
        !below(before.open_thr, before.env),
        forall|i: int|
            0 <= i < input.len() ==> !below(before.open_thr, magnitude(#[trigger] input[i])),
        forall|e: u32, r: u32|
            !below(before.open_thr, e) && #[trigger] product_is::<F>(before.env_rel, e, r)
                ==> !below(before.open_thr, r),
    ensures
        !after.open,
{
    let trace = choose|trace: Seq<GateRun<F>>| #[trigger]
        traces(stepping::<GateRun<F>>(), before, input, after, output, trace);
    closed_so_far(before, input, after, output, trace, input.len());
}

/// Closed after the first `n` samples.
proof fn closed_so_far<F: Arith>(
    before: GateRun<F>,
    input: Seq<u32>,
    after: GateRun<F>,
    output: Seq<u32>,
    trace: Seq<GateRun<F>>,
    n: nat,
)
    requires
        traces(stepping::<GateRun<F>>(), before, input, after, output, trace),
        !before.open,
        !below(before.open_thr, before.env),
        n <= input.len(),
        forall|i: int|
            0 <= i < input.len() ==> !below(before.open_thr, magnitude(#[trigger] input[i])),
        forall|e: u32, r: u32|
            !below(before.open_thr, e) && #[trigger] product_is::<F>(before.env_rel, e, r)
                ==> !below(before.open_thr, r),
    ensures
        !trace[n as int].open,
        !below(before.open_thr, trace[n as int].env),
        trace[n as int].open_thr == before.open_thr,
        trace[n as int].env_rel == before.env_rel,
    decreases n,
{
    if n > 0 {
        let k = n - 1;
        closed_so_far(before, input, after, output, trace, k as nat);
        assert(stepping::<GateRun<F>>()(trace[k], input[k], trace[k + 1], output[k]));
        assert(trace[k].steps(input[k], trace[k + 1], output[k]));
    }
}

/// An open noise gate closes when the playing stops: over a stretch of samples below the
/// closing threshold the envelope falls by at least one place in the order of numbers
/// with every sample, and once it has fallen below the threshold, the noise gate is closed.
pub proof fn open_gate_closes_when_quiet<F: Arith>(
    gate: Gate<F>,
    enabled: u32,
    amount: u32,
    input: Seq<u32>,
    after: Gate<F>,
    output: Seq<u32>,
)
    requires
        faithful::<F>(),
        gate.processed_with(enabled, amount, input, after, output),
        !gate_idle(enabled, amount),
        OCTAVE <= after.run.close_thr < INFINITY,
        finite(after.run.open_thr),
        0 <= rank(gate.run.env_rel) <= rank(ONE) - 2,
        finite(gate.run.env) && rank(gate.run.env) >= 0,
        forall|i: int|
            0 <= i < input.len() ==> below(
                magnitude(#[trigger] input[i]),
                after.run.close_thr,
            ),
        input.len() > 0,
        input.len() > rank(gate.run.env) - rank(after.run.close_thr),
    ensures
        !after.run.open,
{
    let s = after.run;
    let begin = GateRun { open_thr: s.open_thr, close_thr: s.close_thr, ..gate.run };
    let trace = choose|trace: Seq<GateRun<F>>| #[trigger]
        traces(stepping::<GateRun<F>>(), begin, input, s, output, trace);
    units_of_one();
    factor_up_to_one_shrinks::<F>(s.open_thr, HALF, s.close_thr);
    units_follow_the_order(s.close_thr, s.open_thr);
    units_follow_the_order(s.close_thr, ZERO);
    envelope_falls(begin, input, s, output, trace, input.len());
}

/// Where the envelope and the noise gate stand after the first `n` quiet samples.
proof fn envelope_falls<F: Arith>(
    before: GateRun<F>,
    input: Seq<u32>,
    after: GateRun<F>,
    output: Seq<u32>,
    trace: Seq<GateRun<F>>,
    n: nat,
)
    requires
        faithful::<F>(),
        traces(stepping::<GateRun<F>>(), before, input, after, output, trace),
        n <= input.len(),
        OCTAVE <= before.close_thr < INFINITY,
        rank(before.close_thr) <= rank(before.open_thr),
        0 <= rank(before.env_rel) <= rank(ONE) - 2,
        finite(before.env) && rank(before.env) >= 0,
        forall|i: int|
            0 <= i < input.len() ==> below(magnitude(#[trigger] input[i]), before.close_thr),
    ensures
        trace[n as int] == (GateRun {
            env: trace[n as int].env,
            gain: trace[n as int].gain,
            open: trace[n as int].open,
            ..before
        }),
        finite(trace[n as int].env) && rank(trace[n as int].env) >= 0,
        rank(trace[n as int].env) <= rank(before.env) - n || rank(trace[n as int].env) < rank(
            before.close_thr,
        ),
        n > 0 && rank(trace[n as int].env) < rank(before.close_thr) ==> !trace[n as int].open,
    decreases n,
{
    if n > 0 {
        let k = n - 1;
        envelope_falls(before, input, after, output, trace, k as nat);
        assert(stepping::<GateRun<F>>()(trace[k], input[k], trace[k + 1], output[k]));
        let (a, b) = (trace[k], trace[k + 1]);
        assert(a.steps(input[k], b, output[k]));
        if !below(a.env, magnitude(input[k])) {
            units_of_one();
            units_follow_the_order(a.env, ZERO);
            units_follow_the_order(a.env_rel, ZERO);
            units_follow_the_order(a.env_rel, ONE);
            if rank(a.env) >= rank(before.close_thr) {
                factor_below_one_lowers::<F>(a.env_rel, a.env, b.env);
            } else {
                factor_up_to_one_shrinks::<F>(a.env, a.env_rel, b.env);
                units_follow_the_order(b.env, a.env);
                units_follow_the_order(b.env, ZERO);
            }
        }
    }
}

/// A sample that is louder than the envelope and both thresholds opens the noise gate on
/// the spot, wherever it stood.
pub proof fn loud_sample_opens_the_gate<F: Arith>(
    before: GateRun<F>,
    input: Seq<u32>,
    after: GateRun<F>,
    output: Seq<u32>,
    trace: Seq<GateRun<F>>,
    i: int,
)
    requires
        traces(stepping::<GateRun<F>>(), before, input, after, output, trace),
        0 <= i < input.len(),
        below(trace[i].env, magnitude(input[i])),
        below(trace[i].open_thr, magnitude(input[i])),
        !below(magnitude(input[i]), trace[i].close_thr),
    ensures
        trace[i + 1].open,
        trace[i + 1].env == magnitude(input[i]),
{
    assert(stepping::<GateRun<F>>()(trace[i], input[i], trace[i + 1], output[i]));
    assert(trace[i].steps(input[i], trace[i + 1], output[i]));
}

/// The noise gate only ever takes away: its gain stays between zero and one, and every
/// sample comes out with its sign and no larger than it went in.
pub proof fn gate_only_takes_away<F: Arith>(
    gate: Gate<F>,
    enabled: u32,
    amount: u32,
    input: Seq<u32>,
    after: Gate<F>,
    output: Seq<u32>,
)
    requires
        faithful::<F>(),
        gate.processed_with(enabled, amount, input, after, output),
        leaves_a_number(gate.run.atk),
        leaves_a_number(gate.run.rel),
        finite(gate.run.gain) && 0 <= units(gate.run.gain) <= one(),
        forall|i: int| 0 <= i < input.len() ==> #[trigger] finite(input[i]),
    ensures
        finite(after.run.gain) && 0 <= units(after.run.gain) <= one(),
        output.len() == input.len(),
        forall|i: int|
            0 <= i < input.len() ==> finite(#[trigger] output[i]) && (units(input[i]) >= 0 ==> 0
                <= units(output[i]) <= units(input[i])) && (units(input[i]) <= 0 ==> units(input[i])
                <= units(output[i]) <= 0),
{
    units_of_one();
    if !gate_idle(enabled, amount) {
        let s = after.run;
        let begin = GateRun { open_thr: s.open_thr, close_thr: s.close_thr, ..gate.run };
        let step = stepping::<GateRun<F>>();
        let trace = choose|trace: Seq<GateRun<F>>| #[trigger]
            traces(step, begin, input, s, output, trace);
        gains_stay_between(begin, input, s, output, trace, input.len());
        assert forall|i: int| 0 <= i < input.len() implies finite(#[trigger] output[i]) && (units(
            input[i],
        ) >= 0 ==> 0 <= units(output[i]) <= units(input[i])) && (units(input[i]) <= 0 ==> units(
            input[i],
        ) <= units(output[i]) <= 0) by {
            gains_stay_between(begin, input, s, output, trace, (i + 1) as nat);
            assert(step(trace[i], input[i], trace[i + 1], output[i]));
            assert(trace[i].steps(input[i], trace[i + 1], output[i]));
            assert(finite(input[i]));
            factor_up_to_one_shrinks::<F>(input[i], trace[i + 1].gain, output[i]);
        }
    } else {
        assert forall|i: int| 0 <= i < input.len() implies finite(#[trigger] output[i]) by {
            assert(finite(input[i]));
        }
    }
}

/// The gain after the first `n` samples is between zero and one.
proof fn gains_stay_between<F: Arith>(
    before: GateRun<F>,
    input: Seq<u32>,
    after: GateRun<F>,
    output: Seq<u32>,
    trace: Seq<GateRun<F>>,
    n: nat,
)
    requires
        faithful::<F>(),
        traces(stepping::<GateRun<F>>(), before, input, after, output, trace),
        n <= input.len(),
        leaves_a_number(before.atk),
        leaves_a_number(before.rel),
        finite(before.gain) && 0 <= units(before.gain) <= one(),
    ensures
        trace[n as int].atk == before.atk && trace[n as int].rel == before.rel,
        finite(trace[n as int].gain) && 0 <= units(trace[n as int].gain) <= one(),
    decreases n,
{
    if n > 0 {
        let k = n - 1;
        gains_stay_between(before, input, after, output, trace, k as nat);
        assert(stepping::<GateRun<F>>()(trace[k], input[k], trace[k + 1], output[k]));
        let (a, b) = (trace[k], trace[k + 1]);
        assert(a.steps(input[k], b, output[k]));
        units_of_one();
        let target = gate_target(b.open);
        let c = if below(a.gain, target) {
            a.atk
        } else {
            a.rel
        };
        blends_stay_between::<F>(c, a.gain, target, b.gain);
    }
}

/// Closed, the noise gate fades: the gain falls with every sample. Open, it lets the
/// signal in at once, with at least what the attack does not keep; and once the gain is
/// one, an open noise gate hands the signal through as it is.
pub proof fn gain_follows_the_gate<F: Arith>(run: GateRun<F>, x: u32, after: GateRun<F>, y: u32)
    requires
        faithful::<F>(),
        run.steps(x, after, y),
        leaves_a_number(run.atk),
        leaves_a_number(run.rel),
        finite(run.gain) && 0 <= units(run.gain) <= one(),
        finite(x),
    ensures
        !after.open && OCTAVE <= rank(run.gain) && rank(run.rel) <= rank(ONE) - 2 ==> rank(after.gain)
            < rank(run.gain),
        !after.open ==> units(after.gain) <= units(run.gain),
        after.open && units(run.gain) < one() ==> units(after.gain) >= one() - units(run.atk),
        after.open && units(run.gain) == one() ==> units(after.gain) == one() && same(y, x),
{
    units_of_one();
    units_follow_the_order(run.gain, ONE);
    units_follow_the_order(run.gain, ZERO);
    units_follow_the_order(run.rel, ZERO);
    let target = gate_target(after.open);
    let c = if below(run.gain, target) {
        run.atk
    } else {
        run.rel
    };
    blends_stay_between::<F>(c, run.gain, target, after.gain);
    let (kept, rest, moved) = choose|kept: u32, rest: u32, moved: u32|
        #![trigger product_is::<F>(c, run.gain, kept), product_is::<F>(rest, target, moved)]
        product_is::<F>(c, run.gain, kept) && difference_is::<F>(ONE, c, rest) && product_is::<F>(
            rest,
            target,
            moved,
        ) && sum_is::<F>(kept, moved, after.gain);
    let d = choose|d: u32| #[trigger] finite(d) && units(d) == one() - units(c);
    crate::number::exact_results_are_hit(one() - units(c), 1, rest, d);
    if !after.open {
        factor_up_to_one_shrinks::<F>(run.gain, c, kept);
        product_with_zero::<F>(rest, target, moved);
        zero_adds_nothing::<F>(kept, moved, after.gain);
        if OCTAVE <= rank(run.gain) && rank(run.rel) <= rank(ONE) - 2 {
            factor_below_one_lowers::<F>(c, run.gain, kept);
        }
    } else if units(run.gain) == one() {
        product_with_one::<F>(c, run.gain, kept);
        product_with_one::<F>(rest, target, moved);
        crate::number::exact_results_are_hit(units(kept) + units(moved), 1, after.gain, ONE);
        product_with_one::<F>(x, after.gain, y);
    }
}

/// The times of the noise gate: the envelope falls within 10 ms, the gain rises within 1 ms
/// and falls within 100 ms, at every sample rate.
pub proof fn gate_keeps_its_times<F: Arith>(
    gate: Gate<F>,
    sample_rate: u32,
    max_block: usize,
    after: Gate<F>,
)
    requires
        faithful::<F>(),
        gate.prepared(sample_rate, max_block, after),
        finite(sample_rate) && 8000 * one() <= units(sample_rate),
    ensures
        keeps_over::<F>(sample_rate, 10, 1000, after.run.env_rel),
        keeps_over::<F>(sample_rate, 1, 1000, after.run.atk),
        keeps_over::<F>(sample_rate, 100, 1000, after.run.rel),
{
    vstd::arithmetic::power2::lemma2_to64();
    units_of_one();
    constants_round(0x3c23_d70a, 10, 1000, 120, 0x23d70a, 128);
    constants_round(0x3a83_126f, 1, 1000, 117, 0x3126f, 1024);
    constants_round(0x3dcc_cccd, 100, 1000, 123, 0x4ccccd, 16);
    units_follow_the_order(ENV_SECS, ONE);
    units_follow_the_order(OPEN_SECS, ONE);
    units_follow_the_order(CLOSE_SECS, ONE);
    poles_follow_their_time::<F>(sample_rate, ENV_SECS, 10, 1000, after.run.env_rel);
    poles_follow_their_time::<F>(sample_rate, OPEN_SECS, 1, 1000, after.run.atk);
    poles_follow_their_time::<F>(sample_rate, CLOSE_SECS, 100, 1000, after.run.rel);
}

/// The amount moves the threshold from -70 to -35 dB: it is the factor of a level next to
/// -70 dB and 35 dB times the amount, and below full scale. The closing threshold is half
/// of it.
pub proof fn amount_moves_the_threshold<F: Arith>(
    gate: Gate<F>,
    enabled: u32,
    amount: u32,
    input: Seq<u32>,
    after: Gate<F>,
    output: Seq<u32>,
)
    requires
        faithful::<F>(),
        raises_ten::<F>(),
        gate.processed_with(enabled, amount, input, after, output),
        !gate_idle(enabled, amount),
        !not_a_number(amount),
    ensures
        exists|rise: u32, db: u32|
            #![trigger rounds(35 * units(clamped(amount, ZERO, ONE)), 1, rise), factor_is::<F>(db, after.run.open_thr)]
            {
                &&& rounds(35 * units(clamped(amount, ZERO, ONE)), 1, rise)
                &&& rounds(-70 * one() + units(rise), 1, db)
                &&& finite(db) && -70 * one() <= units(db) <= -35 * one()
                &&& factor_is::<F>(db, after.run.open_thr)
            },
        0 <= rank(after.run.open_thr) <= rank(ONE),
        rounds(units(after.run.open_thr), 2, after.run.close_thr),
{
    units_of_one();
    whole_numbers_are_numbers(35);
    whole_numbers_are_numbers(70);
    reveal_with_fuel(whole, 24);
    assert(whole(35) == SPAN_DB && negated(whole(70)) == FLOOR_DB);
    units_of_negated(whole(70));
    units_of_negated(whole(35));
    let a = clamped(amount, ZERO, ONE);
    units_follow_the_order(a, ZERO);
    units_follow_the_order(a, ONE);
    let thr = after.run.open_thr;
    let (rise, db) = choose|rise: u32, db: u32|
        product_is::<F>(SPAN_DB, a, rise) && #[trigger] sum_is::<F>(FLOOR_DB, rise, db)
            && factor_is::<F>(db, thr);
    let u = units(a);
    assert((35 * one()) * u == (35 * u) * one()) by (nonlinear_arith);
    rounds_scales(35 * u, 1, one(), rise);
    factor_up_to_one_shrinks::<F>(SPAN_DB, a, rise);
    let total = -70 * one() + units(rise);
    rounds_above(total, 1, db, FLOOR_DB);
    rounds_below(total, 1, db, negated(whole(35)));
    between_is_finite(FLOOR_DB, db, negated(whole(35)));
    levels_are_powers_of_ten::<F>(db, thr);
    between_is_finite(ZERO, thr, ONE);
    let (t, h) = (units(thr), units(HALF));
    assert(one() == 2 * h && t * h == t * h);
    rounds_scales(t, 2, h, after.run.close_thr);
    assert(rounds(35 * u, 1, rise) && factor_is::<F>(db, thr));
}

} // verus!
