//! Values shared between the control side and the audio thread, and the units
//! that do nothing but read or write them.
//!
//! Neither side ever waits for the other: a value is one atomic word, the bit
//! pattern of a number. What a read returns is up to the other side, so what is
//! stored in a word is no part of any contract. What a word was made to start at
//! is, and so is that a value came out of a certain word or went into it, by which
//! operation on it ([`read_is`], [`taken_is`], [`SharedParam::was_set`],
//! [`MeterHandle::was_told`]).
use crate::arith::{
    approach, approach_is, difference_is, pole, pole_is, product_is, sum_is, Arith,
};
use crate::bits::{abs, is_nan, magnitude, not_a_number, INFINITY, ONE, ZERO};
use crate::block::{joined, run_block, run_keeps, runs, stepping, traces, Step};
use crate::number::{
    constants_round, factor_up_to_one_shrinks, faithful, finite, keeps_over, one,
    poles_follow_their_time, product_with_one, product_with_zero, rounds_above, rounds_below, same,
    target_is_kept, units, units_follow_the_order, units_of_one, zero_adds_nothing,
};
use crate::processor::{performs, AudioProcessor};
use core::marker::PhantomData;
use std::sync::atomic::{AtomicU32, Ordering};
use std::sync::Arc;
use vstd::prelude::*;

verus! {

/// Calls a function of one argument.
fn call<X, R, G: FnOnce(X) -> R>(g: G, x: X) -> (r: R)
    requires
        call_requires(g, (x,)),
    ensures
        call_ensures(g, (x,), r),
{
    g(x)
}

/// Calls a function of two arguments.
fn call_with<X, Y, R, G: FnOnce(X, Y) -> R>(g: G, x: X, y: Y) -> (r: R)
    requires
        call_requires(g, (x, y)),
    ensures
        call_ensures(g, (x, y), r),
{
    g(x, y)
}

/// Calls a function of three arguments.
fn call_with_both<X, Y, Z, R, G: FnOnce(X, Y, Z) -> R>(g: G, x: X, y: Y, z: Z) -> (r: R)
    requires
        call_requires(g, (x, y, z)),
    ensures
        call_ensures(g, (x, y, z), r),
{
    g(x, y, z)
}

/// `word` is a result of making a word that starts at `v`.
spec fn word_made(v: u32, word: AtomicU32) -> bool {
    call_ensures(AtomicU32::new, (v,), word)
}

/// `v` is a result of loading `word`.
spec fn word_loaded(word: AtomicU32, v: u32) -> bool {
    call_ensures(AtomicU32::load, (&word, Ordering::Relaxed), v)
}

/// `v` is a result of swapping `word` for `put`.
spec fn word_swapped(word: AtomicU32, put: u32, v: u32) -> bool {
    call_ensures(AtomicU32::swap, (&word, put, Ordering::Relaxed), v)
}

/// A store of `v` into `word` was made.
spec fn word_stored(word: AtomicU32, v: u32) -> bool {
    call_ensures(AtomicU32::store, (&word, v, Ordering::Relaxed), ())
}

/// The integer maximum of `word` and `v` was put into `word`.
spec fn word_raised(word: AtomicU32, v: u32) -> bool {
    exists|was: u32| call_ensures(AtomicU32::fetch_max, (&word, v, Ordering::Relaxed), was)
}

/// Makes a word that starts at `v`.
fn make_word(v: u32) -> (word: AtomicU32)
    ensures
        word_made(v, word),
{
    call(AtomicU32::new, v)
}

/// Loads a word.
fn load_word(word: &AtomicU32) -> (v: u32)
    ensures
        word_loaded(*word, v),
{
    call_with(AtomicU32::load, word, Ordering::Relaxed)
}

/// Stores `v` into a word.
fn store_word(word: &AtomicU32, v: u32)
    ensures
        word_stored(*word, v),
{
    call_with_both(AtomicU32::store, word, v, Ordering::Relaxed)
}

/// Puts the integer maximum of a word and `v` into it.
fn raise_word(word: &AtomicU32, v: u32)
    ensures
        word_raised(*word, v),
{
    let _was: u32 = call_with_both(AtomicU32::fetch_max, word, v, Ordering::Relaxed);
}

/// Swaps a word for `put`.
fn swap_word(word: &AtomicU32, put: u32) -> (v: u32)
    ensures
        word_swapped(*word, put, v),
{
    call_with_both(AtomicU32::swap, word, put, Ordering::Relaxed)
}

/// A number that the control side writes and the audio thread reads. Clones
/// share it.
pub struct SharedParam(Arc<AtomicU32>);

impl Clone for SharedParam {
    fn clone(&self) -> (r: Self)
        ensures
            r == *self,
    {
        SharedParam(self.0.clone())
    }
}

impl SharedParam {
    /// Whether the number is held in a word that was made to start at `v`.
    pub closed spec fn starts_at(&self, v: u32) -> bool {
        word_made(v, *self.0)
    }

    /// A shared number that starts at `v`.
    pub fn new(v: u32) -> (r: Self)
        ensures
            r.starts_at(v),
    {
        SharedParam(Arc::new(make_word(v)))
    }

    /// The parameter was set to `v`: a store of `v` into its word was made.
    pub closed spec fn was_set(&self, v: u32) -> bool {
        word_stored(*self.0, v)
    }

    /// Stores `v`.
    pub fn set(&self, v: u32)
        ensures
            self.was_set(v),
    {
        store_word(&self.0, v);
    }

    /// What was stored last, by whichever side.
    pub fn get(&self) -> (v: u32)
        ensures
            read_is(*self, v),
    {
        load_word(&self.0)
    }
}

/// The frequency that the tuner found last, in hertz; zero stands for none.
pub struct PitchHandle(Arc<AtomicU32>);

impl Clone for PitchHandle {
    fn clone(&self) -> (r: Self)
        ensures
            r == *self,
    {
        PitchHandle(self.0.clone())
    }
}

impl PitchHandle {
    /// Whether the reading is held in a word that was made to start at `v`.
    pub closed spec fn starts_at(&self, v: u32) -> bool {
        word_made(v, *self.0)
    }

    /// `hz` is a result of looking at the reading.
    pub closed spec fn published(&self, hz: u32) -> bool {
        word_loaded(*self.0, hz)
    }

    /// A handle without a reading.
    pub fn new() -> (r: Self)
        ensures
            r.starts_at(ZERO),
    {
        PitchHandle(Arc::new(make_word(ZERO)))
    }

    /// The reading `hz` was published: a store of it into the word was made.
    pub closed spec fn was_set(&self, hz: u32) -> bool {
        word_stored(*self.0, hz)
    }

    /// Audio side: publishes a reading.
    pub fn set(&self, hz: u32)
        ensures
            self.was_set(hz),
    {
        store_word(&self.0, hz);
    }

    /// Control side: the reading published last.
    pub fn read(&self) -> (hz: u32)
        ensures
            self.published(hz),
    {
        load_word(&self.0)
    }
}

/// The peak since the last look. The audio side accumulates, the control side
/// takes the peak away.
pub struct MeterHandle(Arc<AtomicU32>);

impl Clone for MeterHandle {
    fn clone(&self) -> (r: Self)
        ensures
            r == *self,
    {
        MeterHandle(self.0.clone())
    }
}

impl Default for MeterHandle {
    fn default() -> (r: Self)
        ensures
            r.starts_at(ZERO),
    {
        MeterHandle::new()
    }
}

impl MeterHandle {
    /// Whether the peak is held in a word that was made to start at `v`.
    pub closed spec fn starts_at(&self, v: u32) -> bool {
        word_made(v, *self.0)
    }

    /// A meter that has seen nothing.
    pub fn new() -> (r: Self)
        ensures
            r.starts_at(ZERO),
    {
        MeterHandle(Arc::new(make_word(ZERO)))
    }

    /// Control side: the peak since the last call, which starts anew at zero.
    pub fn take_peak(&self) -> (peak: u32)
        ensures
            taken_is(*self, peak),
    {
        swap_word(&self.0, ZERO)
    }

    /// Audio side: merges in the peak of a block. Peaks carry no sign, so the
    /// integer maximum of two of them is the peak of both.
    pub fn accumulate(&self, peak: u32)
        ensures
            self.was_told(peak),
    {
        raise_word(&self.0, peak);
    }

    /// The meter was told of a peak: the word was raised to it, if it was lower.
    pub closed spec fn was_told(&self, peak: u32) -> bool {
        word_raised(*self.0, peak)
    }
}

/// `v` is a result of looking at the parameter `p`: of a load of its word.
pub closed spec fn read_is(p: SharedParam, v: u32) -> bool {
    word_loaded(*p.0, v)
}

/// `peak` is a result of taking the peak away from the meter `h`: of a swap of its
/// word for zero.
pub closed spec fn taken_is(h: MeterHandle, peak: u32) -> bool {
    word_swapped(*h.0, ZERO, peak)
}

/// Something that can be looked at, now and again.
pub trait Source {
    /// `v` is a result of looking at it.
    spec fn shows(&self, v: u32) -> bool;

    /// What it shows at this moment.
    fn look(&self) -> (v: u32)
        ensures
            self.shows(v),
    ;
}

impl Source for SharedParam {
    open spec fn shows(&self, v: u32) -> bool {
        read_is(*self, v)
    }

    fn look(&self) -> (v: u32) {
        self.get()
    }
}

impl Source for MeterHandle {
    open spec fn shows(&self, v: u32) -> bool {
        taken_is(*self, v)
    }

    fn look(&self) -> (v: u32) {
        self.take_peak()
    }
}

/// Looks at a parameter.
pub fn read(p: &SharedParam) -> (v: u32)
    ensures
        read_is(*p, v),
{
    p.look()
}

/// Takes the peak away from a meter.
pub fn take(h: &MeterHandle) -> (peak: u32)
    ensures
        taken_is(*h, peak),
{
    h.look()
}

/// `peak` is the largest magnitude in `block`, samples that are not a number
/// left aside; zero if there is none.
pub open spec fn is_peak(block: Seq<u32>, peak: u32) -> bool {
    &&& peak <= INFINITY
    &&& forall|i: int|
        0 <= i < block.len() && !not_a_number(#[trigger] block[i]) ==> magnitude(block[i]) <= peak
    &&& peak == ZERO || exists|i: int|
        0 <= i < block.len() && magnitude(#[trigger] block[i]) == peak
}

/// The peak of a block.
pub fn block_peak(block: &[u32]) -> (peak: u32)
    ensures
        is_peak(block@, peak),
{
    let mut peak: u32 = ZERO;
    let mut i: usize = 0;
    while i < block.len()
        invariant
            i <= block@.len(),
            is_peak(block@.take(i as int), peak),
        decreases block@.len() - i,
    {
        let x: u32 = block[i];
        let m: u32 = abs(x);
        let ghost seen = block@.take(i as int);
        let ghost next = block@.take(i + 1);
        assert(forall|k: int| 0 <= k < i ==> seen[k] == #[trigger] next[k]);
        assert(next[i as int] == x);
        if !is_nan(x) && m > peak {
            peak = m;
        } else {
            assert(peak == ZERO || exists|k: int|
                0 <= k < next.len() && magnitude(#[trigger] next[k]) == peak) by {
                if peak != ZERO {
                    let k = choose|k: int|
                        0 <= k < seen.len() && magnitude(#[trigger] seen[k]) == peak;
                    assert(magnitude(next[k]) == peak);
                }
            }
        }
        i = i + 1;
    }
    assert(block@.take(i as int) == block@);
    peak
}

/// There is only one peak.
pub proof fn peak_is_unique(block: Seq<u32>, p: u32, q: u32)
    requires
        is_peak(block, p),
        is_peak(block, q),
    ensures
        p == q,
{
}

/// The peak of two blocks is the larger of their peaks, compared as integers:
/// accumulating block by block yields the peak of everything.
pub proof fn peaks_accumulate(a: Seq<u32>, b: Seq<u32>, pa: u32, pb: u32)
    requires
        is_peak(a, pa),
        is_peak(b, pb),
    ensures
        is_peak(
            a + b,
            if pa < pb {
                pb
            } else {
                pa
            },
        ),
{
    let s = a + b;
    assert forall|i: int| 0 <= i < s.len() && !not_a_number(#[trigger] s[i]) implies magnitude(s[i])
        <= (if pa < pb {
        pb
    } else {
        pa
    }) by {
        if i < a.len() {
            assert(s[i] == a[i]);
        } else {
            assert(s[i] == b[i - a.len()]);
        }
    }
    if pa < pb {
        let k = choose|k: int| 0 <= k < b.len() && magnitude(#[trigger] b[k]) == pb;
        assert(s[a.len() + k] == b[k]);
    } else if pa != ZERO {
        let k = choose|k: int| 0 <= k < a.len() && magnitude(#[trigger] a[k]) == pa;
        assert(s[k] == a[k]);
    }
}

/// The peak meter: leaves the signal alone and reports the peak of each block.
pub struct PeakMeter {
    /// Where peaks are reported to.
    pub handle: MeterHandle,
    /// The peak reported last, zero before the first.
    pub peak: u32,
}

impl PeakMeter {
    /// As it is made: nothing reported yet.
    pub open spec fn untouched(&self) -> bool {
        self.peak == ZERO
    }

    /// A meter that reports to `handle`.
    pub fn new(handle: MeterHandle) -> (r: Self)
        ensures
            r.handle == handle,
            r.untouched(),
    {
        PeakMeter { handle, peak: ZERO }
    }
}

impl AudioProcessor for PeakMeter {
    open spec fn wf(&self) -> bool {
        true
    }

    open spec fn accepts(&self, n: nat) -> bool {
        true
    }

    open spec fn resettable(&self) -> bool {
        true
    }

    open spec fn prepared(&self, sample_rate: u32, max_block: usize, after: Self) -> bool {
        after == *self
    }

    open spec fn processed(&self, input: Seq<u32>, after: Self, output: Seq<u32>) -> bool {
        &&& output == input
        &&& after == PeakMeter { peak: after.peak, ..*self }
        &&& is_peak(input, after.peak)
        &&& self.handle.was_told(after.peak)
    }

    open spec fn cleared(&self, after: Self) -> bool {
        after == *self
    }

    fn prepare(&mut self, _sample_rate: u32, _max_block: usize) {
    }

    fn process(&mut self, buf: &mut [u32]) {
        self.peak = block_peak(buf);
        self.handle.accumulate(self.peak);
    }

    fn reset(&mut self) {
    }
}

/// However many blocks go through a meter, its handle is told the peak of all of them
/// taken together.
pub proof fn meter_tells_the_peak_of_all(
    units: Seq<PeakMeter>,
    inputs: Seq<Seq<u32>>,
    outputs: Seq<Seq<u32>>,
)
    requires
        performs(units, inputs, outputs),
        inputs.len() > 0,
    ensures
        outputs == inputs,
        exists|i: int|
            0 < i < units.len() && is_peak(joined(inputs), (#[trigger] units[i]).peak)
                && units[0].handle.was_told(units[i].peak),
    decreases inputs.len(),
{
    let n = inputs.len() - 1;
    let front = units.drop_last();
    assert forall|i: int|
        #![trigger front[i]]
        0 <= i < n implies front[i].processed(
        inputs.drop_last()[i],
        front[i + 1],
        outputs.drop_last()[i],
    ) by {
        assert(units[i].processed(inputs[i], units[i + 1], outputs[i]));
    }
    handle_stays(units, inputs, outputs, n);
    assert(units[n].processed(inputs[n], units[n + 1], outputs[n]));
    if n == 0 {
        assert(joined(inputs) =~= inputs[0]) by {
            reveal_with_fuel(joined, 2);
        }
        assert(is_peak(joined(inputs), units[1].peak));
        assert(outputs =~= inputs);
    } else {
        meter_tells_the_peak_of_all(front, inputs.drop_last(), outputs.drop_last());
        let i = choose|i: int|
            0 < i < front.len() && is_peak(joined(inputs.drop_last()), (#[trigger] front[i]).peak)
                && front[0].handle.was_told(front[i].peak);
        peaks_accumulate(
            joined(inputs.drop_last()),
            inputs[n],
            front[i].peak,
            units[n + 1].peak,
        );
        assert(units[i].peak == front[i].peak);
        assert forall|k: int| 0 <= k < inputs.len() implies outputs[k] == inputs[k] by {
            if k < n {
                assert(outputs.drop_last()[k] == inputs.drop_last()[k]);
            }
        }
        assert(outputs =~= inputs);
        if units[i].peak < units[n + 1].peak {
            assert(is_peak(joined(inputs), units[n + 1].peak));
        } else {
            assert(is_peak(joined(inputs), units[i].peak));
        }
    }
}

/// A meter keeps its handle.
proof fn handle_stays(
    units: Seq<PeakMeter>,
    inputs: Seq<Seq<u32>>,
    outputs: Seq<Seq<u32>>,
    i: int,
)
    requires
        performs(units, inputs, outputs),
        0 <= i < units.len(),
    ensures
        units[i].handle == units[0].handle,
    decreases i,
{
    if i > 0 {
        handle_stays(units, inputs, outputs, i - 1);
        assert(units[i - 1].processed(inputs[i - 1], units[i - 1 + 1], outputs[i - 1]));
    }
}

/// The time constant of the volume, 10 ms.
pub const GAIN_SECS: u32 = 0x3c23_d70a;

/// The volume at work on a block: the gain moves on towards `target`.
pub struct GainRun<F> {
    /// The gain asked for.
    pub target: u32,
    /// What is kept of the distance to the target over one sample.
    pub coeff: u32,
    /// The gain in force.
    pub current: u32,
    /// The arithmetic.
    pub arith: PhantomData<F>,
}

impl<F: Arith> Step for GainRun<F> {
    open spec fn sound(&self) -> bool {
        true
    }

    open spec fn steps(&self, x: u32, after: Self, y: u32) -> bool {
        &&& after == GainRun { current: after.current, ..*self }
        &&& approach_is::<F>(self.target, self.current, self.coeff, after.current)
        &&& product_is::<F>(x, after.current, y)
    }

    fn step(&mut self, x: u32) -> (y: u32) {
        self.current = approach::<F>(self.target, self.current, self.coeff);
        F::times(x, self.current)
    }
}

/// The volume. The gain asked for is smoothed, so that moving the fader is not
/// heard as a zipper.
pub struct Gain<F> {
    /// The gain asked for.
    pub param: SharedParam,
    /// The gain in force.
    pub current: u32,
    /// What is kept of the distance to the target over one sample.
    pub coeff: u32,
    /// The arithmetic.
    pub arith: PhantomData<F>,
}

impl<F> Gain<F> {
    /// The volume at work towards `target`.
    pub open spec fn run(&self, target: u32) -> GainRun<F> {
        GainRun { target, coeff: self.coeff, current: self.current, arith: self.arith }
    }
}

impl<F: Arith> Gain<F> {
    /// As it is made: at full level, and not tuned to any rate.
    pub open spec fn untouched(&self) -> bool {
        self.current == ONE && self.coeff == ZERO
    }

    /// A volume at full level that follows `param`.
    pub fn new(param: SharedParam) -> (r: Self)
        ensures
            r.param == param,
            r.untouched(),
    {
        Gain { param, current: ONE, coeff: ZERO, arith: PhantomData }
    }

    /// Makes `level` the gain in force, without smoothing.
    pub fn jump_to(&mut self, level: u32)
        ensures
            final(self).param == old(self).param,
            final(self).current == level,
            final(self).coeff == old(self).coeff,
    {
        self.current = level;
    }

    /// One block at the gain `target`.
    pub fn process_at(&mut self, target: u32, buf: &mut [u32])
        ensures
            final(buf)@.len() == old(buf)@.len(),
            old(self).processed_at(target, old(buf)@, *final(self), final(buf)@),
    {
        let mut run = GainRun::<F> {
            target,
            coeff: self.coeff,
            current: self.current,
            arith: self.arith,
        };
        let ghost before = run;
        run_block(&mut run, buf);
        proof {
            run_keeps(
                stepping::<GainRun<F>>(),
                |r: GainRun<F>| r == (GainRun { current: r.current, ..before }),
                before,
                old(buf)@,
                run,
                buf@,
            );
        }
        self.current = run.current;
    }

    /// A block at the gain `target`: the run towards it, and nothing else
    /// changes.
    pub open spec fn processed_at(
        &self,
        target: u32,
        input: Seq<u32>,
        after: Self,
        output: Seq<u32>,
    ) -> bool {
        &&& after.param == self.param
        &&& runs(stepping::<GainRun<F>>(), self.run(target), input, after.run(target), output)
    }
}

impl<F: Arith> AudioProcessor for Gain<F> {
    open spec fn wf(&self) -> bool {
        true
    }

    open spec fn accepts(&self, n: nat) -> bool {
        true
    }

    open spec fn resettable(&self) -> bool {
        true
    }

    /// The smoother is tuned to the rate; the gain starts at a value that the
    /// parameter had.
    open spec fn prepared(&self, sample_rate: u32, max_block: usize, after: Self) -> bool {
        &&& after.param == self.param
        &&& pole_is::<F>(sample_rate, GAIN_SECS, after.coeff)
        &&& read_is(self.param, after.current)
    }

    /// The block runs towards a value that the parameter had.
    open spec fn processed(&self, input: Seq<u32>, after: Self, output: Seq<u32>) -> bool {
        exists|target: u32| #[trigger]
            self.processed_at(target, input, after, output) && read_is(self.param, target)
    }

    /// The gain jumps to a value that the parameter had.
    open spec fn cleared(&self, after: Self) -> bool {
        &&& after.param == self.param && after.coeff == self.coeff
        &&& read_is(self.param, after.current)
    }

    fn prepare(&mut self, sample_rate: u32, _max_block: usize) {
        self.coeff = pole::<F>(sample_rate, GAIN_SECS);
        let level: u32 = read(&self.param);
        self.jump_to(level);
    }

    fn process(&mut self, buf: &mut [u32]) {
        let target: u32 = read(&self.param);
        self.process_at(target, buf);
    }

    fn reset(&mut self) {
        let level: u32 = read(&self.param);
        self.jump_to(level);
    }
}

/// A volume that has settled multiplies every sample with the gain asked for, and stays
/// settled: at one it hands the signal through, at zero it is silent.
pub proof fn settled_volume_scales<F: Arith>(
    gain: Gain<F>,
    target: u32,
    input: Seq<u32>,
    after: Gain<F>,
    output: Seq<u32>,
    i: int,
)
    requires
        faithful::<F>(),
        gain.processed_at(target, input, after, output),
        finite(target) && finite(gain.current) && finite(gain.coeff),
        units(gain.current) == units(target),
        0 <= i < input.len(),
        finite(input[i]),
    ensures
        same(after.current, target),
        exists|g: u32| #[trigger] product_is::<F>(input[i], g, output[i]) && same(g, target),
        units(target) == one() ==> same(output[i], input[i]),
        units(target) == 0 ==> same(output[i], ZERO),
{
    let step = stepping::<GainRun<F>>();
    let (begin, end) = (gain.run(target), after.run(target));
    let trace = choose|trace: Seq<GainRun<F>>| #[trigger]
        traces(step, begin, input, end, output, trace);
    gain_stays_settled(begin, input, end, output, trace, input.len());
    gain_stays_settled(begin, input, end, output, trace, (i + 1) as nat);
    assert(step(trace[i], input[i], trace[i + 1], output[i]));
    let g = trace[i + 1].current;
    assert(product_is::<F>(input[i], g, output[i]));
    units_follow_the_order(g, target);
    units_follow_the_order(after.current, target);
    units_of_one();
    product_with_one::<F>(input[i], g, output[i]);
    if units(target) == 0 {
        product_with_zero::<F>(input[i], g, output[i]);
    }
}

/// A gain at its target stays there over the first `n` samples.
proof fn gain_stays_settled<F: Arith>(
    before: GainRun<F>,
    input: Seq<u32>,
    after: GainRun<F>,
    output: Seq<u32>,
    trace: Seq<GainRun<F>>,
    n: nat,
)
    requires
        faithful::<F>(),
        traces(stepping::<GainRun<F>>(), before, input, after, output, trace),
        finite(before.target) && finite(before.current) && finite(before.coeff),
        units(before.current) == units(before.target),
        n <= input.len(),
    ensures
        trace[n as int] == (GainRun { current: trace[n as int].current, ..before }),
        finite(trace[n as int].current) && units(trace[n as int].current) == units(before.target),
    decreases n,
{
    if n > 0 {
        let k = n - 1;
        gain_stays_settled(before, input, after, output, trace, k as nat);
        assert(stepping::<GainRun<F>>()(trace[k], input[k], trace[k + 1], output[k]));
        let (a, b) = (trace[k], trace[k + 1]);
        assert(a.steps(input[k], b, output[k]));
        target_is_kept::<F>(a.target, a.current, a.coeff, b.current);
    }
}

/// Whether the distance from `to` to `from` is a number.
pub open spec fn has_distance(from: u32, to: u32) -> bool {
    exists|g: u32| #[trigger] finite(g) && units(g) == units(from) - units(to)
}

/// A volume that was moved goes towards the gain asked for and never past it, nor away
/// from it where the distance is a number; with a smoother that keeps nothing it is there
/// at once, and with one that keeps everything it does not move.
pub proof fn volume_moves_to_its_target<F: Arith>(
    run: GainRun<F>,
    x: u32,
    after: GainRun<F>,
    y: u32,
)
    requires
        faithful::<F>(),
        run.steps(x, after, y),
        finite(run.target) && finite(run.current),
        finite(run.coeff) && 0 <= units(run.coeff) <= one(),
        has_distance(run.current, run.target),
    ensures
        units(run.target) <= units(run.current) ==> units(run.target) <= units(after.current)
            <= units(run.current),
        units(run.current) <= units(run.target) ==> units(run.current) <= units(after.current)
            <= units(run.target),
        units(run.coeff) == 0 ==> units(after.current) == units(run.target),
        units(run.coeff) == one() ==> units(after.current) == units(run.current),
        product_is::<F>(x, after.current, y),
{
    units_of_one();
    let (t, cur, c) = (run.target, run.current, run.coeff);
    let r = after.current;
    let (gap, left) = choose|gap: u32, left: u32|
        #![trigger difference_is::<F>(cur, t, gap), product_is::<F>(gap, c, left)]
        difference_is::<F>(cur, t, gap) && product_is::<F>(gap, c, left) && sum_is::<F>(t, left, r);
    let d = choose|g: u32| #[trigger] finite(g) && units(g) == units(cur) - units(t);
    crate::number::exact_results_are_hit(units(cur) - units(t), 1, gap, d);
    factor_up_to_one_shrinks::<F>(gap, c, left);
    let total = units(t) + units(left);
    if units(t) <= units(cur) {
        rounds_above(total, 1, r, t);
        rounds_below(total, 1, r, cur);
    }
    if units(cur) <= units(t) {
        rounds_below(total, 1, r, t);
        rounds_above(total, 1, r, cur);
    }
    if units(c) == 0 {
        product_with_zero::<F>(gap, c, left);
        zero_adds_nothing::<F>(t, left, r);
    }
    if units(c) == one() {
        product_with_one::<F>(gap, c, left);
        crate::number::exact_results_are_hit(total, 1, r, cur);
    }
}

/// The volume follows within 10 ms, at every sample rate.
pub proof fn volume_follows_within_its_time<F: Arith>(
    gain: Gain<F>,
    sample_rate: u32,
    max_block: usize,
    after: Gain<F>,
)
    requires
        faithful::<F>(),
        gain.prepared(sample_rate, max_block, after),
        finite(sample_rate) && 8000 * one() <= units(sample_rate),
    ensures
        keeps_over::<F>(sample_rate, 10, 1000, after.coeff),
{
    vstd::arithmetic::power2::lemma2_to64();
    units_of_one();
    constants_round(0x3c23_d70a, 10, 1000, 120, 0x23d70a, 128);
    units_follow_the_order(GAIN_SECS, ONE);
    poles_follow_their_time::<F>(sample_rate, GAIN_SECS, 10, 1000, after.coeff);
}

} // verus!
