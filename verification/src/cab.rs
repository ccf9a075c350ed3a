//! Cabinet simulation.
//!
//! The impulse response of a loudspeaker cabinet, brought to the sample rate of
//! the stream by linear interpolation, cut off after a second and scaled to unit
//! energy, is convolved with the signal. The convolution itself is the business
//! of a [`Convolver`].
use crate::arith::{
    difference_is, dot_is, energy, mac, mac_is, of_count_is, product_is, quotient_is, sqrt_is,
    sum_is, to_count_is, Arith,
};
use crate::bits::{below, is_off, lt, negated, off, rank, ONE, TWO, ZERO};
use crate::number::{
    between_is_finite, counts, counts_are_exact, difference_to_itself, exact_results_are_hit,
    factor_up_to_one_shrinks, faithful, finite, is_count, one, product_with_one, product_with_zero,
    rounds, rounds_above, rounds_below, rounds_scales, same, units, units_follow_the_order,
    units_of_negated, units_of_one, whole, whole_numbers_are_numbers, zero_adds_nothing,
};
use crate::param::{read, read_is, SharedParam};
use crate::processor::AudioProcessor;
use core::marker::PhantomData;
use vstd::prelude::*;

verus! {

/// The longest impulse response, one second. Longer ones are cut off.
pub const MAX_IR_SECS: u32 = 0x3f80_0000;

/// Size of the parts that the convolution works in.
pub const PARTITION: usize = 256;

/// Up to an energy of 1e-12 an impulse response is left as it is.
pub const SILENT_ENERGY: u32 = 0x2b8c_bccc;

/// A convolution in parts, supplied from outside; nothing is taken for granted
/// of its results. It owns the room for the blocks that it hands out.
pub trait Convolver: Sized {
    /// A convolution without an impulse response.
    fn idle() -> Self;

    /// Takes on an impulse response, for blocks up to `max_block` samples; whether
    /// that worked.
    fn init(self, partition: usize, ir: &Vec<u32>, max_block: usize) -> (Self, bool);

    /// Convolves a block; whether that worked.
    fn convolve(self, input: &[u32]) -> (Self, bool);

    /// Sample `i` of the block convolved last.
    fn sample(&self, i: usize) -> u32;

    /// Forgets the signal so far.
    fn reset(self) -> Self;
}

/// `(after, ok)` is a result of taking on an impulse response.
pub open spec fn init_is<C: Convolver>(
    conv: C,
    ir: Seq<u32>,
    max_block: usize,
    after: C,
    ok: bool,
) -> bool {
    exists|v: &Vec<u32>| #[trigger]
        call_ensures(C::init, (conv, PARTITION, v, max_block), (after, ok)) && v@ == ir
}

/// `(after, ok)` is a result of convolving a block.
pub open spec fn convolve_is<C: Convolver>(conv: C, input: Seq<u32>, after: C, ok: bool) -> bool {
    exists|s: &[u32]| #[trigger] call_ensures(C::convolve, (conv, s), (after, ok)) && s@ == input
}

/// `y` is a result of reading sample `i` of the block convolved last.
pub open spec fn sample_is<C: Convolver>(conv: C, i: usize, y: u32) -> bool {
    call_ensures(C::sample, (&conv, i), y)
}

/// Sample `i` of `raw`, silence past its end.
pub open spec fn at_or_zero(raw: Seq<u32>, i: int) -> u32 {
    if i < raw.len() {
        raw[i]
    } else {
        ZERO
    }
}

/// `r` is a result of reading `raw` at place `i / ratio`, between two samples by
/// linear interpolation.
pub open spec fn resampled_is<F: Arith>(raw: Seq<u32>, ratio: u32, i: usize, r: u32) -> bool {
    exists|n: u32, pos: u32, i0: usize|
        #![trigger of_count_is::<F>(i, n), quotient_is::<F>(n, ratio, pos), to_count_is::<F>(pos, i0)]
        of_count_is::<F>(i, n) && quotient_is::<F>(n, ratio, pos) && to_count_is::<F>(pos, i0)
            && between_is::<F>(
            at_or_zero(raw, i0 as int),
            at_or_zero(raw, i0 + 1),
            pos,
            i0,
            r,
        )
}

/// `r` is a result of `a + (b - a) * (pos - i0)`.
pub open spec fn between_is<F: Arith>(a: u32, b: u32, pos: u32, i0: usize, r: u32) -> bool {
    exists|whole: u32, frac: u32, rise: u32|
        #![trigger of_count_is::<F>(i0, whole), difference_is::<F>(pos, whole, frac), difference_is::<F>(b, a, rise)]
        of_count_is::<F>(i0, whole) && difference_is::<F>(pos, whole, frac) && difference_is::<F>(
            b,
            a,
            rise,
        ) && mac_is::<F>(a, rise, frac, r)
}

/// One sample at the new rate.
pub fn resampled<F: Arith>(raw: &Vec<u32>, ratio: u32, i: usize) -> (r: u32)
    ensures
        resampled_is::<F>(raw@, ratio, i, r),
{
    let n: u32 = F::of_count(i);
    let pos: u32 = F::over(n, ratio);
    let i0: usize = F::to_count(pos);
    let whole: u32 = F::of_count(i0);
    let frac: u32 = F::minus(pos, whole);
    let a: u32 = if i0 < raw.len() {
        raw[i0]
    } else {
        ZERO
    };
    let b: u32 = if i0 < raw.len() && i0 + 1 < raw.len() {
        raw[i0 + 1]
    } else {
        ZERO
    };
    let rise: u32 = F::minus(b, a);
    let r: u32 = mac::<F>(a, rise, frac);
    assert(of_count_is::<F>(i0, whole) && difference_is::<F>(pos, whole, frac) && difference_is::<F>(
        b,
        a,
        rise,
    ));
    assert(of_count_is::<F>(i, n) && quotient_is::<F>(n, ratio, pos) && to_count_is::<F>(pos, i0));
    r
}

/// `n` is a result of the length at the new rate: `len * ratio` samples, at most
/// a second's worth and at least one.
pub open spec fn out_len_is<F: Arith>(len: usize, ratio: u32, target_sr: u32, n: usize) -> bool {
    exists|l: u32, scaled: u32, a: usize, limit: u32, b: usize|
        #![trigger of_count_is::<F>(len, l), product_is::<F>(l, ratio, scaled), to_count_is::<F>(scaled, a), product_is::<F>(target_sr, MAX_IR_SECS, limit), to_count_is::<F>(limit, b)]
        of_count_is::<F>(len, l) && product_is::<F>(l, ratio, scaled) && to_count_is::<F>(scaled, a)
            && product_is::<F>(target_sr, MAX_IR_SECS, limit) && to_count_is::<F>(limit, b) && n
            == bounded_len(a, b)
}

/// The smaller of two lengths, at least one.
pub open spec fn bounded_len(a: usize, b: usize) -> usize {
    let least = if a < b {
        a
    } else {
        b
    };
    if least < 1 {
        1
    } else {
        least
    }
}

/// The length at the new rate.
pub fn out_len<F: Arith>(len: usize, ratio: u32, target_sr: u32) -> (n: usize)
    ensures
        out_len_is::<F>(len, ratio, target_sr, n),
        n >= 1,
{
    let l: u32 = F::of_count(len);
    let scaled: u32 = F::times(l, ratio);
    let a: usize = F::to_count(scaled);
    let limit: u32 = F::times(target_sr, MAX_IR_SECS);
    let b: usize = F::to_count(limit);
    assert(of_count_is::<F>(len, l) && product_is::<F>(l, ratio, scaled) && to_count_is::<F>(
        scaled,
        a,
    ) && product_is::<F>(target_sr, MAX_IR_SECS, limit) && to_count_is::<F>(limit, b));
    let least: usize = if a < b {
        a
    } else {
        b
    };
    if least < 1 {
        1
    } else {
        least
    }
}

/// `ir` is a result of scaling `plain` to unit energy: every sample times
/// `1 / sqrt(energy)`, or as it is where there is next to none.
pub open spec fn normalised_is<F: Arith>(plain: Seq<u32>, ir: Seq<u32>) -> bool {
    exists|e: u32| #[trigger]
        dot_is::<F>(plain, plain, e) && if below(SILENT_ENERGY, e) {
            exists|root: u32, gain: u32| #[trigger]
                sqrt_is::<F>(e, root) && #[trigger] quotient_is::<F>(ONE, root, gain) && scaled_is::<
                    F,
                >(plain, gain, ir)
        } else {
            ir == plain
        }
}

/// Every sample of `ir` is a result of the one of `plain` times `gain`.
pub open spec fn scaled_is<F: Arith>(plain: Seq<u32>, gain: u32, ir: Seq<u32>) -> bool {
    &&& ir.len() == plain.len()
    &&& forall|i: int| 0 <= i < ir.len() ==> product_is::<F>(plain[i], gain, #[trigger] ir[i])
}

/// Scales to unit energy.
pub fn normalise<F: Arith>(ir: &mut Vec<u32>)
    ensures
        normalised_is::<F>(old(ir)@, final(ir)@),
        final(ir)@.len() == old(ir)@.len(),
{
    let ghost plain = ir@;
    let e: u32 = energy::<F>(ir.as_slice());
    assert(dot_is::<F>(plain, plain, e));
    if lt(SILENT_ENERGY, e) {
        let root: u32 = F::sqrt(e);
        let gain: u32 = F::over(ONE, root);
        assert(sqrt_is::<F>(e, root) && quotient_is::<F>(ONE, root, gain));
        let n: usize = ir.len();
        let mut i: usize = 0;
        while i < n
            invariant
                i <= n,
                n == ir@.len(),
                n == plain.len(),
                forall|k: int| 0 <= k < i ==> product_is::<F>(plain[k], gain, #[trigger] ir@[k]),
                forall|k: int| i <= k < n ==> ir@[k] == plain[k],
            decreases n - i,
        {
            let x: u32 = ir[i];
            let y: u32 = F::times(x, gain);
            ir[i] = y;
            i = i + 1;
        }
        assert(scaled_is::<F>(plain, gain, ir@));
    }
}

/// `plain` is a result of bringing `raw` from the rate `raw_sr` to `target_sr`.
pub open spec fn at_rate_is<F: Arith>(
    raw: Seq<u32>,
    raw_sr: u32,
    target_sr: u32,
    plain: Seq<u32>,
) -> bool {
    exists|from: u32, ratio: u32| #[trigger]
        of_count_is::<F>(raw_sr as usize, from) && #[trigger] quotient_is::<F>(
            target_sr,
            from,
            ratio,
        ) && out_len_is::<F>(raw.len() as usize, ratio, target_sr, plain.len() as usize) && (forall|
            i: int,
        |
            0 <= i < plain.len() ==> resampled_is::<F>(raw, ratio, i as usize, #[trigger] plain[i]))
}

/// `ir` is a result of the impulse response `raw`, recorded at `raw_sr`, made
/// ready for `target_sr`.
pub open spec fn impulse_is<F: Arith>(
    raw: Seq<u32>,
    raw_sr: u32,
    target_sr: u32,
    ir: Seq<u32>,
) -> bool {
    if raw.len() == 0 {
        ir.len() == 0
    } else {
        exists|plain: Seq<u32>| #[trigger]
            at_rate_is::<F>(raw, raw_sr, target_sr, plain) && normalised_is::<F>(plain, ir)
                && ir.len() == plain.len()
    }
}

/// The cabinet.
pub struct CabIr<F, C> {
    /// On above one half.
    pub enabled: SharedParam,
    /// The impulse response as recorded.
    pub raw: Vec<u32>,
    /// The rate that it was recorded at.
    pub raw_sr: u32,
    /// The convolution; absent only while it is at work.
    pub conv: Option<C>,
    /// The largest block that there is room for.
    pub room: usize,
    /// Whether the convolution has taken on the impulse response.
    pub ready: bool,
    /// The arithmetic.
    pub arith: PhantomData<F>,
}

impl<F: Arith, C: Convolver> CabIr<F, C> {
    /// As it is made: an idle convolution that has taken on nothing.
    pub open spec fn untouched(&self) -> bool {
        &&& self.room == 0 && !self.ready
        &&& self.conv is Some && call_ensures(C::idle, (), self.conv->0)
    }

    /// A cabinet with the mono impulse response `raw`, recorded at `raw_sr`, that
    /// follows the switch `enabled`.
    pub fn new(raw: Vec<u32>, raw_sr: u32, enabled: SharedParam) -> (r: Self)
        ensures
            r.enabled == enabled,
            r.raw == raw,
            r.raw_sr == raw_sr,
            r.wf(),
            r.untouched(),
    {
        CabIr {
            enabled,
            raw,
            raw_sr,
            conv: Some(C::idle()),
            room: 0,
            ready: false,
            arith: PhantomData,
        }
    }

    /// The impulse response made ready for a sample rate.
    pub fn build_ir(&self, target_sr: u32) -> (ir: Vec<u32>)
        ensures
            impulse_is::<F>(self.raw@, self.raw_sr, target_sr, ir@),
            ir@.len() == 0 <==> self.raw@.len() == 0,
    {
        if self.raw.len() == 0 {
            return Vec::new();
        }
        let from: u32 = F::of_count(self.raw_sr as usize);
        let ratio: u32 = F::over(target_sr, from);
        let n: usize = out_len::<F>(self.raw.len(), ratio, target_sr);
        let mut ir: Vec<u32> = Vec::with_capacity(n);
        let mut i: usize = 0;
        while i < n
            invariant
                i <= n,
                ir@.len() == i,
                forall|k: int|
                    0 <= k < i ==> resampled_is::<F>(
                        self.raw@,
                        ratio,
                        k as usize,
                        #[trigger] ir@[k],
                    ),
            decreases n - i,
        {
            let y: u32 = resampled::<F>(&self.raw, ratio, i);
            ir.push(y);
            i = i + 1;
        }
        let ghost plain = ir@;
        assert(of_count_is::<F>(self.raw_sr as usize, from) && quotient_is::<F>(
            target_sr,
            from,
            ratio,
        ));
        assert(at_rate_is::<F>(self.raw@, self.raw_sr, target_sr, plain));
        normalise::<F>(&mut ir);
        ir
    }

    /// A block at a given value of the switch: handed through while switched off
    /// or without an impulse response; otherwise convolved, and replaced if that
    /// worked.
    pub open spec fn processed_with(
        &self,
        enabled: u32,
        input: Seq<u32>,
        after: Self,
        output: Seq<u32>,
    ) -> bool {
        &&& after == CabIr { conv: after.conv, ..*self }
        &&& if !self.ready || is_off(enabled) {
            after.conv == self.conv && output == input
        } else {
            &&& after.conv is Some
            &&& exists|ok: bool| #[trigger]
                convolve_is(self.conv->0, input, after.conv->0, ok) && if ok {
                    replaced(after.conv->0, output) && output.len() == input.len()
                } else {
                    output == input
                }
        }
    }

    /// One block at a given value of the switch.
    pub fn process_with(&mut self, enabled: u32, buf: &mut [u32])
        requires
            old(self).wf(),
            old(self).accepts(old(buf)@.len()),
        ensures
            final(self).wf(),
            final(buf)@.len() == old(buf)@.len(),
            old(self).processed_with(enabled, old(buf)@, *final(self), final(buf)@),
    {
        if !self.ready || off(enabled) {
            return;
        }
        if let Some(conv) = self.conv.take() {
            let ghost before = conv;
            let (conv, ok) = conv.convolve(&*buf);
            assert(convolve_is(before, old(buf)@, conv, ok));
            if ok {
                let n: usize = buf.len();
                let mut i: usize = 0;
                while i < n
                    invariant
                        i <= n,
                        n == buf@.len(),
                        n == old(buf)@.len(),
                        forall|k: int|
                            0 <= k < i ==> sample_is(conv, k as usize, #[trigger] buf@[k]),
                    decreases n - i,
                {
                    let y: u32 = conv.sample(i);
                    buf[i] = y;
                    i = i + 1;
                }
                assert(replaced(conv, buf@));
            }
            self.conv = Some(conv);
            assert(convolve_is(old(self).conv->0, old(buf)@, self.conv->0, ok));
        }
    }
}

/// `output` is read off the block convolved last.
pub open spec fn replaced<C: Convolver>(conv: C, output: Seq<u32>) -> bool {
    forall|i: int| 0 <= i < output.len() ==> sample_is(conv, i as usize, #[trigger] output[i])
}

impl<F: Arith, C: Convolver> AudioProcessor for CabIr<F, C> {
    open spec fn wf(&self) -> bool {
        self.conv is Some
    }

    open spec fn accepts(&self, n: nat) -> bool {
        self.ready ==> n <= self.room
    }

    open spec fn resettable(&self) -> bool {
        true
    }

    /// The convolution takes on the impulse response, unless there is none.
    open spec fn prepared(&self, sample_rate: u32, max_block: usize, after: Self) -> bool {
        &&& after == CabIr { conv: after.conv, room: max_block, ready: after.ready, ..*self }
        &&& exists|ir: Seq<u32>| #[trigger]
            impulse_is::<F>(self.raw@, self.raw_sr, sample_rate, ir) && if ir.len() == 0 {
                !after.ready && after.conv == self.conv
            } else {
                init_is(self.conv->0, ir, max_block, after.conv->0, after.ready)
            }
    }

    /// As at some value that the switch had.
    open spec fn processed(&self, input: Seq<u32>, after: Self, output: Seq<u32>) -> bool {
        exists|enabled: u32| #[trigger]
            self.processed_with(enabled, input, after, output) && read_is(self.enabled, enabled)
    }

    open spec fn cleared(&self, after: Self) -> bool {
        &&& after == CabIr { conv: after.conv, ..*self }
        &&& call_ensures(C::reset, (self.conv->0,), after.conv->0)
    }

    fn prepare(&mut self, sample_rate: u32, max_block: usize) {
        let ir = self.build_ir(sample_rate);
        self.ready = false;
        if ir.len() != 0 {
            if let Some(conv) = self.conv.take() {
                let (conv, ok) = conv.init(PARTITION, &ir, max_block);
                assert(init_is(old(self).conv->0, ir@, max_block, conv, ok));
                self.conv = Some(conv);
                self.ready = ok;
            }
        }
        self.room = max_block;
        assert(impulse_is::<F>(old(self).raw@, old(self).raw_sr, sample_rate, ir@));
    }

    fn process(&mut self, buf: &mut [u32]) {
        let enabled: u32 = read(&self.enabled);
        self.process_with(enabled, buf);
    }

    fn reset(&mut self) {
        if let Some(conv) = self.conv.take() {
            self.conv = Some(conv.reset());
        }
    }
}

/// A cabinet that is switched off hands the signal through.
pub proof fn disabled_cab_is_identity<F: Arith, C: Convolver>(
    cab: CabIr<F, C>,
    enabled: u32,
    input: Seq<u32>,
    after: CabIr<F, C>,
    output: Seq<u32>,
)
    requires
        cab.processed_with(enabled, input, after, output),
        is_off(enabled),
    ensures
        output == input,
        after == cab,
{
}

/// Without an impulse response the signal passes through, whatever the sample
/// rate and the switch.
pub proof fn empty_impulse_passes_through<F: Arith, C: Convolver>(
    cab: CabIr<F, C>,
    sample_rate: u32,
    max_block: usize,
    ready: CabIr<F, C>,
    input: Seq<u32>,
    after: CabIr<F, C>,
    output: Seq<u32>,
)
    requires
        cab.raw@.len() == 0,
        cab.prepared(sample_rate, max_block, ready),
        ready.processed(input, after, output),
    ensures
        output == input,
{
}

/// The impulse response that is convolved with is never longer than a second's
/// worth of samples, and never empty unless the recording is.
pub proof fn impulse_is_bounded<F: Arith>(
    raw: Seq<u32>,
    raw_sr: u32,
    target_sr: u32,
    ir: Seq<u32>,
)
    requires
        impulse_is::<F>(raw, raw_sr, target_sr, ir),
        raw.len() > 0,
        ir.len() <= usize::MAX,
    ensures
        ir.len() >= 1,
        exists|limit: u32, b: usize| #[trigger]
            product_is::<F>(target_sr, MAX_IR_SECS, limit) && #[trigger] to_count_is::<F>(limit, b)
                && (ir.len() <= b || ir.len() == 1),
{
}

/// Whether all samples of a response are between minus one and one.
pub open spec fn moderate(raw: Seq<u32>) -> bool {
    forall|i: int|
        0 <= i < raw.len() ==> finite(#[trigger] raw[i]) && -one() <= units(raw[i]) <= one()
}

/// The difference of two moderate samples is finite.
proof fn rises_are_finite<F: Arith>(a: u32, b: u32, rise: u32)
    requires
        faithful::<F>(),
        difference_is::<F>(b, a, rise),
        finite(a) && -one() <= units(a) <= one(),
        finite(b) && -one() <= units(b) <= one(),
    ensures
        finite(rise),
{
    units_of_one();
    units_of_negated(TWO);
    rounds_above(units(b) - units(a), 1, rise, negated(TWO));
    rounds_below(units(b) - units(a), 1, rise, TWO);
    between_is_finite(negated(TWO), rise, TWO);
}

/// A response keeps its shape at the new rate: where sample `i` at the new rate falls on
/// sample `k` of the recording, which is at `i` over the ratio of the rates, it is that
/// sample; past the end it is silence.
pub proof fn resampling_hits_the_recording<F: Arith>(
    raw: Seq<u32>,
    ratio: u32,
    i: usize,
    r: u32,
    k: nat,
)
    requires
        faithful::<F>(),
        counts::<F>(),
        resampled_is::<F>(raw, ratio, i, r),
        moderate(raw),
        finite(ratio) && units(ratio) > 0,
        i < 0x100_0000,
        k < 0x100_0000,
        k * units(ratio) == i * one(),
    ensures
        same(r, at_or_zero(raw, k as int)),
{
    units_of_one();
    let (n, pos, i0) = choose|n: u32, pos: u32, i0: usize|
        #![trigger of_count_is::<F>(i, n), quotient_is::<F>(n, ratio, pos), to_count_is::<F>(pos, i0)]
        of_count_is::<F>(i, n) && quotient_is::<F>(n, ratio, pos) && to_count_is::<F>(pos, i0)
            && between_is::<F>(
            at_or_zero(raw, i0 as int),
            at_or_zero(raw, i0 + 1),
            pos,
            i0,
            r,
        );
    counts_are_exact::<F>(i, n);
    whole_numbers_are_numbers(k);
    let u = units(ratio);
    assert((k * one()) * u == (i * one()) * one()) by (nonlinear_arith)
        requires
            k * u == i * one(),
    ;
    exact_results_are_hit(units(n) * one(), u, pos, whole(k));
    assert(is_count(k));
    assert(i0 == k);
    let (a, b) = (at_or_zero(raw, i0 as int), at_or_zero(raw, i0 + 1));
    let (start, frac, rise) = choose|start: u32, frac: u32, rise: u32|
        #![trigger of_count_is::<F>(i0, start), difference_is::<F>(pos, start, frac), difference_is::<F>(b, a, rise)]
        of_count_is::<F>(i0, start) && difference_is::<F>(pos, start, frac) && difference_is::<F>(
            b,
            a,
            rise,
        ) && mac_is::<F>(a, rise, frac, r);
    counts_are_exact::<F>(i0, start);
    difference_to_itself::<F>(pos, start, frac);
    rises_are_finite::<F>(a, b, rise);
    let p = choose|p: u32| #[trigger] product_is::<F>(rise, frac, p) && sum_is::<F>(a, p, r);
    product_with_zero::<F>(rise, frac, p);
    zero_adds_nothing::<F>(a, p, r);
}

/// Cutting a number down to a count drops what is behind the point.
pub open spec fn truncates<F: Arith>() -> bool {
    forall|a: u32, n: usize|
        finite(a) && 0 <= units(a) && units(a) < 0x100_0000 * one() && #[trigger] to_count_is::<F>(
            a,
            n,
        ) ==> n * one() <= units(a) < (n + 1) * one()
}

/// Between two samples of the recording a response runs from one to the other: a sample at
/// the new rate that falls between two that are in order lies between them, wherever their
/// distance is a number.
pub proof fn resampling_stays_between_neighbours<F: Arith>(
    raw: Seq<u32>,
    ratio: u32,
    i: usize,
    r: u32,
)
    requires
        faithful::<F>(),
        counts::<F>(),
        truncates::<F>(),
        resampled_is::<F>(raw, ratio, i, r),
        moderate(raw),
        finite(ratio) && units(ratio) > 0,
        i < 0x100_0000,
        i * one() < 0x80_0000 * units(ratio),
        forall|k: int|
            0 <= k ==> exists|g: u32| #[trigger]
                finite(g) && units(g) == units(at_or_zero(raw, k + 1)) - units(
                    #[trigger] at_or_zero(raw, k),
                ),
    ensures
        exists|k: nat|
            {
                let (a, b) = (units(at_or_zero(raw, k as int)), units(at_or_zero(raw, k as int + 1)));
                &&& #[trigger] around(k, i, ratio)
                &&& a <= b ==> a <= units(r) <= b
                &&& b <= a ==> b <= units(r) <= a
            },
{
    units_of_one();
    let (n, pos, i0) = choose|n: u32, pos: u32, i0: usize|
        #![trigger of_count_is::<F>(i, n), quotient_is::<F>(n, ratio, pos), to_count_is::<F>(pos, i0)]
        of_count_is::<F>(i, n) && quotient_is::<F>(n, ratio, pos) && to_count_is::<F>(pos, i0)
            && between_is::<F>(
            at_or_zero(raw, i0 as int),
            at_or_zero(raw, i0 + 1),
            pos,
            i0,
            r,
        );
    counts_are_exact::<F>(i, n);
    let (u, m) = (units(ratio), i * one());
    let most = whole(0x80_0000);
    whole_numbers_are_numbers(0x80_0000);
    assert(0 <= m * one() <= (0x80_0000 * one()) * u) by (nonlinear_arith)
        requires
            0 <= m <= 0x80_0000 * u,
            one() > 0,
    ;
    rounds_above(m * one(), u, pos, ZERO);
    rounds_below(m * one(), u, pos, most);
    between_is_finite(ZERO, pos, most);
    let at = i0 as nat;
    assert(at <= 0x80_0000) by {
        assert(at * one() <= 0x80_0000 * one());
        assert(at * one() <= 0x80_0000 * one() ==> at <= 0x80_0000) by (nonlinear_arith)
            requires
                one() > 0,
        ;
    }
    let (a, b) = (at_or_zero(raw, i0 as int), at_or_zero(raw, i0 + 1));
    let (start, frac, rise) = choose|start: u32, frac: u32, rise: u32|
        #![trigger of_count_is::<F>(i0, start), difference_is::<F>(pos, start, frac), difference_is::<F>(b, a, rise)]
        of_count_is::<F>(i0, start) && difference_is::<F>(pos, start, frac) && difference_is::<F>(
            b,
            a,
            rise,
        ) && mac_is::<F>(a, rise, frac, r);
    counts_are_exact::<F>(i0, start);
    assert((at + 1) * one() == at * one() + one()) by (nonlinear_arith);
    rounds_above(units(pos) - units(start), 1, frac, ZERO);
    rounds_below(units(pos) - units(start), 1, frac, ONE);
    between_is_finite(ZERO, frac, ONE);
    let g = choose|g: u32| #[trigger]
        finite(g) && units(g) == units(at_or_zero(raw, i0 + 1)) - units(
            at_or_zero(raw, i0 as int),
        );
    exact_results_are_hit(units(b) - units(a), 1, rise, g);
    let p = choose|p: u32| #[trigger] product_is::<F>(rise, frac, p) && sum_is::<F>(a, p, r);
    factor_up_to_one_shrinks::<F>(rise, frac, p);
    let total = units(a) + units(p);
    if units(a) <= units(b) {
        rounds_above(total, 1, r, a);
        rounds_below(total, 1, r, b);
    }
    if units(b) <= units(a) {
        rounds_above(total, 1, r, b);
        rounds_below(total, 1, r, a);
    }
    assert(around(at, i, ratio)) by {
        let (lo, hi) = (whole(at), whole(at + 1));
        whole_numbers_are_numbers(at);
        whole_numbers_are_numbers(at + 1);
        if m < at * u {
            assert(m * one() <= (at * one()) * u) by (nonlinear_arith)
                requires
                    m <= at * u,
                    one() > 0,
            ;
            rounds_below(m * one(), u, pos, lo);
        }
        if (at + 1) * u < m {
            assert(((at + 1) * one()) * u <= m * one()) by (nonlinear_arith)
                requires
                    (at + 1) * u <= m,
                    one() > 0,
            ;
            rounds_above(m * one(), u, pos, hi);
        }
        assert(units(pos) == at * one() ==> at * u >= m - u) by {
            if at * u < m - u {
                assert((at + 1) * u == at * u + u) by (nonlinear_arith);
            }
        }
        assert((at - 1) * u == at * u - u) by (nonlinear_arith);
        if at > 0 && m < (at - 1) * u {
            let below = whole((at - 1) as nat);
            whole_numbers_are_numbers((at - 1) as nat);
            assert(m * one() <= ((at - 1) * one()) * u) by (nonlinear_arith)
                requires
                    m <= (at - 1) * u,
                    one() > 0,
            ;
            rounds_below(m * one(), u, pos, below);
            assert((at - 1) * one() < at * one()) by (nonlinear_arith)
                requires
                    one() > 0,
            ;
        }
    }
}

/// Whether sample `i` at the new rate falls between samples `k` and `k + 1` of the
/// recording, give or take one where it falls next to a sample.
pub open spec fn around(k: nat, i: usize, ratio: u32) -> bool {
    (k - 1) * units(ratio) <= i * one() <= (k + 1) * units(ratio)
}

/// The ratio of the rates is the new one over that of the recording, next to it.
pub proof fn ratio_is_new_over_old<F: Arith>(
    raw: Seq<u32>,
    raw_sr: u32,
    target_sr: u32,
    plain: Seq<u32>,
)
    requires
        faithful::<F>(),
        counts::<F>(),
        at_rate_is::<F>(raw, raw_sr, target_sr, plain),
        0 < raw_sr < 0x100_0000,
        finite(target_sr),
    ensures
        exists|ratio: u32|
            #[trigger] rounds(units(target_sr), raw_sr as int, ratio) && (forall|i: int|
                0 <= i < plain.len() ==> resampled_is::<F>(
                    raw,
                    ratio,
                    i as usize,
                    #[trigger] plain[i],
                )) && out_len_is::<F>(
                raw.len() as usize,
                ratio,
                target_sr,
                plain.len() as usize,
            ),
{
    units_of_one();
    let (from, ratio) = choose|from: u32, ratio: u32| #[trigger]
        of_count_is::<F>(raw_sr as usize, from) && #[trigger] quotient_is::<F>(
            target_sr,
            from,
            ratio,
        ) && out_len_is::<F>(raw.len() as usize, ratio, target_sr, plain.len() as usize) && (forall|
            i: int,
        |
            0 <= i < plain.len() ==> resampled_is::<F>(raw, ratio, i as usize, #[trigger] plain[i]));
    counts_are_exact::<F>(raw_sr as usize, from);
    assert(raw_sr * one() > 0) by (nonlinear_arith)
        requires
            raw_sr > 0,
            one() > 0,
    ;
    rounds_scales(units(target_sr), raw_sr as int, one(), ratio);
}

/// At the rate of the recording its length stays, up to a second's worth of samples.
pub proof fn length_follows_the_ratio<F: Arith>(
    len: usize,
    ratio: u32,
    target_sr: u32,
    n: usize,
    m: nat,
    second: nat,
)
    requires
        faithful::<F>(),
        counts::<F>(),
        out_len_is::<F>(len, ratio, target_sr, n),
        0 < len < 0x100_0000,
        m < 0x100_0000,
        second < 0x100_0000,
        finite(ratio) && len * units(ratio) == m * one(),
        finite(target_sr) && units(target_sr) == second * one(),
    ensures
        n == if m < 1 || second < 1 {
            1
        } else if m < second {
            m
        } else {
            second
        },
{
    units_of_one();
    let (l, scaled, a, limit, b) = choose|l: u32, scaled: u32, a: usize, limit: u32, b: usize|
        #![trigger of_count_is::<F>(len, l), product_is::<F>(l, ratio, scaled), to_count_is::<F>(scaled, a), product_is::<F>(target_sr, MAX_IR_SECS, limit), to_count_is::<F>(limit, b)]
        of_count_is::<F>(len, l) && product_is::<F>(l, ratio, scaled) && to_count_is::<F>(scaled, a)
            && product_is::<F>(target_sr, MAX_IR_SECS, limit) && to_count_is::<F>(limit, b) && n
            == bounded_len(a, b);
    counts_are_exact::<F>(len, l);
    whole_numbers_are_numbers(m);
    let u = units(ratio);
    assert((len * one()) * u == (m * one()) * one()) by (nonlinear_arith)
        requires
            len * u == m * one(),
    ;
    exact_results_are_hit(units(l) * u, one(), scaled, whole(m));
    assert(is_count(m) && is_count(second));
    assert(a == m);
    assert(MAX_IR_SECS == ONE);
    product_with_one::<F>(target_sr, MAX_IR_SECS, limit);
    assert(b == second);
}

/// Square roots are next to their true values.
pub open spec fn takes_roots<F: Arith>() -> bool {
    forall|a: u32, r: u32|
        finite(a) && units(a) > 0 && #[trigger] sqrt_is::<F>(a, r) ==> finite(r) && units(r) > 0 && (
        forall|c: u32| #[trigger]
            finite(c) && units(c) >= 0 ==> (units(c) * units(c) <= units(a) * one() ==> units(c)
                <= units(r)) && (units(c) * units(c) >= units(a) * one() ==> units(r) <= units(c)))
}

/// A response is scaled to unit energy by one gain for all its samples: one over the root
/// of its energy. With every number `c` up to the root and every `h` from one over `c`
/// upwards, the gain is at most `h`, and likewise from below; at unit energy the response
/// stays as it is.
pub proof fn gain_brings_unit_energy<F: Arith>(plain: Seq<u32>, ir: Seq<u32>, e: u32)
    requires
        faithful::<F>(),
        takes_roots::<F>(),
        normalised_is::<F>(plain, ir),
        dot_is::<F>(plain, plain, e),
        forall|d: u32| #[trigger] dot_is::<F>(plain, plain, d) ==> d == e,
        finite(e) && below(SILENT_ENERGY, e),
    ensures
        exists|gain: u32|
            {
                &&& #[trigger] scaled_is::<F>(plain, gain, ir)
                &&& forall|c: u32, h: u32|
                    #![trigger finite(c), finite(h)]
                    finite(c) && finite(h) && units(c) > 0 ==> {
                        &&& units(c) * units(c) <= units(e) * one() && units(h) * units(c) >= one()
                            * one() ==> rank(gain) <= rank(h)
                        &&& units(c) * units(c) >= units(e) * one() && units(h) * units(c) <= one()
                            * one() ==> rank(h) <= rank(gain)
                    }
                &&& units(e) == one() ==> same(gain, ONE)
            },
        units(e) == one() ==> forall|i: int|
            0 <= i < ir.len() && finite(plain[i]) ==> same(#[trigger] ir[i], plain[i]),
{
    units_of_one();
    units_follow_the_order(e, ZERO);
    units_follow_the_order(SILENT_ENERGY, ZERO);
    let (root, gain) = choose|root: u32, gain: u32| #[trigger]
        sqrt_is::<F>(e, root) && #[trigger] quotient_is::<F>(ONE, root, gain) && scaled_is::<F>(
            plain,
            gain,
            ir,
        );
    let (ue, ur) = (units(e), units(root));
    assert forall|c: u32, h: u32|
        #![trigger finite(c), finite(h)]
        finite(c) && finite(h) && units(c) > 0 implies {
        &&& units(c) * units(c) <= units(e) * one() && units(h) * units(c) >= one() * one()
            ==> rank(gain) <= rank(h)
        &&& units(c) * units(c) >= units(e) * one() && units(h) * units(c) <= one() * one()
            ==> rank(h) <= rank(gain)
    } by {
        let (uc, uh) = (units(c), units(h));
        if uc * uc <= ue * one() && uh * uc >= one() * one() {
            assert(finite(c) && uc <= ur);
            assert(one() * one() <= uh * ur) by (nonlinear_arith)
                requires
                    uh * uc >= one() * one(),
                    0 < uc <= ur,
                    one() > 0,
            ;
            rounds_below(one() * one(), ur, gain, h);
        }
        if uc * uc >= ue * one() && uh * uc <= one() * one() {
            assert(finite(c) && ur <= uc);
            assert(uh * ur <= one() * one()) by (nonlinear_arith)
                requires
                    uh * uc <= one() * one(),
                    0 < ur <= uc,
                    one() > 0,
            ;
            rounds_above(one() * one(), ur, gain, h);
        }
    }
    if ue == one() {
        assert(finite(ONE) && ur == one());
        exact_results_are_hit(one() * one(), ur, gain, ONE);
        assert forall|i: int| 0 <= i < ir.len() && finite(plain[i]) implies same(
            #[trigger] ir[i],
            plain[i],
        ) by {
            product_with_one::<F>(plain[i], gain, ir[i]);
        }
    }
    assert(scaled_is::<F>(plain, gain, ir));
}

/// A block that was convolved is handed out sample by sample.
pub proof fn convolved_blocks_are_handed_out<F: Arith, C: Convolver>(
    cab: CabIr<F, C>,
    enabled: u32,
    input: Seq<u32>,
    after: CabIr<F, C>,
    output: Seq<u32>,
    i: int,
)
    requires
        cab.processed_with(enabled, input, after, output),
        cab.ready && !is_off(enabled),
        forall|conv: C, ok: bool| #[trigger] convolve_is(cab.conv->0, input, conv, ok) ==> ok,
        0 <= i < input.len(),
    ensures
        output.len() == input.len(),
        exists|ok: bool| #[trigger] convolve_is(cab.conv->0, input, after.conv->0, ok),
        sample_is(after.conv->0, i as usize, output[i]),
{
}

/// A response is first brought to the rate of the stream and then scaled, and it is with
/// what comes of that that blocks are convolved; without a recording the cabinet is not
/// ready.
pub proof fn cab_takes_on_its_response<F: Arith, C: Convolver>(
    cab: CabIr<F, C>,
    sample_rate: u32,
    max_block: usize,
    after: CabIr<F, C>,
)
    requires
        cab.prepared(sample_rate, max_block, after),
    ensures
        cab.raw@.len() == 0 ==> !after.ready,
        cab.raw@.len() > 0 ==> exists|plain: Seq<u32>, ir: Seq<u32>|
            #![trigger at_rate_is::<F>(cab.raw@, cab.raw_sr, sample_rate, plain), normalised_is::<F>(plain, ir)]
            {
                &&& at_rate_is::<F>(cab.raw@, cab.raw_sr, sample_rate, plain)
                &&& normalised_is::<F>(plain, ir)
                &&& ir.len() == plain.len()
                &&& ir.len() > 0 ==> init_is(
                    cab.conv->0,
                    ir,
                    max_block,
                    after.conv->0,
                    after.ready,
                )
            },
{
    let ir = choose|ir: Seq<u32>| #[trigger]
        impulse_is::<F>(cab.raw@, cab.raw_sr, sample_rate, ir) && if ir.len() == 0 {
            !after.ready && after.conv == cab.conv
        } else {
            init_is(cab.conv->0, ir, max_block, after.conv->0, after.ready)
        };
    if cab.raw@.len() > 0 {
        let plain = choose|plain: Seq<u32>| #[trigger]
            at_rate_is::<F>(cab.raw@, cab.raw_sr, sample_rate, plain) && normalised_is::<F>(
                plain,
                ir,
            ) && ir.len() == plain.len();
        assert(at_rate_is::<F>(cab.raw@, cab.raw_sr, sample_rate, plain) && normalised_is::<F>(
            plain,
            ir,
        ));
    }
}

} // verus!
