//! Mono reverb in the manner of Freeverb: eight parallel damped comb filters,
//! summed, then four allpass filters in series to diffuse the echoes. The dry
//! signal stays at full level and the wet signal is added to it.
use crate::arith::{difference_is, of_count_is, product_is, quotient_is, sum_is, to_count_is, Arith};
use crate::bits::{
    below, clamp, clamped, is_off, lt, neg, negated, not_a_number, off, rank, HALF, ONE, ZERO,
};
use crate::block::{run_block, run_keeps, runs, stepping, traces, Step};
use crate::line::{silence, Line};
use crate::number::{
    between_is_finite, constants_round, counts, counts_are_exact, dyadic, dyadics_are_numbers,
    exact_results_are_hit, factor_up_to_one_shrinks, faithful, finite, is_count, one,
    product_with_one, product_with_zero, rounds, rounds_above, rounds_below, rounds_scales, same,
    small_products_are_finite, units, units_follow_the_order, units_of_negated, units_of_one,
    whole, whole_numbers_are_numbers, zero_adds_nothing, zero_wipes, OCTAVE,
};
use crate::param::{read, read_is, SharedParam};
use crate::processor::{
    alike_units_perform_alike, matches_step, performs, playing_keeps, plays, AudioProcessor,
};
use core::marker::PhantomData;
use vstd::arithmetic::power2::{lemma_pow2_pos, lemma_pow2_unfold, pow2};
use vstd::prelude::*;

verus! {

/// Lengths of the comb filters, in samples at 44.1 kHz.
pub const COMB_TUNING: [usize; 8] = [1116, 1188, 1277, 1356, 1422, 1491, 1557, 1617];

/// Lengths of the allpass filters, in samples at 44.1 kHz.
pub const ALLPASS_TUNING: [usize; 4] = [556, 441, 341, 225];

/// 44.1 kHz.
pub const TUNING_RATE: u32 = 0x472c_4400;

/// The size of the room, 0.7.
pub const ROOM_SIZE: u32 = 0x3f33_3333;

/// 0.28
pub const ROOM_SCALE: u32 = 0x3e8f_5c29;

/// 0.7
pub const ROOM_OFFSET: u32 = 0x3f33_3333;

/// 0.4
pub const DAMP_SCALE: u32 = 0x3ecc_cccd;

/// 0.015: what the filters are fed of the signal, so that the feedback stays
/// in bounds.
pub const FIXED_GAIN: u32 = 0x3c75_c28f;

/// 0.6: what full mix adds of the wet signal.
pub const WET_SCALE: u32 = 0x3f19_999a;

/// Mixes below 0.005 count as dry.
pub const LEAST_MIX: u32 = 0x3ba3_d70a;

/// A feedback comb filter with a one-pole low pass in the feedback path.
pub struct Comb {
    /// The delay.
    pub line: Line,
    /// The memory of the low pass.
    pub store: u32,
    /// What is fed back.
    pub feedback: u32,
    /// What the low pass keeps.
    pub damp: u32,
}

/// One sample of a comb filter: what leaves the delay comes out, is damped and
/// fed back into the delay together with `x`.
pub open spec fn comb_steps<F: Arith>(before: Comb, x: u32, after: Comb, y: u32) -> bool {
    &&& after == Comb { line: after.line, store: after.store, ..before }
    &&& y == before.line@[0]
    &&& exists|pass: u32, fresh: u32, kept: u32|
        #![trigger product_is::<F>(y, pass, fresh), product_is::<F>(before.store, before.damp, kept)]
        difference_is::<F>(ONE, before.damp, pass) && product_is::<F>(y, pass, fresh)
            && product_is::<F>(before.store, before.damp, kept) && sum_is::<F>(
            fresh,
            kept,
            after.store,
        )
    &&& exists|back: u32, w: u32| #[trigger]
        product_is::<F>(after.store, before.feedback, back) && #[trigger] sum_is::<F>(x, back, w)
            && after.line@ == before.line@.drop_first().push(w)
}

impl Comb {
    /// A silent comb filter of at least one sample.
    pub fn new(len: usize, feedback: u32, damp: u32) -> (r: Self)
        ensures
            r.line.wf(),
            r.line@ == silence(
                if len == 0 {
                    1
                } else {
                    len as nat
                },
            ),
            r.store == ZERO,
            r.feedback == feedback,
            r.damp == damp,
    {
        let len: usize = if len == 0 {
            1
        } else {
            len
        };
        Comb { line: Line::new(len), store: ZERO, feedback, damp }
    }

    /// One sample.
    pub fn process<F: Arith>(&mut self, x: u32) -> (y: u32)
        requires
            old(self).line.wf(),
        ensures
            final(self).line.wf(),
            comb_steps::<F>(*old(self), x, *final(self), y),
    {
        let y: u32 = self.line.oldest();
        let pass: u32 = F::minus(ONE, self.damp);
        let fresh: u32 = F::times(y, pass);
        let kept: u32 = F::times(self.store, self.damp);
        assert(product_is::<F>(y, pass, fresh) && product_is::<F>(self.store, self.damp, kept));
        self.store = F::plus(fresh, kept);
        let back: u32 = F::times(self.store, self.feedback);
        let w: u32 = F::plus(x, back);
        assert(product_is::<F>(self.store, self.feedback, back) && sum_is::<F>(x, back, w));
        self.line.feed(w);
        y
    }

    /// Back to silence.
    pub fn clear(&mut self)
        requires
            old(self).line.wf(),
        ensures
            final(self).line.wf(),
            final(self).line@ == silence(old(self).line@.len()),
            *final(self) == (Comb { line: final(self).line, store: ZERO, ..*old(self) }),
    {
        self.line.clear();
        self.store = ZERO;
    }
}

/// A Schroeder allpass filter.
pub struct Allpass {
    /// The delay.
    pub line: Line,
    /// What is fed back.
    pub feedback: u32,
}

/// One sample of an allpass filter.
pub open spec fn allpass_steps<F: Arith>(before: Allpass, x: u32, after: Allpass, y: u32) -> bool {
    &&& after == Allpass { line: after.line, ..before }
    &&& sum_is::<F>(negated(x), before.line@[0], y)
    &&& exists|back: u32, w: u32| #[trigger]
        product_is::<F>(before.line@[0], before.feedback, back) && #[trigger] sum_is::<F>(
            x,
            back,
            w,
        ) && after.line@ == before.line@.drop_first().push(w)
}

impl Allpass {
    /// A silent allpass filter of at least one sample.
    pub fn new(len: usize, feedback: u32) -> (r: Self)
        ensures
            r.line.wf(),
            r.line@ == silence(
                if len == 0 {
                    1
                } else {
                    len as nat
                },
            ),
            r.feedback == feedback,
    {
        let len: usize = if len == 0 {
            1
        } else {
            len
        };
        Allpass { line: Line::new(len), feedback }
    }

    /// One sample.
    pub fn process<F: Arith>(&mut self, x: u32) -> (y: u32)
        requires
            old(self).line.wf(),
        ensures
            final(self).line.wf(),
            allpass_steps::<F>(*old(self), x, *final(self), y),
    {
        let buffed: u32 = self.line.oldest();
        let y: u32 = F::plus(neg(x), buffed);
        let back: u32 = F::times(buffed, self.feedback);
        let w: u32 = F::plus(x, back);
        assert(product_is::<F>(buffed, self.feedback, back) && sum_is::<F>(x, back, w));
        self.line.feed(w);
        y
    }

    /// Back to silence.
    pub fn clear(&mut self)
        requires
            old(self).line.wf(),
        ensures
            final(self).line.wf(),
            final(self).line@ == silence(old(self).line@.len()),
            *final(self) == (Allpass { line: final(self).line, ..*old(self) }),
    {
        self.line.clear();
    }
}

/// The reverb at work on a block.
pub struct ReverbRun<F> {
    /// What is added of the wet signal.
    pub wet: u32,
    /// The parallel comb filters.
    pub combs: Vec<Comb>,
    /// The allpass filters in series.
    pub allpasses: Vec<Allpass>,
    /// The arithmetic.
    pub arith: PhantomData<F>,
}

/// A comb filter fed with `x` adds its output to the sum `from`, which gives
/// `to`.
pub open spec fn comb_adds<F: Arith>(
    before: Comb,
    x: u32,
    after: Comb,
    from: u32,
    to: u32,
) -> bool {
    exists|y: u32| #[trigger] comb_steps::<F>(before, x, after, y) && sum_is::<F>(from, y, to)
}

/// The comb filters, all fed with `x`, add up to `total`: `sums` holds the
/// partial sums, starting from nothing.
pub open spec fn combs_sum<F: Arith>(
    before: Seq<Comb>,
    x: u32,
    after: Seq<Comb>,
    sums: Seq<u32>,
) -> bool {
    &&& after.len() == before.len()
    &&& sums.len() == before.len() + 1
    &&& sums[0] == ZERO
    &&& forall|i: int|
        #![trigger sums[i]]
        0 <= i < before.len() ==> comb_adds::<F>(before[i], x, after[i], sums[i], sums[i + 1])
}

/// The allpass filters, one after the other: `mids` holds what goes from one
/// to the next.
pub open spec fn allpasses_chain<F: Arith>(
    before: Seq<Allpass>,
    after: Seq<Allpass>,
    mids: Seq<u32>,
) -> bool {
    &&& after.len() == before.len()
    &&& mids.len() == before.len() + 1
    &&& forall|i: int|
        #![trigger mids[i]]
        0 <= i < before.len() ==> allpass_steps::<F>(before[i], mids[i], after[i], mids[i + 1])
}

/// The filters turn `x` into the wet sample `wet`.
pub open spec fn network_steps<F: Arith>(
    combs: Seq<Comb>,
    allpasses: Seq<Allpass>,
    x: u32,
    combs_after: Seq<Comb>,
    allpasses_after: Seq<Allpass>,
    wet: u32,
) -> bool {
    exists|sums: Seq<u32>, mids: Seq<u32>|
        #![trigger combs_sum::<F>(combs, x, combs_after, sums), allpasses_chain::<F>(allpasses, allpasses_after, mids)]
        combs_sum::<F>(combs, x, combs_after, sums) && allpasses_chain::<F>(
            allpasses,
            allpasses_after,
            mids,
        ) && mids[0] == sums[combs.len() as int] && wet == mids[allpasses.len() as int]
}

/// Runs one sample through the filters.
pub fn network<F: Arith>(combs: &mut Vec<Comb>, allpasses: &mut Vec<Allpass>, x: u32) -> (wet: u32)
    requires
        forall|i: int| 0 <= i < old(combs)@.len() ==> (#[trigger] old(combs)@[i]).line.wf(),
        forall|i: int| 0 <= i < old(allpasses)@.len() ==> (#[trigger] old(allpasses)@[i]).line.wf(),
    ensures
        forall|i: int| 0 <= i < final(combs)@.len() ==> (#[trigger] final(combs)@[i]).line.wf(),
        forall|i: int|
            0 <= i < final(allpasses)@.len() ==> (#[trigger] final(allpasses)@[i]).line.wf(),
        network_steps::<F>(
            old(combs)@,
            old(allpasses)@,
            x,
            final(combs)@,
            final(allpasses)@,
            wet,
        ),
{
    let mut acc: u32 = ZERO;
    let nc: usize = combs.len();
    let na: usize = allpasses.len();
    let ghost mut sums: Seq<u32> = seq![ZERO];
    let mut i: usize = 0;
    while i < nc
        invariant
            i <= nc,
            nc == combs@.len(),
            nc == old(combs)@.len(),
            forall|k: int| 0 <= k < nc ==> (#[trigger] combs@[k]).line.wf(),
            forall|k: int| i <= k < nc ==> combs@[k] == old(combs)@[k],
            sums.len() == i + 1,
            sums[0] == ZERO,
            sums[i as int] == acc,
            forall|k: int|
                #![trigger sums[k]]
                0 <= k < i ==> comb_adds::<F>(
                    old(combs)@[k],
                    x,
                    combs@[k],
                    sums[k],
                    sums[k + 1],
                ),
        decreases nc - i,
    {
        let y: u32 = combs[i].process::<F>(x);
        let next: u32 = F::plus(acc, y);
        proof {
            assert(comb_steps::<F>(old(combs)@[i as int], x, combs@[i as int], y));
            sums = sums.push(next);
        }
        acc = next;
        i = i + 1;
    }
    let ghost mut mids: Seq<u32> = seq![acc];
    let mut j: usize = 0;
    while j < na
        invariant
            j <= na,
            na == allpasses@.len(),
            na == old(allpasses)@.len(),
            combs_sum::<F>(old(combs)@, x, combs@, sums),
            forall|k: int| 0 <= k < combs@.len() ==> (#[trigger] combs@[k]).line.wf(),
            nc == combs@.len(),
            forall|k: int| 0 <= k < na ==> (#[trigger] allpasses@[k]).line.wf(),
            forall|k: int| j <= k < na ==> allpasses@[k] == old(allpasses)@[k],
            mids.len() == j + 1,
            mids[0] == sums[nc as int],
            mids[j as int] == acc,
            forall|k: int|
                #![trigger mids[k]]
                0 <= k < j ==> allpass_steps::<F>(
                    old(allpasses)@[k],
                    mids[k],
                    allpasses@[k],
                    mids[k + 1],
                ),
        decreases na - j,
    {
        acc = allpasses[j].process::<F>(acc);
        proof {
            mids = mids.push(acc);
        }
        j = j + 1;
    }
    assert(combs_sum::<F>(old(combs)@, x, combs@, sums));
    assert(allpasses_chain::<F>(old(allpasses)@, allpasses@, mids));
    acc
}

impl<F: Arith> Step for ReverbRun<F> {
    open spec fn sound(&self) -> bool {
        &&& forall|i: int| 0 <= i < self.combs@.len() ==> (#[trigger] self.combs@[i]).line.wf()
        &&& forall|i: int|
            0 <= i < self.allpasses@.len() ==> (#[trigger] self.allpasses@[i]).line.wf()
    }

    open spec fn steps(&self, x: u32, after: Self, y: u32) -> bool {
        &&& after.wet == self.wet && after.arith == self.arith
        &&& exists|feed: u32, tail: u32, add: u32|
            #![trigger product_is::<F>(x, FIXED_GAIN, feed), product_is::<F>(tail, self.wet, add)]
            product_is::<F>(x, FIXED_GAIN, feed) && network_steps::<F>(
                self.combs@,
                self.allpasses@,
                feed,
                after.combs@,
                after.allpasses@,
                tail,
            ) && product_is::<F>(tail, self.wet, add) && sum_is::<F>(x, add, y)
    }

    fn step(&mut self, x: u32) -> (y: u32) {
        let feed: u32 = F::times(x, FIXED_GAIN);
        let tail: u32 = network::<F>(&mut self.combs, &mut self.allpasses, feed);
        let add: u32 = F::times(tail, self.wet);
        let y: u32 = F::plus(x, add);
        assert(product_is::<F>(x, FIXED_GAIN, feed) && product_is::<F>(tail, self.wet, add));
        y
    }
}

/// `len` is a result of the length `tuning * scale`, cut down to a count.
pub open spec fn scaled_is<F: Arith>(tuning: usize, scale: u32, len: usize) -> bool {
    exists|t: u32, l: u32| #[trigger]
        of_count_is::<F>(tuning, t) && #[trigger] product_is::<F>(t, scale, l) && to_count_is::<F>(
            l,
            len,
        )
}

/// The length `tuning * scale`, cut down to a count.
pub fn scaled<F: Arith>(tuning: usize, scale: u32) -> (len: usize)
    ensures
        scaled_is::<F>(tuning, scale, len),
{
    let t: u32 = F::of_count(tuning);
    let l: u32 = F::times(t, scale);
    let len: usize = F::to_count(l);
    assert(of_count_is::<F>(tuning, t) && product_is::<F>(t, scale, l));
    len
}

/// A silent line of `len` samples, or of one if `len` is zero.
pub open spec fn silent_line(line: Line, len: usize) -> bool {
    line.wf() && line@ == silence(
        if len == 0 {
            1
        } else {
            len as nat
        },
    )
}

/// The reverb. `mix` runs from 0, all dry, to 1; the room is fixed.
pub struct Reverb<F> {
    /// How much of the wet signal is added, 0 to 1.
    pub mix: SharedParam,
    /// On above one half.
    pub enabled: SharedParam,
    /// The running state.
    pub run: ReverbRun<F>,
}

/// Whether these parameter values leave the signal dry.
pub open spec fn reverb_idle(enabled: u32, mix: u32) -> bool {
    is_off(enabled) || below(clamped(mix, ZERO, ONE), LEAST_MIX)
}

impl<F: Arith> Reverb<F> {
    /// As it is made: without filters.
    pub open spec fn untouched(&self) -> bool {
        self.run.combs@.len() == 0 && self.run.allpasses@.len() == 0 && self.run.wet == ZERO
    }

    /// A reverb without filters yet, that follows the two parameters.
    pub fn new(mix: SharedParam, enabled: SharedParam) -> (r: Self)
        ensures
            r.mix == mix,
            r.enabled == enabled,
            r.wf(),
            r.untouched(),
    {
        Reverb {
            mix,
            enabled,
            run: ReverbRun {
                wet: ZERO,
                combs: Vec::new(),
                allpasses: Vec::new(),
                arith: PhantomData,
            },
        }
    }

    /// A block at given parameter values: handed through if they leave the
    /// signal dry, and otherwise run with `0.6 * mix` of the wet signal.
    pub open spec fn processed_with(
        &self,
        enabled: u32,
        mix: u32,
        input: Seq<u32>,
        after: Self,
        output: Seq<u32>,
    ) -> bool {
        &&& after.mix == self.mix && after.enabled == self.enabled
        &&& if reverb_idle(enabled, mix) {
            after.run == self.run && output == input
        } else {
            &&& product_is::<F>(clamped(mix, ZERO, ONE), WET_SCALE, after.run.wet)
            &&& runs(
                stepping::<ReverbRun<F>>(),
                ReverbRun { wet: after.run.wet, ..self.run },
                input,
                after.run,
                output,
            )
        }
    }

    /// One block at given parameter values.
    pub fn process_with(&mut self, enabled: u32, mix: u32, buf: &mut [u32])
        requires
            old(self).wf(),
        ensures
            final(self).wf(),
            final(buf)@.len() == old(buf)@.len(),
            old(self).processed_with(enabled, mix, old(buf)@, *final(self), final(buf)@),
    {
        if off(enabled) {
            return;
        }
        let m: u32 = clamp(mix, ZERO, ONE);
        if lt(m, LEAST_MIX) {
            return;
        }
        let wet: u32 = F::times(m, WET_SCALE);
        self.run.wet = wet;
        let ghost begin = self.run;
        run_block(&mut self.run, buf);
        proof {
            run_keeps(
                stepping::<ReverbRun<F>>(),
                |r: ReverbRun<F>| r.wet == wet,
                begin,
                old(buf)@,
                self.run,
                buf@,
            );
        }
    }
}

impl<F: Arith> AudioProcessor for Reverb<F> {
    open spec fn wf(&self) -> bool {
        self.run.sound()
    }

    open spec fn accepts(&self, n: nat) -> bool {
        true
    }

    open spec fn resettable(&self) -> bool {
        true
    }

    /// The filters are built anew, silent, their lengths scaled from 44.1 kHz
    /// to the rate.
    open spec fn prepared(&self, sample_rate: u32, max_block: usize, after: Self) -> bool {
        let combs = after.run.combs@;
        let allpasses = after.run.allpasses@;
        &&& after.mix == self.mix && after.enabled == self.enabled
        &&& after.run.wet == self.run.wet && after.run.arith == self.run.arith
        &&& combs.len() == COMB_TUNING@.len() && allpasses.len() == ALLPASS_TUNING@.len()
        &&& exists|scale: u32, grown: u32, feedback: u32, damp: u32|
            #![trigger quotient_is::<F>(sample_rate, TUNING_RATE, scale), sum_is::<F>(grown, ROOM_OFFSET, feedback), product_is::<F>(HALF, DAMP_SCALE, damp)]
            {
                &&& quotient_is::<F>(sample_rate, TUNING_RATE, scale)
                &&& product_is::<F>(ROOM_SIZE, ROOM_SCALE, grown)
                &&& sum_is::<F>(grown, ROOM_OFFSET, feedback)
                &&& product_is::<F>(HALF, DAMP_SCALE, damp)
                &&& forall|i: int|
                    #![trigger combs[i]]
                    0 <= i < combs.len() ==> combs_built::<F>(combs[i], COMB_TUNING@[i], scale, feedback, damp)
                &&& forall|i: int|
                    #![trigger allpasses[i]]
                    0 <= i < allpasses.len() ==> allpass_built::<F>(
                        allpasses[i],
                        ALLPASS_TUNING@[i],
                        scale,
                    )
            }
    }

    /// As at some pair of values that the parameters had.
    open spec fn processed(&self, input: Seq<u32>, after: Self, output: Seq<u32>) -> bool {
        exists|enabled: u32, mix: u32| #[trigger]
            self.processed_with(enabled, mix, input, after, output) && read_is(
                self.enabled,
                enabled,
            ) && read_is(self.mix, mix)
    }

    open spec fn cleared(&self, after: Self) -> bool {
        let (combs, combs_after) = (self.run.combs@, after.run.combs@);
        let (allpasses, allpasses_after) = (self.run.allpasses@, after.run.allpasses@);
        &&& after.mix == self.mix && after.enabled == self.enabled
        &&& after.run.wet == self.run.wet && after.run.arith == self.run.arith
        &&& combs_after.len() == combs.len() && allpasses_after.len() == allpasses.len()
        &&& forall|i: int|
            #![trigger combs_after[i]]
            0 <= i < combs.len() ==> {
                &&& combs_after[i].line@ == silence(combs[i].line@.len())
                &&& combs_after[i] == Comb { line: combs_after[i].line, store: ZERO, ..combs[i] }
            }
        &&& forall|i: int|
            #![trigger allpasses_after[i]]
            0 <= i < allpasses.len() ==> {
                &&& allpasses_after[i].line@ == silence(allpasses[i].line@.len())
                &&& allpasses_after[i] == Allpass { line: allpasses_after[i].line, ..allpasses[i] }
            }
    }

    fn prepare(&mut self, sample_rate: u32, _max_block: usize) {
        let scale: u32 = F::over(sample_rate, TUNING_RATE);
        let grown: u32 = F::times(ROOM_SIZE, ROOM_SCALE);
        let feedback: u32 = F::plus(grown, ROOM_OFFSET);
        let damp: u32 = F::times(HALF, DAMP_SCALE);
        let comb_tuning = COMB_TUNING;
        let allpass_tuning = ALLPASS_TUNING;
        let mut combs: Vec<Comb> = Vec::new();
        let mut i: usize = 0;
        while i < 8
            invariant
                i <= 8,
                combs@.len() == i,
                comb_tuning@ == COMB_TUNING@,
                forall|k: int|
                    #![trigger combs@[k]]
                    0 <= k < i ==> combs_built::<F>(
                        combs@[k],
                        COMB_TUNING@[k],
                        scale,
                        feedback,
                        damp,
                    ),
            decreases 8 - i,
        {
            let len: usize = scaled::<F>(comb_tuning[i], scale);
            combs.push(Comb::new(len, feedback, damp));
            i = i + 1;
        }
        let mut allpasses: Vec<Allpass> = Vec::new();
        let mut j: usize = 0;
        while j < 4
            invariant
                j <= 4,
                allpasses@.len() == j,
                allpass_tuning@ == ALLPASS_TUNING@,
                forall|k: int|
                    #![trigger allpasses@[k]]
                    0 <= k < j ==> allpass_built::<F>(allpasses@[k], ALLPASS_TUNING@[k], scale),
            decreases 4 - j,
        {
            let len: usize = scaled::<F>(allpass_tuning[j], scale);
            allpasses.push(Allpass::new(len, HALF));
            j = j + 1;
        }
        assert(quotient_is::<F>(sample_rate, TUNING_RATE, scale) && sum_is::<F>(
            grown,
            ROOM_OFFSET,
            feedback,
        ) && product_is::<F>(HALF, DAMP_SCALE, damp));
        self.run.combs = combs;
        self.run.allpasses = allpasses;
    }

    fn process(&mut self, buf: &mut [u32]) {
        let enabled: u32 = read(&self.enabled);
        let mix: u32 = read(&self.mix);
        self.process_with(enabled, mix, buf);
    }

    fn reset(&mut self) {
        let nc: usize = self.run.combs.len();
        let na: usize = self.run.allpasses.len();
        let ghost combs = self.run.combs@;
        let ghost allpasses = self.run.allpasses@;
        let mut i: usize = 0;
        while i < nc
            invariant
                i <= nc,
                nc == combs.len(),
                nc == self.run.combs@.len(),
                self.run.allpasses@ == allpasses,
                self.run.wet == old(self).run.wet,
                self.run.arith == old(self).run.arith,
                self.mix == old(self).mix,
                self.enabled == old(self).enabled,
                forall|k: int| 0 <= k < nc ==> (#[trigger] self.run.combs@[k]).line.wf(),
                forall|k: int| i <= k < nc ==> self.run.combs@[k] == combs[k],
                forall|k: int|
                    #![trigger self.run.combs@[k]]
                    0 <= k < i ==> self.run.combs@[k].line@ == silence(combs[k].line@.len())
                        && self.run.combs@[k] == (Comb {
                        line: self.run.combs@[k].line,
                        store: ZERO,
                        ..combs[k]
                    }),
            decreases nc - i,
        {
            self.run.combs[i].clear();
            i = i + 1;
        }
        let ghost cleared = self.run.combs@;
        let mut j: usize = 0;
        while j < na
            invariant
                j <= na,
                na == allpasses.len(),
                na == self.run.allpasses@.len(),
                self.run.combs@ == cleared,
                self.run.wet == old(self).run.wet,
                self.run.arith == old(self).run.arith,
                self.mix == old(self).mix,
                self.enabled == old(self).enabled,
                forall|k: int| 0 <= k < na ==> (#[trigger] self.run.allpasses@[k]).line.wf(),
                forall|k: int| j <= k < na ==> self.run.allpasses@[k] == allpasses[k],
                forall|k: int|
                    #![trigger self.run.allpasses@[k]]
                    0 <= k < j ==> self.run.allpasses@[k].line@ == silence(allpasses[k].line@.len())
                        && self.run.allpasses@[k] == (Allpass {
                        line: self.run.allpasses@[k].line,
                        ..allpasses[k]
                    }),
            decreases na - j,
        {
            self.run.allpasses[j].clear();
            j = j + 1;
        }
    }
}

/// `comb` is a silent comb filter of the scaled length.
pub open spec fn combs_built<F: Arith>(
    comb: Comb,
    tuning: usize,
    scale: u32,
    feedback: u32,
    damp: u32,
) -> bool {
    &&& exists|len: usize| #[trigger]
        scaled_is::<F>(tuning, scale, len) && silent_line(comb.line, len)
    &&& comb.store == ZERO && comb.feedback == feedback && comb.damp == damp
}

/// `allpass` is a silent allpass filter of the scaled length.
pub open spec fn allpass_built<F: Arith>(allpass: Allpass, tuning: usize, scale: u32) -> bool {
    &&& exists|len: usize| #[trigger]
        scaled_is::<F>(tuning, scale, len) && silent_line(allpass.line, len)
    &&& allpass.feedback == HALF
}

/// A reverb that is switched off, or mixed to nothing, hands the signal through
/// and keeps its state.
pub proof fn dry_reverb_is_identity<F: Arith>(
    reverb: Reverb<F>,
    enabled: u32,
    mix: u32,
    input: Seq<u32>,
    after: Reverb<F>,
    output: Seq<u32>,
)
    requires
        reverb.processed_with(enabled, mix, input, after, output),
        reverb_idle(enabled, mix),
    ensures
        output == input,
        after.run == reverb.run,
{
}

/// Two states of one reverb: the filters have the same lengths and coefficients.
pub open spec fn same_room<F>(a: ReverbRun<F>, b: ReverbRun<F>) -> bool {
    &&& a.arith == b.arith
    &&& a.combs@.len() == b.combs@.len() && a.allpasses@.len() == b.allpasses@.len()
    &&& forall|i: int|
        #![trigger b.combs@[i]]
        0 <= i < a.combs@.len() ==> {
            &&& b.combs@[i].line@.len() == a.combs@[i].line@.len() > 0
            &&& b.combs@[i].feedback == a.combs@[i].feedback && b.combs@[i].damp == a.combs@[i].damp
        }
    &&& forall|i: int|
        #![trigger b.allpasses@[i]]
        0 <= i < a.allpasses@.len() ==> {
            &&& b.allpasses@[i].line@.len() == a.allpasses@[i].line@.len() > 0
            &&& b.allpasses@[i].feedback == a.allpasses@[i].feedback
        }
}

/// No step changes a length or a coefficient.
proof fn step_keeps_room<F: Arith>(
    room: ReverbRun<F>,
    before: ReverbRun<F>,
    x: u32,
    after: ReverbRun<F>,
    y: u32,
)
    requires
        same_room(room, before),
        before.steps(x, after, y),
    ensures
        same_room(room, after),
{
    let (feed, tail, add) = choose|feed: u32, tail: u32, add: u32|
        #![trigger product_is::<F>(x, FIXED_GAIN, feed), product_is::<F>(tail, before.wet, add)]
        product_is::<F>(x, FIXED_GAIN, feed) && network_steps::<F>(
            before.combs@,
            before.allpasses@,
            feed,
            after.combs@,
            after.allpasses@,
            tail,
        ) && product_is::<F>(tail, before.wet, add) && sum_is::<F>(x, add, y);
    let (sums, mids) = choose|sums: Seq<u32>, mids: Seq<u32>|
        #![trigger combs_sum::<F>(before.combs@, feed, after.combs@, sums), allpasses_chain::<F>(before.allpasses@, after.allpasses@, mids)]
        combs_sum::<F>(before.combs@, feed, after.combs@, sums) && allpasses_chain::<F>(
            before.allpasses@,
            after.allpasses@,
            mids,
        );
    assert forall|i: int|
        #![trigger after.combs@[i]]
        0 <= i < room.combs@.len() implies {
        &&& after.combs@[i].line@.len() == room.combs@[i].line@.len() > 0
        &&& after.combs@[i].feedback == room.combs@[i].feedback
        &&& after.combs@[i].damp == room.combs@[i].damp
    } by {
        assert(before.combs@[i].line@.len() > 0);
        assert(comb_adds::<F>(before.combs@[i], feed, after.combs@[i], sums[i], sums[i + 1]));
    }
    assert forall|i: int|
        #![trigger after.allpasses@[i]]
        0 <= i < room.allpasses@.len() implies {
        &&& after.allpasses@[i].line@.len() == room.allpasses@[i].line@.len() > 0
        &&& after.allpasses@[i].feedback == room.allpasses@[i].feedback
    } by {
        assert(before.allpasses@[i].line@.len() > 0);
        assert(allpass_steps::<F>(before.allpasses@[i], mids[i], after.allpasses@[i], mids[i + 1]));
    }
}

/// However much was played, a reset leaves the reverb as `prepare` did: the same
/// filters, all silent. Only the level of the wet signal, which every block sets
/// anew, may differ.
pub proof fn reset_reverb_is_as_prepared<F: Arith>(
    reverb: Reverb<F>,
    sample_rate: u32,
    max_block: usize,
    trace: Seq<Reverb<F>>,
    reset: Reverb<F>,
)
    requires
        plays(trace),
        reverb.prepared(sample_rate, max_block, trace[0]),
        trace.last().cleared(reset),
    ensures
        reset.mix == trace[0].mix && reset.enabled == trace[0].enabled,
        same_room(trace[0].run, reset.run),
        forall|i: int|
            #![trigger reset.run.combs@[i]]
            0 <= i < reset.run.combs@.len() ==> reset.run.combs@[i].line@
                == trace[0].run.combs@[i].line@ && reset.run.combs@[i].store == ZERO,
        forall|i: int|
            #![trigger reset.run.allpasses@[i]]
            0 <= i < reset.run.allpasses@.len() ==> reset.run.allpasses@[i].line@
                == trace[0].run.allpasses@[i].line@,
{
    let fresh = trace[0];
    let tuned = |r: ReverbRun<F>| same_room(fresh.run, r);
    let kept = |v: Reverb<F>|
        v.mix == fresh.mix && v.enabled == fresh.enabled && same_room(fresh.run, v.run);
    assert forall|a: ReverbRun<F>, x: u32, b: ReverbRun<F>, y: u32|
        tuned(a) && #[trigger] stepping::<ReverbRun<F>>()(a, x, b, y) implies tuned(b) by {
        step_keeps_room(fresh.run, a, x, b, y);
    }
    assert forall|a: Reverb<F>, input: Seq<u32>, b: Reverb<F>, output: Seq<u32>|
        kept(a) && #[trigger] a.processed(input, b, output) implies kept(b) by {
        let (enabled, mix) = choose|enabled: u32, mix: u32| #[trigger]
            a.processed_with(enabled, mix, input, b, output);
        if !reverb_idle(enabled, mix) {
            let begin = ReverbRun { wet: b.run.wet, ..a.run };
            assert(same_room(fresh.run, begin));
            run_keeps(stepping::<ReverbRun<F>>(), tuned, begin, input, b.run, output);
        }
    }
    playing_keeps(trace, kept);
}

/// Two states that sound the same: the filters hold the same samples and have the
/// same coefficients. The level of the wet signal, which every block sets anew, may
/// differ.
pub open spec fn sounds_same<F>(a: ReverbRun<F>, b: ReverbRun<F>) -> bool {
    &&& a.arith == b.arith
    &&& a.combs@.len() == b.combs@.len() && a.allpasses@.len() == b.allpasses@.len()
    &&& forall|i: int|
        #![trigger a.combs@[i]]
        #![trigger b.combs@[i]]
        0 <= i < a.combs@.len() ==> {
            &&& a.combs@[i].line@ == b.combs@[i].line@ && a.combs@[i].store == b.combs@[i].store
            &&& a.combs@[i].feedback == b.combs@[i].feedback && a.combs@[i].damp == b.combs@[i].damp
        }
    &&& forall|i: int|
        #![trigger a.allpasses@[i]]
        #![trigger b.allpasses@[i]]
        0 <= i < a.allpasses@.len() ==> {
            &&& a.allpasses@[i].line@ == b.allpasses@[i].line@
            &&& a.allpasses@[i].feedback == b.allpasses@[i].feedback
        }
}

/// States that sound the same, at the same level of the wet signal, can make the same
/// step.
proof fn same_sound_same_step<F: Arith>(
    a: ReverbRun<F>,
    b: ReverbRun<F>,
    x: u32,
    after: ReverbRun<F>,
    y: u32,
)
    requires
        sounds_same(a, b),
        a.wet == b.wet,
        b.steps(x, after, y),
    ensures
        a.steps(x, after, y),
{
    let (feed, tail, add) = choose|feed: u32, tail: u32, add: u32|
        #![trigger product_is::<F>(x, FIXED_GAIN, feed), product_is::<F>(tail, b.wet, add)]
        product_is::<F>(x, FIXED_GAIN, feed) && network_steps::<F>(
            b.combs@,
            b.allpasses@,
            feed,
            after.combs@,
            after.allpasses@,
            tail,
        ) && product_is::<F>(tail, b.wet, add) && sum_is::<F>(x, add, y);
    let (sums, mids) = choose|sums: Seq<u32>, mids: Seq<u32>|
        #![trigger combs_sum::<F>(b.combs@, feed, after.combs@, sums), allpasses_chain::<F>(b.allpasses@, after.allpasses@, mids)]
        combs_sum::<F>(b.combs@, feed, after.combs@, sums) && allpasses_chain::<F>(
            b.allpasses@,
            after.allpasses@,
            mids,
        ) && mids[0] == sums[b.combs@.len() as int] && tail == mids[b.allpasses@.len() as int];
    assert forall|i: int|
        #![trigger sums[i]]
        0 <= i < a.combs@.len() implies comb_adds::<F>(
        a.combs@[i],
        feed,
        after.combs@[i],
        sums[i],
        sums[i + 1],
    ) by {
        assert(comb_adds::<F>(b.combs@[i], feed, after.combs@[i], sums[i], sums[i + 1]));
        let v = choose|v: u32| #[trigger]
            comb_steps::<F>(b.combs@[i], feed, after.combs@[i], v) && sum_is::<F>(
                sums[i],
                v,
                sums[i + 1],
            );
        assert(comb_steps::<F>(a.combs@[i], feed, after.combs@[i], v));
    }
    assert forall|i: int|
        #![trigger mids[i]]
        0 <= i < a.allpasses@.len() implies allpass_steps::<F>(
        a.allpasses@[i],
        mids[i],
        after.allpasses@[i],
        mids[i + 1],
    ) by {
        assert(allpass_steps::<F>(b.allpasses@[i], mids[i], after.allpasses@[i], mids[i + 1]));
    }
    assert(combs_sum::<F>(a.combs@, feed, after.combs@, sums));
    assert(allpasses_chain::<F>(a.allpasses@, after.allpasses@, mids));
    assert(network_steps::<F>(
        a.combs@,
        a.allpasses@,
        feed,
        after.combs@,
        after.allpasses@,
        tail,
    ));
    assert(product_is::<F>(x, FIXED_GAIN, feed) && product_is::<F>(tail, a.wet, add));
}

/// What one reverb makes of a block, another that sounds the same can make of it too,
/// and they sound the same again.
proof fn same_sound_same_block<F: Arith>(
    a: Reverb<F>,
    b: Reverb<F>,
    input: Seq<u32>,
    after: Reverb<F>,
    output: Seq<u32>,
)
    requires
        a.mix == b.mix && a.enabled == b.enabled,
        sounds_same(a.run, b.run),
        b.processed(input, after, output),
    ensures
        exists|next: Reverb<F>| #[trigger]
            a.processed(input, next, output) && next.mix == after.mix && next.enabled
                == after.enabled && sounds_same(next.run, after.run),
{
    let (enabled, mix) = choose|enabled: u32, mix: u32| #[trigger]
        b.processed_with(enabled, mix, input, after, output) && read_is(b.enabled, enabled)
            && read_is(b.mix, mix);
    if reverb_idle(enabled, mix) {
        assert(a.processed_with(enabled, mix, input, a, output));
        assert(a.processed(input, a, output));
    } else {
        let wet = after.run.wet;
        let ours = ReverbRun { wet, ..a.run };
        let theirs = ReverbRun { wet, ..b.run };
        let step = stepping::<ReverbRun<F>>();
        let trace = choose|trace: Seq<ReverbRun<F>>| #[trigger]
            traces(step, theirs, input, after.run, output, trace);
        assert(sounds_same(ours, theirs));
        if input.len() == 0 {
            let next = Reverb { run: ours, ..a };
            assert(traces(step, ours, input, ours, output, seq![ours]));
            assert(a.processed_with(enabled, mix, input, next, output));
            assert(a.processed(input, next, output));
        } else {
            let other = trace.update(0, ours);
            assert(step(trace[0], input[0], trace[0int + 1], output[0]));
            same_sound_same_step(ours, theirs, input[0], trace[1], output[0]);
            assert forall|i: int|
                #![trigger other[i], input[i]]
                0 <= i < input.len() implies step(other[i], input[i], other[i + 1], output[i]) by {
                assert(step(trace[i], input[i], trace[i + 1], output[i]));
            }
            assert(traces(step, ours, input, after.run, output, other));
            assert(a.processed_with(enabled, mix, input, after, output));
            assert(a.processed(input, after, output));
        }
    }
}

/// After a reset no tail is left: whatever a reverb that was reset makes of the blocks
/// that follow, it could have made right after `prepare`.
pub proof fn reset_reverb_plays_as_prepared<F: Arith>(
    reverb: Reverb<F>,
    sample_rate: u32,
    max_block: usize,
    trace: Seq<Reverb<F>>,
    reset: Reverb<F>,
    units: Seq<Reverb<F>>,
    inputs: Seq<Seq<u32>>,
    outputs: Seq<Seq<u32>>,
)
    requires
        plays(trace),
        reverb.prepared(sample_rate, max_block, trace[0]),
        trace.last().cleared(reset),
        performs(units, inputs, outputs),
        units[0] == reset,
    ensures
        exists|fresh: Seq<Reverb<F>>| #[trigger]
            performs(fresh, inputs, outputs) && fresh[0] == trace[0],
{
    reset_reverb_is_as_prepared(reverb, sample_rate, max_block, trace, reset);
    let alike = |a: Reverb<F>, b: Reverb<F>|
        a.mix == b.mix && a.enabled == b.enabled && sounds_same(a.run, b.run);
    assert(sounds_same(trace[0].run, reset.run));
    assert forall|
        x: Reverb<F>,
        y: Reverb<F>,
        input: Seq<u32>,
        after: Reverb<F>,
        output: Seq<u32>,
    |
        #![trigger matches_step(alike, x, input, after, output), y.processed(input, after, output)]
        alike(x, y) && y.processed(input, after, output) implies matches_step(
        alike,
        x,
        input,
        after,
        output,
    ) by {
        same_sound_same_block(x, y, input, after, output);
        let next = choose|next: Reverb<F>| #[trigger]
            x.processed(input, next, output) && next.mix == after.mix && next.enabled
                == after.enabled && sounds_same(next.run, after.run);
        assert(x.processed(input, next, output) && alike(next, after));
    }
    alike_units_perform_alike(alike, trace[0], units, inputs, outputs);
}

/// Whether a number is between zero and one.
pub open spec fn proper(c: u32) -> bool {
    finite(c) && 0 <= units(c) <= one()
}

/// Whether all filters hold silence, and neither keep nor feed back more than there is.
pub open spec fn silent_room<F: Arith>(run: ReverbRun<F>) -> bool {
    &&& forall|i: int|
        0 <= i < run.combs@.len() ==> {
            let c = #[trigger] run.combs@[i];
            &&& c.line@.len() > 0 && c.line@ == silence(c.line@.len())
            &&& c.store == ZERO && proper(c.damp) && proper(c.feedback)
        }
    &&& forall|i: int|
        0 <= i < run.allpasses@.len() ==> {
            let a = #[trigger] run.allpasses@[i];
            a.line@.len() > 0 && a.line@ == silence(a.line@.len()) && proper(a.feedback)
        }
}

/// A reverb that was just prepared is silent: eight comb filters and four allpass filters
/// without a sound in them, that feed back less than what comes in.
pub proof fn prepared_room_is_silent<F: Arith>(
    reverb: Reverb<F>,
    sample_rate: u32,
    max_block: usize,
    fresh: Reverb<F>,
)
    requires
        faithful::<F>(),
        reverb.prepared(sample_rate, max_block, fresh),
    ensures
        silent_room(fresh.run),
        fresh.run.combs@.len() == 8,
        fresh.run.allpasses@.len() == 4,
{
    let (scale, grown, feedback, damp) = choose|scale: u32, grown: u32, feedback: u32, damp: u32|
        #![trigger quotient_is::<F>(sample_rate, TUNING_RATE, scale), sum_is::<F>(grown, ROOM_OFFSET, feedback), product_is::<F>(HALF, DAMP_SCALE, damp)]
        {
            &&& quotient_is::<F>(sample_rate, TUNING_RATE, scale)
            &&& product_is::<F>(ROOM_SIZE, ROOM_SCALE, grown)
            &&& sum_is::<F>(grown, ROOM_OFFSET, feedback)
            &&& product_is::<F>(HALF, DAMP_SCALE, damp)
            &&& forall|i: int|
                #![trigger fresh.run.combs@[i]]
                0 <= i < fresh.run.combs@.len() ==> combs_built::<F>(
                    fresh.run.combs@[i],
                    COMB_TUNING@[i],
                    scale,
                    feedback,
                    damp,
                )
            &&& forall|i: int|
                #![trigger fresh.run.allpasses@[i]]
                0 <= i < fresh.run.allpasses@.len() ==> allpass_built::<F>(
                    fresh.run.allpasses@[i],
                    ALLPASS_TUNING@[i],
                    scale,
                )
        };
    units_of_one();
    units_follow_the_order(ROOM_SIZE, ONE);
    units_follow_the_order(ROOM_SIZE, ZERO);
    units_follow_the_order(ROOM_SCALE, ZERO);
    units_follow_the_order(DAMP_SCALE, ZERO);
    factor_up_to_one_shrinks::<F>(ROOM_SCALE, ROOM_SIZE, grown);
    factor_up_to_one_shrinks::<F>(DAMP_SCALE, HALF, damp);
    units_follow_the_order(DAMP_SCALE, ONE);
    lemma_pow2_unfold(126);
    lemma_pow2_unfold(125);
    lemma_pow2_pos(124);
    assert(ROOM_SCALE / OCTAVE == 125 && ROOM_SCALE % OCTAVE == 0x0f_5c29);
    assert(ROOM_OFFSET / OCTAVE == 126 && ROOM_OFFSET % OCTAVE == 0x33_3333);
    assert(units(ROOM_SCALE) == (OCTAVE + 0x0f_5c29) * pow2(124));
    assert(units(ROOM_OFFSET) == (OCTAVE + 0x33_3333) * pow2(125));
    assert(one() == OCTAVE * pow2(126));
    let p = pow2(124) as int;
    assert((0x80_0000 + 0x0f_5c29) * p + (0x80_0000 + 0x33_3333) * (2 * p) <= 0x80_0000 * (4 * p))
        by (nonlinear_arith)
        requires
            p > 0,
    ;
    assert(units(ROOM_SCALE) + units(ROOM_OFFSET) <= one());
    units_follow_the_order(ROOM_OFFSET, ZERO);
    rounds_above(units(grown) + units(ROOM_OFFSET), 1, feedback, ZERO);
    rounds_below(units(grown) + units(ROOM_OFFSET), 1, feedback, ONE);
    between_is_finite(ZERO, feedback, ONE);
    assert forall|i: int| 0 <= i < fresh.run.combs@.len() implies {
        let c = #[trigger] fresh.run.combs@[i];
        &&& c.line@.len() > 0 && c.line@ == silence(c.line@.len())
        &&& c.store == ZERO && proper(c.damp) && proper(c.feedback)
    } by {
        assert(combs_built::<F>(fresh.run.combs@[i], COMB_TUNING@[i], scale, feedback, damp));
    }
    assert forall|i: int| 0 <= i < fresh.run.allpasses@.len() implies {
        let a = #[trigger] fresh.run.allpasses@[i];
        a.line@.len() > 0 && a.line@ == silence(a.line@.len()) && proper(a.feedback)
    } by {
        assert(allpass_built::<F>(fresh.run.allpasses@[i], ALLPASS_TUNING@[i], scale));
    }
}

/// Whether nothing has come out of a comb filter after `n` samples, the first of which was
/// worth `first` to it.
#[verifier::opaque]
spec fn comb_waits(c: Comb, n: int, first: int) -> bool {
    let len = c.line@.len();
    &&& n <= len && len > 0
    &&& forall|j: int| 0 <= j < len ==> finite(#[trigger] c.line@[j])
    &&& forall|j: int| 0 <= j < len - n ==> units(#[trigger] c.line@[j]) == 0
    &&& n > 0 ==> units(c.line@[len - n]) == first
    &&& finite(c.store) && units(c.store) == 0
    &&& proper(c.damp) && proper(c.feedback)
}

/// Whether an allpass filter holds nothing.
spec fn allpass_waits(a: Allpass) -> bool {
    &&& a.line@.len() > 0
    &&& forall|j: int|
        0 <= j < a.line@.len() ==> finite(#[trigger] a.line@[j]) && units(a.line@[j]) == 0
    &&& proper(a.feedback)
}

/// One sample of a comb filter from which nothing has come out yet.
proof fn waiting_comb_steps<F: Arith>(before: Comb, x: u32, after: Comb, y: u32, n: int, first: int)
    requires
        faithful::<F>(),
        comb_waits(before, n, first),
        0 <= n < before.line@.len(),
        comb_steps::<F>(before, x, after, y),
        finite(x),
        n == 0 ==> units(x) == first,
    ensures
        finite(y) && units(y) == 0,
        comb_waits(after, n + 1, first),
        after.line@.len() == before.line@.len(),
{
    reveal(comb_waits);
    units_of_one();
    let (pass, fresh, kept) = choose|pass: u32, fresh: u32, kept: u32|
        #![trigger product_is::<F>(y, pass, fresh), product_is::<F>(before.store, before.damp, kept)]
        difference_is::<F>(ONE, before.damp, pass) && product_is::<F>(y, pass, fresh)
            && product_is::<F>(before.store, before.damp, kept) && sum_is::<F>(
            fresh,
            kept,
            after.store,
        );
    let (back, w) = choose|back: u32, w: u32| #[trigger]
        product_is::<F>(after.store, before.feedback, back) && #[trigger] sum_is::<F>(x, back, w)
            && after.line@ == before.line@.drop_first().push(w);
    rounds_above(one() - units(before.damp), 1, pass, ZERO);
    rounds_below(one() - units(before.damp), 1, pass, ONE);
    between_is_finite(ZERO, pass, ONE);
    product_with_zero::<F>(y, pass, fresh);
    product_with_zero::<F>(before.store, before.damp, kept);
    zero_adds_nothing::<F>(fresh, kept, after.store);
    product_with_zero::<F>(after.store, before.feedback, back);
    zero_adds_nothing::<F>(x, back, w);
    let len = before.line@.len();
    assert forall|j: int| 0 <= j < len implies finite(#[trigger] after.line@[j]) by {
        if j + 1 < len {
            assert(after.line@[j] == before.line@[j + 1]);
        }
    }
    assert forall|j: int| 0 <= j < len - (n + 1) implies units(#[trigger] after.line@[j]) == 0 by {
        assert(after.line@[j] == before.line@[j + 1]);
    }
    if n > 0 {
        assert(after.line@[len - (n + 1)] == before.line@[len - n]);
    } else {
        assert(after.line@[len - 1] == w);
    }
}

/// An allpass filter that holds nothing hands a sample through with the opposite sign.
proof fn waiting_allpass_steps<F: Arith>(before: Allpass, x: u32, after: Allpass, y: u32)
    requires
        faithful::<F>(),
        allpass_waits(before),
        allpass_steps::<F>(before, x, after, y),
        finite(x),
    ensures
        finite(y) && units(y) == -units(x),
        units(x) == 0 ==> allpass_waits(after),
        after.line@.len() == before.line@.len(),
{
    units_of_negated(x);
    let held = before.line@[0];
    zero_adds_nothing::<F>(negated(x), held, y);
    let (back, w) = choose|back: u32, w: u32| #[trigger]
        product_is::<F>(held, before.feedback, back) && #[trigger] sum_is::<F>(x, back, w)
            && after.line@ == before.line@.drop_first().push(w);
    product_with_zero::<F>(held, before.feedback, back);
    zero_adds_nothing::<F>(x, back, w);
    let len = before.line@.len();
    if units(x) == 0 {
        assert forall|j: int| 0 <= j < len implies finite(#[trigger] after.line@[j]) && units(
            after.line@[j],
        ) == 0 by {
            if j + 1 < len {
                assert(after.line@[j] == before.line@[j + 1]);
            }
        }
    }
}

/// The sign of what has passed `k` allpass filters that hold nothing.
spec fn turned_round(v: int, k: nat) -> int
    decreases k,
{
    if k == 0 {
        v
    } else {
        -turned_round(v, (k - 1) as nat)
    }
}

/// Through `k` allpass filters that hold nothing.
proof fn waiting_allpasses_chain<F: Arith>(
    before: Seq<Allpass>,
    after: Seq<Allpass>,
    mids: Seq<u32>,
    k: nat,
)
    requires
        faithful::<F>(),
        allpasses_chain::<F>(before, after, mids),
        forall|i: int| 0 <= i < before.len() ==> allpass_waits(#[trigger] before[i]),
        finite(mids[0]),
        k <= before.len(),
    ensures
        finite(mids[k as int]),
        units(mids[k as int]) == turned_round(units(mids[0]), k),
        units(mids[0]) == 0 ==> units(mids[k as int]) == 0,
        units(mids[0]) == 0 ==> forall|i: int| 0 <= i < k ==> allpass_waits(#[trigger] after[i]),
    decreases k,
{
    if k > 0 {
        let i = k - 1;
        waiting_allpasses_chain::<F>(before, after, mids, i as nat);
        assert(allpass_steps::<F>(before[i], mids[i], after[i], mids[i + 1]));
        waiting_allpass_steps::<F>(before[i], mids[i], after[i], mids[i + 1]);
        assert(turned_round(units(mids[0]), k) == -turned_round(units(mids[0]), i as nat));
    }
}

/// Nothing comes out of the first `k` comb filters.
proof fn waiting_combs_sum<F: Arith>(
    before: Seq<Comb>,
    x: u32,
    after: Seq<Comb>,
    sums: Seq<u32>,
    n: int,
    first: int,
    k: nat,
)
    requires
        faithful::<F>(),
        combs_sum::<F>(before, x, after, sums),
        forall|i: int|
            0 <= i < before.len() ==> comb_waits(#[trigger] before[i], n, first) && n
                < before[i].line@.len(),
        0 <= n,
        finite(x),
        n == 0 ==> units(x) == first,
        k <= before.len(),
    ensures
        finite(sums[k as int]) && units(sums[k as int]) == 0,
        forall|i: int|
            0 <= i < k ==> comb_waits(#[trigger] after[i], n + 1, first) && after[i].line@.len()
                == before[i].line@.len(),
    decreases k,
{
    units_of_one();
    if k > 0 {
        let i = k - 1;
        waiting_combs_sum::<F>(before, x, after, sums, n, first, i as nat);
        assert(comb_adds::<F>(before[i], x, after[i], sums[i], sums[i + 1]));
        let y = choose|y: u32| #[trigger]
            comb_steps::<F>(before[i], x, after[i], y) && sum_is::<F>(sums[i], y, sums[i + 1]);
        assert(comb_waits(before[i], n, first));
        waiting_comb_steps::<F>(before[i], x, after[i], y, n, first);
        zero_adds_nothing::<F>(sums[i], y, sums[i + 1]);
    }
}

/// Whether nothing has come out of any filter after `n` samples.
spec fn room_waits<F: Arith>(run: ReverbRun<F>, lens: Seq<nat>, n: int, first: int) -> bool {
    &&& run.combs@.len() == lens.len()
    &&& forall|i: int|
        0 <= i < lens.len() ==> comb_waits(#[trigger] run.combs@[i], n, first)
            && run.combs@[i].line@.len() == lens[i]
    &&& forall|i: int| 0 <= i < run.allpasses@.len() ==> allpass_waits(#[trigger] run.allpasses@[i])
}

/// One sample while nothing comes out of any filter.
proof fn waiting_room_steps<F: Arith>(
    run: ReverbRun<F>,
    x: u32,
    after: ReverbRun<F>,
    y: u32,
    lens: Seq<nat>,
    n: int,
    first: int,
) -> (v: int)
    requires
        faithful::<F>(),
        room_waits(run, lens, n, first),
        0 <= n,
        forall|i: int| 0 <= i < lens.len() ==> n < #[trigger] lens[i],
        run.steps(x, after, y),
        finite(x),
        finite(run.wet),
    ensures
        room_waits(after, lens, n + 1, v),
        n > 0 ==> v == first,
        n == 0 ==> fed_as::<F>(x, v),
        after.allpasses@.len() == run.allpasses@.len(),
        after.wet == run.wet,
        same(y, x),
{
    units_of_one();
    let (feed, tail, add) = choose|feed: u32, tail: u32, add: u32|
        #![trigger product_is::<F>(x, FIXED_GAIN, feed), product_is::<F>(tail, run.wet, add)]
        product_is::<F>(x, FIXED_GAIN, feed) && network_steps::<F>(
            run.combs@,
            run.allpasses@,
            feed,
            after.combs@,
            after.allpasses@,
            tail,
        ) && product_is::<F>(tail, run.wet, add) && sum_is::<F>(x, add, y);
    let (sums, mids) = choose|sums: Seq<u32>, mids: Seq<u32>|
        #![trigger combs_sum::<F>(run.combs@, feed, after.combs@, sums), allpasses_chain::<F>(run.allpasses@, after.allpasses@, mids)]
        combs_sum::<F>(run.combs@, feed, after.combs@, sums) && allpasses_chain::<F>(
            run.allpasses@,
            after.allpasses@,
            mids,
        ) && mids[0] == sums[run.combs@.len() as int] && tail == mids[run.allpasses@.len() as int];
    units_follow_the_order(FIXED_GAIN, ONE);
    units_follow_the_order(FIXED_GAIN, ZERO);
    small_products_are_finite::<F>(x, FIXED_GAIN, feed);
    let v = if n == 0 {
        units(feed)
    } else {
        first
    };
    assert forall|i: int| 0 <= i < run.combs@.len() implies comb_waits(
        #[trigger] run.combs@[i],
        n,
        v,
    ) && n < run.combs@[i].line@.len() by {
        assert(n < lens[i]);
        assert(comb_waits(run.combs@[i], n, first));
        reveal(comb_waits);
    }
    waiting_combs_sum::<F>(
        run.combs@,
        feed,
        after.combs@,
        sums,
        n,
        v,
        run.combs@.len(),
    );
    waiting_allpasses_chain::<F>(
        run.allpasses@,
        after.allpasses@,
        mids,
        run.allpasses@.len(),
    );
    product_with_zero::<F>(tail, run.wet, add);
    zero_adds_nothing::<F>(x, add, y);
    assert forall|i: int| 0 <= i < lens.len() implies comb_waits(
        #[trigger] after.combs@[i],
        n + 1,
        v,
    ) && after.combs@[i].line@.len() == lens[i] by {
        assert(run.combs@[i].line@.len() == lens[i]);
    }
    v
}

/// The lengths of the comb filters.
pub open spec fn comb_lengths<F: Arith>(run: ReverbRun<F>) -> Seq<nat> {
    Seq::new(run.combs@.len(), |i: int| run.combs@[i].line@.len())
}

/// The first `n` samples of a silent room.
proof fn room_waits_so_far<F: Arith>(
    before: ReverbRun<F>,
    input: Seq<u32>,
    after: ReverbRun<F>,
    output: Seq<u32>,
    trace: Seq<ReverbRun<F>>,
    n: nat,
) -> (first: int)
    requires
        faithful::<F>(),
        traces(stepping::<ReverbRun<F>>(), before, input, after, output, trace),
        silent_room(before),
        finite(before.wet),
        forall|i: int| 0 <= i < input.len() ==> #[trigger] finite(input[i]),
        n <= input.len(),
        forall|i: int|
            0 <= i < before.combs@.len() ==> n <= #[trigger] comb_lengths(before)[i],
    ensures
        room_waits(trace[n as int], comb_lengths(before), n as int, first),
        trace[n as int].wet == before.wet,
        trace[n as int].allpasses@.len() == before.allpasses@.len(),
        n > 0 ==> same(output[n - 1], input[n - 1]) && fed_as::<F>(input[0], first),
    decreases n,
{
    let lens = comb_lengths(before);
    units_of_one();
    if n == 0 {
        reveal(comb_waits);
        assert forall|i: int| 0 <= i < lens.len() implies comb_waits(
            #[trigger] before.combs@[i],
            0,
            0,
        ) by {
            let c = before.combs@[i];
            assert(c.line@ == silence(c.line@.len()));
        }
        assert forall|i: int| 0 <= i < before.allpasses@.len() implies allpass_waits(
            #[trigger] before.allpasses@[i],
        ) by {
            let a = before.allpasses@[i];
            assert(a.line@ == silence(a.line@.len()));
        }
        0
    } else {
        let k = n - 1;
        let first = room_waits_so_far(before, input, after, output, trace, k as nat);
        assert(stepping::<ReverbRun<F>>()(trace[k], input[k], trace[k + 1], output[k]));
        assert(finite(input[k]));
        waiting_room_steps::<F>(trace[k], input[k], trace[k + 1], output[k], lens, k, first)
    }
}

/// The dry signal stays: while no comb filter has given anything back, a reverb that was
/// silent hands the signal through at full level.
pub proof fn reverb_keeps_the_dry_signal<F: Arith>(
    reverb: Reverb<F>,
    enabled: u32,
    mix: u32,
    input: Seq<u32>,
    after: Reverb<F>,
    output: Seq<u32>,
    i: int,
)
    requires
        faithful::<F>(),
        reverb.processed_with(enabled, mix, input, after, output),
        silent_room(reverb.run),
        !not_a_number(mix),
        forall|k: int| 0 <= k < input.len() ==> #[trigger] finite(input[k]),
        0 <= i < input.len(),
        forall|k: int|
            0 <= k < reverb.run.combs@.len() ==> i < #[trigger] comb_lengths(reverb.run)[k],
    ensures
        same(output[i], input[i]),
{
    assert(finite(input[i]));
    if !reverb_idle(enabled, mix) {
        wet_is_bounded::<F>(mix, after.run.wet);
        let begin = ReverbRun { wet: after.run.wet, ..reverb.run };
        let trace = choose|trace: Seq<ReverbRun<F>>| #[trigger]
            traces(stepping::<ReverbRun<F>>(), begin, input, after.run, output, trace);
        assert(comb_lengths(begin) =~= comb_lengths(reverb.run));
        let _ = room_waits_so_far(begin, input, after.run, output, trace, (i + 1) as nat);
    }
}

/// Whether `v` is worth what the filters are fed of the sample `x`, 0.015 of it.
spec fn fed_as<F: Arith>(x: u32, v: int) -> bool {
    exists|feed: u32| #[trigger] product_is::<F>(x, FIXED_GAIN, feed) && units(feed) == v
}

/// What is added of the wet signal: nothing more than the mix asks for, and 0.6 of it at
/// full mix.
proof fn wet_is_bounded<F: Arith>(mix: u32, wet: u32)
    requires
        faithful::<F>(),
        !not_a_number(mix),
        product_is::<F>(clamped(mix, ZERO, ONE), WET_SCALE, wet),
    ensures
        finite(wet),
        0 <= units(wet) <= units(clamped(mix, ZERO, ONE)),
        rank(mix) >= rank(ONE) ==> same(wet, WET_SCALE),
{
    units_of_one();
    let m = clamped(mix, ZERO, ONE);
    units_follow_the_order(m, ZERO);
    units_follow_the_order(m, ONE);
    units_follow_the_order(WET_SCALE, ZERO);
    units_follow_the_order(WET_SCALE, ONE);
    factor_up_to_one_shrinks::<F>(m, WET_SCALE, wet);
    product_with_one::<F>(m, WET_SCALE, wet);
}

/// `y` is a result of the dry sample `x` and the reflection of `past`: 0.015 of it, at the
/// level `wet`.
pub open spec fn reflected<F: Arith>(x: u32, past: u32, wet: u32, y: u32) -> bool {
    exists|feed: u32, tail: u32, add: u32|
        #![trigger product_is::<F>(past, FIXED_GAIN, feed), product_is::<F>(tail, wet, add)]
        product_is::<F>(past, FIXED_GAIN, feed) && same(tail, feed) && product_is::<F>(
            tail,
            wet,
            add,
        ) && sum_is::<F>(x, add, y)
}

/// The first reflection: when the shortest comb filter gives back what it heard first,
/// that sample is added to the dry one, at 0.015 of its level and the wet level on top,
/// and with its sign.
pub proof fn first_reflection_comes_back<F: Arith>(
    reverb: Reverb<F>,
    enabled: u32,
    mix: u32,
    input: Seq<u32>,
    after: Reverb<F>,
    output: Seq<u32>,
    m: int,
)
    requires
        faithful::<F>(),
        reverb.processed_with(enabled, mix, input, after, output),
        !reverb_idle(enabled, mix),
        silent_room(reverb.run),
        reverb.run.allpasses@.len() == 4,
        !not_a_number(mix),
        forall|k: int| 0 <= k < input.len() ==> #[trigger] finite(input[k]),
        0 <= m < reverb.run.combs@.len(),
        comb_lengths(reverb.run)[m] < input.len(),
        forall|k: int|
            0 <= k < reverb.run.combs@.len() && k != m ==> comb_lengths(reverb.run)[m]
                < #[trigger] comb_lengths(reverb.run)[k],
    ensures
        reflected::<F>(
            input[comb_lengths(reverb.run)[m] as int],
            input[0],
            after.run.wet,
            output[comb_lengths(reverb.run)[m] as int],
        ),
        0 <= units(after.run.wet) <= units(clamped(mix, ZERO, ONE)),
        rank(mix) >= rank(ONE) ==> same(after.run.wet, WET_SCALE),
{
    wet_is_bounded::<F>(mix, after.run.wet);
    units_of_one();
    let begin = ReverbRun { wet: after.run.wet, ..reverb.run };
    let step = stepping::<ReverbRun<F>>();
    let trace = choose|trace: Seq<ReverbRun<F>>| #[trigger]
        traces(step, begin, input, after.run, output, trace);
    let lens = comb_lengths(begin);
    assert(lens =~= comb_lengths(reverb.run));
    let n = lens[m];
    assert forall|i: int| 0 <= i < begin.combs@.len() implies n <= #[trigger] lens[i] by {
        assert(i != m ==> n < comb_lengths(reverb.run)[i]);
    }
    let first = room_waits_so_far(begin, input, after.run, output, trace, n);
    let t = n as int;
    assert(step(trace[t], input[t], trace[t + 1], output[t]));
    let (run, next, x, y) = (trace[t], trace[t + 1], input[t], output[t]);
    assert(run.steps(x, next, y));
    assert(finite(x));
    let (feed, tail, add) = choose|feed: u32, tail: u32, add: u32|
        #![trigger product_is::<F>(x, FIXED_GAIN, feed), product_is::<F>(tail, run.wet, add)]
        product_is::<F>(x, FIXED_GAIN, feed) && network_steps::<F>(
            run.combs@,
            run.allpasses@,
            feed,
            next.combs@,
            next.allpasses@,
            tail,
        ) && product_is::<F>(tail, run.wet, add) && sum_is::<F>(x, add, y);
    let (sums, mids) = choose|sums: Seq<u32>, mids: Seq<u32>|
        #![trigger combs_sum::<F>(run.combs@, feed, next.combs@, sums), allpasses_chain::<F>(run.allpasses@, next.allpasses@, mids)]
        combs_sum::<F>(run.combs@, feed, next.combs@, sums) && allpasses_chain::<F>(
            run.allpasses@,
            next.allpasses@,
            mids,
        ) && mids[0] == sums[run.combs@.len() as int] && tail == mids[run.allpasses@.len() as int];
    one_comb_speaks::<F>(run.combs@, feed, next.combs@, sums, t, first, m, run.combs@.len());
    waiting_allpasses_chain::<F>(run.allpasses@, next.allpasses@, mids, 4);
    reveal_with_fuel(turned_round, 5);
    assert(comb_waits(run.combs@[m], t, first) && run.combs@[m].line@.len() == t);
    let origin = choose|feed: u32| #[trigger]
        product_is::<F>(input[0], FIXED_GAIN, feed) && units(feed) == first;
    assert(finite(input[0]));
    units_follow_the_order(FIXED_GAIN, ONE);
    units_follow_the_order(FIXED_GAIN, ZERO);
    small_products_are_finite::<F>(input[0], FIXED_GAIN, origin);
    units_follow_the_order(tail, origin);
    assert(product_is::<F>(input[0], FIXED_GAIN, origin) && product_is::<F>(tail, run.wet, add));
}

/// The oldest sample of a comb filter after `n` samples.
proof fn oldest_of_a_comb(c: Comb, n: int, first: int)
    requires
        comb_waits(c, n, first),
        0 < n,
    ensures
        n <= c.line@.len(),
        finite(c.line@[0]),
        units(c.line@[0]) == if n < c.line@.len() {
            0
        } else {
            first
        },
{
    reveal(comb_waits);
}

/// Of the first `k` comb filters only the one at `m` gives something back.
proof fn one_comb_speaks<F: Arith>(
    before: Seq<Comb>,
    x: u32,
    after: Seq<Comb>,
    sums: Seq<u32>,
    n: int,
    first: int,
    m: int,
    k: nat,
)
    requires
        faithful::<F>(),
        combs_sum::<F>(before, x, after, sums),
        0 <= m < before.len(),
        0 < n,
        forall|i: int|
            0 <= i < before.len() ==> comb_waits(#[trigger] before[i], n, first) && (n
                < before[i].line@.len() <==> i != m),
        k <= before.len(),
    ensures
        finite(sums[k as int]),
        units(sums[k as int]) == if k > m {
            first
        } else {
            0
        },
    decreases k,
{
    units_of_one();
    if k > 0 {
        let i = k - 1;
        one_comb_speaks::<F>(before, x, after, sums, n, first, m, i as nat);
        assert(comb_adds::<F>(before[i], x, after[i], sums[i], sums[i + 1]));
        let y = choose|y: u32| #[trigger]
            comb_steps::<F>(before[i], x, after[i], y) && sum_is::<F>(sums[i], y, sums[i + 1]);
        assert(comb_waits(before[i], n, first));
        oldest_of_a_comb(before[i], n, first);
        assert(y == before[i].line@[0]);
        if i == m {
            zero_adds_nothing::<F>(y, sums[i], sums[i + 1]);
        } else {
            zero_adds_nothing::<F>(sums[i], y, sums[i + 1]);
        }
    }
}

/// With nothing of the wet signal added, a block comes out as it went in, whatever sounds
/// in the room; only a tail that is no finite number spoils a sample.
pub proof fn reverb_without_wet_is_dry<F: Arith>(
    before: ReverbRun<F>,
    input: Seq<u32>,
    after: ReverbRun<F>,
    output: Seq<u32>,
    i: int,
)
    requires
        faithful::<F>(),
        zero_wipes::<F>(),
        runs(stepping::<ReverbRun<F>>(), before, input, after, output),
        rank(before.wet) == 0,
        0 <= i < input.len(),
        finite(input[i]),
    ensures
        same(output[i], input[i]) || not_a_number(output[i]),
{
    let step = stepping::<ReverbRun<F>>();
    let trace = choose|trace: Seq<ReverbRun<F>>| #[trigger]
        traces(step, before, input, after, output, trace);
    wet_stays(before, input, after, output, trace, i);
    assert(step(trace[i], input[i], trace[i + 1], output[i]));
    let (x, y, wet) = (input[i], output[i], before.wet);
    let (tail, add) = choose|tail: u32, add: u32| #[trigger]
        product_is::<F>(tail, wet, add) && sum_is::<F>(x, add, y);
    if !not_a_number(add) {
        units_of_one();
        units_follow_the_order(add, ZERO);
        zero_adds_nothing::<F>(x, add, y);
    }
}

/// A block has one wet level.
proof fn wet_stays<F: Arith>(
    before: ReverbRun<F>,
    input: Seq<u32>,
    after: ReverbRun<F>,
    output: Seq<u32>,
    trace: Seq<ReverbRun<F>>,
    n: int,
)
    requires
        traces(stepping::<ReverbRun<F>>(), before, input, after, output, trace),
        0 <= n <= input.len(),
    ensures
        trace[n].wet == before.wet,
    decreases n,
{
    if n > 0 {
        wet_stays(before, input, after, output, trace, n - 1);
        assert(stepping::<ReverbRun<F>>()(
            trace[n - 1],
            input[n - 1],
            trace[n - 1 + 1],
            output[n - 1],
        ));
    }
}

/// An allpass filter gives back what leaves its delay, less what comes in, and takes in
/// what comes in and its share of what leaves; next to it at every step.
pub proof fn allpass_mirrors_and_delays<F: Arith>(before: Allpass, x: u32, after: Allpass, y: u32)
    requires
        faithful::<F>(),
        allpass_steps::<F>(before, x, after, y),
        before.line@.len() > 0,
        finite(x) && finite(before.line@[0]) && proper(before.feedback),
    ensures
        rounds(units(before.line@[0]) - units(x), 1, y),
        exists|back: u32|
            #![trigger rounds(units(x) + units(back), 1, after.line@.last())]
            rounds(units(before.line@[0]) * units(before.feedback), one(), back) && rounds(
                units(x) + units(back),
                1,
                after.line@.last(),
            ),
        after.line@ == before.line@.drop_first().push(after.line@.last()),
        after.feedback == before.feedback,
{
    units_of_negated(x);
    let (back, w) = choose|back: u32, w: u32| #[trigger]
        product_is::<F>(before.line@[0], before.feedback, back) && #[trigger] sum_is::<F>(
            x,
            back,
            w,
        ) && after.line@ == before.line@.drop_first().push(w);
    factor_up_to_one_shrinks::<F>(before.line@[0], before.feedback, back);
    assert(after.line@.last() == w);
}

/// A comb filter rings on: what leaves its delay comes out, is damped, and goes in again
/// at the level of the feedback together with what is new; next to it at every step.
pub proof fn combs_ring_on<F: Arith>(before: Comb, x: u32, after: Comb, y: u32)
    requires
        faithful::<F>(),
        comb_steps::<F>(before, x, after, y),
        before.line@.len() > 0,
        finite(x) && finite(after.store) && finite(before.store) && finite(before.line@[0]),
        proper(before.damp) && proper(before.feedback),
    ensures
        y == before.line@[0],
        units(before.damp) == 0 ==> units(after.store) == units(y),
        units(before.damp) == one() ==> units(after.store) == units(before.store),
        exists|pass: u32, fresh: u32, kept: u32|
            #![trigger rounds(units(y) * units(pass), one(), fresh), rounds(units(before.store) * units(before.damp), one(), kept)]
            {
                &&& rounds(one() - units(before.damp), 1, pass)
                &&& rounds(units(y) * units(pass), one(), fresh)
                &&& rounds(units(before.store) * units(before.damp), one(), kept)
                &&& rounds(units(fresh) + units(kept), 1, after.store)
            },
        exists|back: u32|
            #![trigger rounds(units(x) + units(back), 1, after.line@.last())]
            rounds(units(after.store) * units(before.feedback), one(), back) && rounds(
                units(x) + units(back),
                1,
                after.line@.last(),
            ),
        after.line@ == before.line@.drop_first().push(after.line@.last()),
{
    units_of_one();
    let (pass, fresh, kept) = choose|pass: u32, fresh: u32, kept: u32|
        #![trigger product_is::<F>(y, pass, fresh), product_is::<F>(before.store, before.damp, kept)]
        difference_is::<F>(ONE, before.damp, pass) && product_is::<F>(y, pass, fresh)
            && product_is::<F>(before.store, before.damp, kept) && sum_is::<F>(
            fresh,
            kept,
            after.store,
        );
    let rest = one() - units(before.damp);
    rounds_above(rest, 1, pass, ZERO);
    rounds_below(rest, 1, pass, ONE);
    between_is_finite(ZERO, pass, ONE);
    factor_up_to_one_shrinks::<F>(y, pass, fresh);
    factor_up_to_one_shrinks::<F>(before.store, before.damp, kept);
    if units(before.damp) == 0 {
        exact_results_are_hit(rest, 1, pass, ONE);
        product_with_one::<F>(y, pass, fresh);
        product_with_zero::<F>(before.store, before.damp, kept);
        exact_results_are_hit(units(fresh) + units(kept), 1, after.store, y);
    }
    if units(before.damp) == one() {
        exact_results_are_hit(rest, 1, pass, ZERO);
        product_with_zero::<F>(y, pass, fresh);
        product_with_one::<F>(before.store, before.damp, kept);
        exact_results_are_hit(units(fresh) + units(kept), 1, after.store, before.store);
    }
    let (back, w) = choose|back: u32, w: u32| #[trigger]
        product_is::<F>(after.store, before.feedback, back) && #[trigger] sum_is::<F>(x, back, w)
            && after.line@ == before.line@.drop_first().push(w);
    factor_up_to_one_shrinks::<F>(after.store, before.feedback, back);
    assert(after.line@.last() == w);
}

/// The wet level is six tenths of the mix.
pub proof fn wet_level_follows_the_mix<F: Arith>(
    reverb: Reverb<F>,
    enabled: u32,
    mix: u32,
    input: Seq<u32>,
    after: Reverb<F>,
    output: Seq<u32>,
)
    requires
        faithful::<F>(),
        reverb.processed_with(enabled, mix, input, after, output),
        !reverb_idle(enabled, mix),
        !not_a_number(mix),
    ensures
        exists|share: u32|
            #![trigger rounds(6 * one(), 10, share)]
            rounds(6 * one(), 10, share) && rounds(
                units(clamped(mix, ZERO, ONE)) * units(share),
                one(),
                after.run.wet,
            ),
{
    units_of_one();
    vstd::arithmetic::power2::lemma2_to64();
    between_is_finite(ZERO, clamped(mix, ZERO, ONE), ONE);
    constants_round(0x3f19_999a, 6, 10, 126, 0x19999a, 2);
    assert(rounds(6 * one(), 10, WET_SCALE));
}

/// A length of `tuning` at a rate of `k` times 44.1 kHz is `k` times as long.
proof fn lengths_scale<F: Arith>(tuning: usize, sample_rate: u32, scale: u32, len: usize, k: nat)
    requires
        faithful::<F>(),
        counts::<F>(),
        quotient_is::<F>(sample_rate, TUNING_RATE, scale),
        scaled_is::<F>(tuning, scale, len),
        finite(sample_rate) && units(sample_rate) == 44100 * (k * one()),
        1 <= k <= 100,
        0 < tuning <= 2000,
    ensures
        len == k * tuning,
{
    units_of_one();
    whole_numbers_are_numbers(44100);
    assert(whole(44100) == TUNING_RATE) by {
        reveal_with_fuel(whole, 24);
    }
    whole_numbers_are_numbers(k);
    let o = one();
    assert((k * o) * (44100 * o) == (44100 * (k * o)) * o) by (nonlinear_arith);
    exact_results_are_hit((44100 * (k * o)) * o, 44100 * o, scale, whole(k));
    let (t, l) = choose|t: u32, l: u32| #[trigger]
        of_count_is::<F>(tuning, t) && #[trigger] product_is::<F>(t, scale, l) && to_count_is::<F>(
            l,
            len,
        );
    counts_are_exact::<F>(tuning, t);
    let n = k * tuning as nat;
    assert(0 < n <= 200_000) by (nonlinear_arith)
        requires
            n == k * tuning,
            1 <= k <= 100,
            0 < tuning <= 2000,
    ;
    whole_numbers_are_numbers(n);
    assert((n * o) * o == (tuning * o) * (k * o)) by (nonlinear_arith)
        requires
            n == k * tuning,
    ;
    exact_results_are_hit((tuning * o) * (k * o), o, l, whole(n));
    assert(is_count(n));
}

/// The room is tuned: at a rate of `k` times 44.1 kHz the filters are `k` times as long as
/// their tunings, the comb filters feed back about 0.896 and damp by 0.2, and the allpass
/// filters feed back one half.
pub proof fn room_is_tuned<F: Arith>(
    reverb: Reverb<F>,
    sample_rate: u32,
    max_block: usize,
    fresh: Reverb<F>,
    k: nat,
)
    requires
        faithful::<F>(),
        counts::<F>(),
        reverb.prepared(sample_rate, max_block, fresh),
        finite(sample_rate) && units(sample_rate) == 44100 * (k * one()),
        1 <= k <= 100,
    ensures
        comb_lengths(fresh.run) == seq![
            1116 * k,
            1188 * k,
            1277 * k,
            1356 * k,
            1422 * k,
            1491 * k,
            1557 * k,
            1617 * k,
        ],
        fresh.run.allpasses@.len() == 4,
        fresh.run.allpasses@[0].line@.len() == 556 * k,
        fresh.run.allpasses@[1].line@.len() == 441 * k,
        fresh.run.allpasses@[2].line@.len() == 341 * k,
        fresh.run.allpasses@[3].line@.len() == 225 * k,
        forall|i: int|
            0 <= i < 8 ==> {
                let c = #[trigger] fresh.run.combs@[i];
                &&& 890 * one() <= 1000 * units(c.feedback) <= 900 * one()
                &&& 199 * one() <= 1000 * units(c.damp) <= 201 * one()
            },
        forall|i: int| 0 <= i < 4 ==> (#[trigger] fresh.run.allpasses@[i]).feedback == HALF,
{
    units_of_one();
    let combs = fresh.run.combs@;
    let allpasses = fresh.run.allpasses@;
    let (scale, grown, feedback, damp) = choose|scale: u32, grown: u32, feedback: u32, damp: u32|
        #![trigger quotient_is::<F>(sample_rate, TUNING_RATE, scale), sum_is::<F>(grown, ROOM_OFFSET, feedback), product_is::<F>(HALF, DAMP_SCALE, damp)]
        {
            &&& quotient_is::<F>(sample_rate, TUNING_RATE, scale)
            &&& product_is::<F>(ROOM_SIZE, ROOM_SCALE, grown)
            &&& sum_is::<F>(grown, ROOM_OFFSET, feedback)
            &&& product_is::<F>(HALF, DAMP_SCALE, damp)
            &&& forall|i: int|
                #![trigger combs[i]]
                0 <= i < combs.len() ==> combs_built::<F>(
                    combs[i],
                    COMB_TUNING@[i],
                    scale,
                    feedback,
                    damp,
                )
            &&& forall|i: int|
                #![trigger allpasses[i]]
                0 <= i < allpasses.len() ==> allpass_built::<F>(
                    allpasses[i],
                    ALLPASS_TUNING@[i],
                    scale,
                )
        };
    room_constants::<F>(grown, feedback, damp);
    assert forall|i: int| 0 <= i < 8 implies (#[trigger] combs[i]).line@.len() == k
        * COMB_TUNING@[i] by {
        let len = choose|len: usize| #[trigger]
            scaled_is::<F>(COMB_TUNING@[i], scale, len) && silent_line(combs[i].line, len);
        assert(0 < COMB_TUNING@[i] <= 2000);
        lengths_scale::<F>(COMB_TUNING@[i], sample_rate, scale, len, k);
        assert(k * COMB_TUNING@[i] > 0) by (nonlinear_arith)
            requires
                k >= 1,
                COMB_TUNING@[i] > 0,
        ;
    }
    assert forall|i: int| 0 <= i < 4 implies (#[trigger] allpasses[i]).line@.len() == k
        * ALLPASS_TUNING@[i] by {
        let len = choose|len: usize| #[trigger]
            scaled_is::<F>(ALLPASS_TUNING@[i], scale, len) && silent_line(allpasses[i].line, len);
        assert(0 < ALLPASS_TUNING@[i] <= 2000);
        lengths_scale::<F>(ALLPASS_TUNING@[i], sample_rate, scale, len, k);
        assert(k * ALLPASS_TUNING@[i] > 0) by (nonlinear_arith)
            requires
                k >= 1,
                ALLPASS_TUNING@[i] > 0,
        ;
    }
    assert(combs[0].line@.len() == 1116 * k);
    assert(combs[1].line@.len() == 1188 * k);
    assert(combs[2].line@.len() == 1277 * k);
    assert(combs[3].line@.len() == 1356 * k);
    assert(combs[4].line@.len() == 1422 * k);
    assert(combs[5].line@.len() == 1491 * k);
    assert(combs[6].line@.len() == 1557 * k);
    assert(combs[7].line@.len() == 1617 * k);
    assert(comb_lengths(fresh.run) =~= seq![
        1116 * k,
        1188 * k,
        1277 * k,
        1356 * k,
        1422 * k,
        1491 * k,
        1557 * k,
        1617 * k,
    ]);
}

/// The room feeds back about 0.896 and damps by 0.2.
proof fn room_constants<F: Arith>(grown: u32, feedback: u32, damp: u32)
    requires
        faithful::<F>(),
        product_is::<F>(ROOM_SIZE, ROOM_SCALE, grown),
        sum_is::<F>(grown, ROOM_OFFSET, feedback),
        product_is::<F>(HALF, DAMP_SCALE, damp),
    ensures
        890 * one() <= 1000 * units(feedback) <= 900 * one(),
        199 * one() <= 1000 * units(damp) <= 201 * one(),
{
    units_of_one();
    vstd::arithmetic::power2::lemma2_to64();
    let o = one();
    dyadics_are_numbers(716, 10);
    dyadics_are_numbers(717, 10);
    dyadics_are_numbers(286, 10);
    dyadics_are_numbers(287, 10);
    dyadics_are_numbers(409, 10);
    dyadics_are_numbers(410, 10);
    constants_round(0x3f33_3333, 7, 10, 126, 0x333333, 2);
    constants_round(0x3e8f_5c29, 28, 100, 125, 0xf5c29, 4);
    constants_round(0x3ecc_cccd, 4, 10, 125, 0x4ccccd, 4);
    rounds_above(7 * o, 10, ROOM_SIZE, dyadic(716, 10));
    rounds_below(7 * o, 10, ROOM_SIZE, dyadic(717, 10));
    rounds_above(28 * o, 100, ROOM_SCALE, dyadic(286, 10));
    rounds_below(28 * o, 100, ROOM_SCALE, dyadic(287, 10));
    rounds_above(4 * o, 10, DAMP_SCALE, dyadic(409, 10));
    rounds_below(4 * o, 10, DAMP_SCALE, dyadic(410, 10));
    dyadics_are_numbers(204_776, 20);
    dyadics_are_numbers(205_779, 20);
    let (a, b) = (units(ROOM_SIZE), units(ROOM_SCALE));
    let (lo, hi) = (units(dyadic(204_776, 20)), units(dyadic(205_779, 20)));
    assert(lo * o <= a * b <= hi * o) by (nonlinear_arith)
        requires
            716 * o <= 1024 * a <= 717 * o,
            286 * o <= 1024 * b <= 287 * o,
            lo * 0x10_0000 == 204_776 * o,
            hi * 0x10_0000 == 205_779 * o,
            o > 0,
    ;
    rounds_above(a * b, o, grown, dyadic(204_776, 20));
    rounds_below(a * b, o, grown, dyadic(205_779, 20));
    between_is_finite(dyadic(204_776, 20), grown, dyadic(205_779, 20));
    let total = units(grown) + a;
    dyadics_are_numbers(912, 10);
    dyadics_are_numbers(919, 10);
    rounds_above(total, 1, feedback, dyadic(912, 10));
    rounds_below(total, 1, feedback, dyadic(919, 10));
    let d = units(DAMP_SCALE);
    dyadics_are_numbers(409, 11);
    dyadics_are_numbers(410, 11);
    rounds_scales(d, 2, units(HALF), damp);
    rounds_above(d, 2, damp, dyadic(409, 11));
    rounds_below(d, 2, damp, dyadic(410, 11));
}

} // verus!
