//! The processing unit of the signal chain, and the chain itself.
use vstd::prelude::*;

verus! {

/// 48 kHz, the sample rate until `prepare` says otherwise.
pub const DEFAULT_RATE: u32 = 0x473b_8000;

/// One real-time processing unit. Every effect of the chain is one.
///
/// `prepare` does all the allocating, before the stream starts or when the
/// sample rate changes; `process` works on one mono block in place; `reset`
/// forgets the past. The spec functions are how a unit states what each of the
/// three does.
pub trait AudioProcessor: Sized {
    /// Whether the unit is in working order. Constructors establish this and
    /// all three operations keep it.
    spec fn wf(&self) -> bool;

    /// Whether a block of `n` samples may be handed to `process`.
    spec fn accepts(&self, n: nat) -> bool;

    /// Whether `reset` may be called.
    spec fn resettable(&self) -> bool;

    /// `after` is `self` made ready for `sample_rate` and blocks up to
    /// `max_block` samples.
    spec fn prepared(&self, sample_rate: u32, max_block: usize, after: Self) -> bool;

    /// `self` turns the block `input` into `output` and becomes `after`.
    spec fn processed(&self, input: Seq<u32>, after: Self, output: Seq<u32>) -> bool;

    /// `after` is `self` with its past forgotten.
    spec fn cleared(&self, after: Self) -> bool;

    /// Gets ready: `sample_rate` is a number of hertz (its bit pattern),
    /// `max_block` the largest block that will be handed to `process`.
    fn prepare(&mut self, sample_rate: u32, max_block: usize)
        requires
            old(self).wf(),
        ensures
            final(self).wf(),
            old(self).prepared(sample_rate, max_block, *final(self)),
            forall|n: nat| n <= max_block ==> #[trigger] final(self).accepts(n),
            final(self).resettable(),
    ;

    /// Processes one block in place.
    fn process(&mut self, buf: &mut [u32])
        requires
            old(self).wf(),
            old(self).accepts(old(buf)@.len()),
        ensures
            final(self).wf(),
            final(buf)@.len() == old(buf)@.len(),
            old(self).processed(old(buf)@, *final(self), final(buf)@),
            forall|n: nat| #[trigger] old(self).accepts(n) ==> final(self).accepts(n),
            old(self).resettable() ==> final(self).resettable(),
    ;

    /// Forgets delay lines, filter memories and tails.
    fn reset(&mut self)
        requires
            old(self).wf(),
            old(self).resettable(),
        ensures
            final(self).wf(),
            old(self).cleared(*final(self)),
            forall|n: nat| #[trigger] old(self).accepts(n) ==> final(self).accepts(n),
            final(self).resettable(),
    ;
}

/// The unit that changes nothing.
pub struct Passthrough;

impl Default for Passthrough {
    fn default() -> (r: Self) {
        Passthrough
    }
}

impl AudioProcessor for Passthrough {
    open spec fn wf(&self) -> bool {
        true
    }

    open spec fn accepts(&self, n: nat) -> bool {
        true
    }

    open spec fn resettable(&self) -> bool {
        true
    }

    open spec fn prepared(&self, sample_rate: u32, max_block: usize, after: Self) -> bool {
        true
    }

    open spec fn processed(&self, input: Seq<u32>, after: Self, output: Seq<u32>) -> bool {
        output == input
    }

    open spec fn cleared(&self, after: Self) -> bool {
        true
    }

    fn prepare(&mut self, _sample_rate: u32, _max_block: usize) {
    }

    fn process(&mut self, _buf: &mut [u32]) {
    }

    fn reset(&mut self) {
    }
}

/// Processing units in a fixed order, each fed with what the one before it
/// hands out. A chain is a unit itself, so chains nest.
pub struct Chain<P> {
    stages: Vec<P>,
}

/// `after` are the stages `before`, each of which turned one entry of `mids`
/// into the next.
pub open spec fn staged<P: AudioProcessor>(
    before: Seq<P>,
    after: Seq<P>,
    mids: Seq<Seq<u32>>,
) -> bool {
    &&& after.len() == before.len()
    &&& mids.len() == before.len() + 1
    &&& forall|i: int|
        #![trigger mids[i]]
        0 <= i < before.len() ==> before[i].processed(mids[i], after[i], mids[i + 1])
}

/// The stages `before`, one after the other, turn `input` into `output` and
/// become `after`.
pub open spec fn chained<P: AudioProcessor>(
    before: Seq<P>,
    input: Seq<u32>,
    after: Seq<P>,
    output: Seq<u32>,
) -> bool {
    exists|mids: Seq<Seq<u32>>| #[trigger]
        staged(before, after, mids) && mids[0] == input && mids[before.len() as int] == output
}

impl<P> View for Chain<P> {
    type V = Seq<P>;

    closed spec fn view(&self) -> Seq<P> {
        self.stages@
    }
}

impl<P> Default for Chain<P> {
    fn default() -> (r: Self)
        ensures
            r@ == Seq::<P>::empty(),
    {
        Chain::new()
    }
}

impl<P> Chain<P> {
    /// A chain without stages.
    pub fn new() -> (r: Self)
        ensures
            r@ == Seq::<P>::empty(),
    {
        Chain { stages: Vec::new() }
    }

    /// Adds a stage at the end.
    pub fn push(&mut self, stage: P) -> (r: &mut Self)
        ensures
            r@ == old(self)@.push(stage),
            *final(self) == *final(r),
    {
        self.stages.push(stage);
        self
    }
}

impl<P: AudioProcessor> AudioProcessor for Chain<P> {
    open spec fn wf(&self) -> bool {
        forall|i: int| 0 <= i < self@.len() ==> (#[trigger] self@[i]).wf()
    }

    open spec fn accepts(&self, n: nat) -> bool {
        forall|i: int| 0 <= i < self@.len() ==> #[trigger] self@[i].accepts(n)
    }

    open spec fn resettable(&self) -> bool {
        forall|i: int| 0 <= i < self@.len() ==> #[trigger] self@[i].resettable()
    }

    open spec fn prepared(&self, sample_rate: u32, max_block: usize, after: Self) -> bool {
        &&& after@.len() == self@.len()
        &&& forall|i: int|
            0 <= i < self@.len() ==> #[trigger] self@[i].prepared(sample_rate, max_block, after@[i])
    }

    open spec fn processed(&self, input: Seq<u32>, after: Self, output: Seq<u32>) -> bool {
        chained(self@, input, after@, output)
    }

    open spec fn cleared(&self, after: Self) -> bool {
        &&& after@.len() == self@.len()
        &&& forall|i: int| 0 <= i < self@.len() ==> #[trigger] self@[i].cleared(after@[i])
    }

    fn prepare(&mut self, sample_rate: u32, max_block: usize) {
        let n: usize = self.stages.len();
        let mut i: usize = 0;
        while i < n
            invariant
                i <= n,
                n == self.stages@.len(),
                n == old(self).stages@.len(),
                self.wf(),
                forall|k: int| i <= k < n ==> self.stages@[k] == old(self).stages@[k],
                forall|k: int|
                    0 <= k < i ==> #[trigger] old(self).stages@[k].prepared(
                        sample_rate,
                        max_block,
                        self.stages@[k],
                    ),
                forall|k: int, m: nat|
                    0 <= k < i && m <= max_block ==> #[trigger] self.stages@[k].accepts(m),
                forall|k: int| 0 <= k < i ==> #[trigger] self.stages@[k].resettable(),
            decreases n - i,
        {
            assert(self@[i as int].wf());
            self.stages[i].prepare(sample_rate, max_block);
            i = i + 1;
        }
    }

    fn process(&mut self, buf: &mut [u32]) {
        let n: usize = self.stages.len();
        let mut i: usize = 0;
        let ghost mut mids: Seq<Seq<u32>> = seq![old(buf)@];
        while i < n
            invariant
                i <= n,
                n == self.stages@.len(),
                n == old(self).stages@.len(),
                self.wf(),
                buf@.len() == old(buf)@.len(),
                old(self).accepts(old(buf)@.len()),
                mids.len() == i + 1,
                mids[0] == old(buf)@,
                mids[i as int] == buf@,
                forall|k: int| i <= k < n ==> self.stages@[k] == old(self).stages@[k],
                forall|k: int|
                    #![trigger mids[k]]
                    0 <= k < i ==> old(self).stages@[k].processed(
                        mids[k],
                        self.stages@[k],
                        mids[k + 1],
                    ),
                forall|k: int, m: nat|
                    0 <= k < i && #[trigger] old(self).stages@[k].accepts(m)
                        ==> self.stages@[k].accepts(m),
                forall|k: int|
                    0 <= k < i && old(self).stages@[k].resettable()
                        ==> #[trigger] self.stages@[k].resettable(),
            decreases n - i,
        {
            assert(old(self)@[i as int].accepts(old(buf)@.len()));
            assert(self@[i as int].wf());
            self.stages[i].process(buf);
            proof {
                mids = mids.push(buf@);
            }
            i = i + 1;
        }
        assert(staged(old(self)@, self@, mids));
        assert forall|m: nat| #[trigger] old(self).accepts(m) implies self.accepts(m) by {
            assert forall|k: int| 0 <= k < self@.len() implies #[trigger] self@[k].accepts(m) by {
                assert(old(self)@[k].accepts(m));
            }
        }
        assert(old(self).resettable() ==> self.resettable()) by {
            if old(self).resettable() {
                assert forall|k: int| 0 <= k < self@.len() implies #[trigger] self@[k].resettable() by {
                    assert(old(self)@[k].resettable());
                }
            }
        }
    }

    fn reset(&mut self) {
        let n: usize = self.stages.len();
        let mut i: usize = 0;
        while i < n
            invariant
                i <= n,
                n == self.stages@.len(),
                n == old(self).stages@.len(),
                self.wf(),
                old(self).resettable(),
                forall|k: int| i <= k < n ==> self.stages@[k] == old(self).stages@[k],
                forall|k: int|
                    0 <= k < i ==> #[trigger] old(self).stages@[k].cleared(self.stages@[k]),
                forall|k: int, m: nat|
                    0 <= k < i && #[trigger] old(self).stages@[k].accepts(m)
                        ==> self.stages@[k].accepts(m),
                forall|k: int| 0 <= k < i ==> #[trigger] self.stages@[k].resettable(),
            decreases n - i,
        {
            assert(old(self)@[i as int].resettable());
            assert(self@[i as int].wf());
            self.stages[i].reset();
            i = i + 1;
        }
        assert forall|m: nat| #[trigger] old(self).accepts(m) implies self.accepts(m) by {
            assert forall|k: int| 0 <= k < self@.len() implies #[trigger] self@[k].accepts(m) by {
                assert(old(self)@[k].accepts(m));
            }
        }
    }
}

/// A chain without stages hands its block through.
pub proof fn empty_chain_is_identity<P: AudioProcessor>(
    chain: Chain<P>,
    input: Seq<u32>,
    after: Chain<P>,
    output: Seq<u32>,
)
    requires
        chain@.len() == 0,
        chain.processed(input, after, output),
    ensures
        output == input,
        after@.len() == 0,
{
}

/// A chain cut in two works like its two halves, one after the other.
pub proof fn chains_join<P: AudioProcessor>(
    first: Seq<P>,
    input: Seq<u32>,
    first_after: Seq<P>,
    mid: Seq<u32>,
    second: Seq<P>,
    second_after: Seq<P>,
    output: Seq<u32>,
)
    requires
        chained(first, input, first_after, mid),
        chained(second, mid, second_after, output),
    ensures
        chained(first + second, input, first_after + second_after, output),
{
    let ma = choose|m: Seq<Seq<u32>>| #[trigger]
        staged(first, first_after, m) && m[0] == input && m[first.len() as int] == mid;
    let mb = choose|m: Seq<Seq<u32>>| #[trigger]
        staged(second, second_after, m) && m[0] == mid && m[second.len() as int] == output;
    let n = first.len() as int;
    let m = ma.drop_last() + mb;
    let before = first + second;
    let after = first_after + second_after;
    assert forall|i: int|
        #![trigger m[i]]
        0 <= i < before.len() implies before[i].processed(m[i], after[i], m[i + 1]) by {
        if i < n {
            assert(first[i].processed(ma[i], first_after[i], ma[i + 1]));
            assert(m[i + 1] == ma[i + 1]);
        } else {
            let j = i - n;
            assert(second[j].processed(mb[j], second_after[j], mb[j + 1]));
            assert(m[i] == mb[j] && m[i + 1] == mb[j + 1]);
            assert(before[i] == second[j] && after[i] == second_after[j]);
        }
    }
    assert(staged(before, after, m));
    assert(m[0] == input);
    assert(m[before.len() as int] == output);
}

/// `a` becomes `b` by processing some block.
pub open spec fn moves<P: AudioProcessor>(a: P, b: P) -> bool {
    exists|input: Seq<u32>, output: Seq<u32>| #[trigger] a.processed(input, b, output)
}

/// The states of a unit that processes one block after the other.
pub open spec fn plays<P: AudioProcessor>(trace: Seq<P>) -> bool {
    &&& trace.len() > 0
    &&& forall|i: int|
        #![trigger trace[i]]
        0 <= i < trace.len() - 1 ==> moves(trace[i], trace[i + 1])
}

/// What holds of a unit at first and survives every block holds at the end.
pub proof fn playing_keeps<P: AudioProcessor>(trace: Seq<P>, kept: spec_fn(P) -> bool)
    requires
        plays(trace),
        kept(trace[0]),
        forall|a: P, input: Seq<u32>, b: P, output: Seq<u32>|
            kept(a) && #[trigger] a.processed(input, b, output) ==> kept(b),
    ensures
        kept(trace.last()),
    decreases trace.len(),
{
    if trace.len() > 1 {
        let n = trace.len() as int;
        let rest = trace.drop_last();
        assert forall|i: int|
            #![trigger rest[i]]
            0 <= i < rest.len() - 1 implies moves(rest[i], rest[i + 1]) by {
            assert(moves(trace[i], trace[i + 1]));
        }
        playing_keeps(rest, kept);
        assert(moves(trace[n - 2], trace[n - 1]));
    }
}

/// `units` are the states of a unit that turns each of `inputs` into that of
/// `outputs` at its place, one block after the other.
pub open spec fn performs<P: AudioProcessor>(
    units: Seq<P>,
    inputs: Seq<Seq<u32>>,
    outputs: Seq<Seq<u32>>,
) -> bool {
    &&& units.len() == inputs.len() + 1
    &&& outputs.len() == inputs.len()
    &&& forall|i: int|
        #![trigger units[i]]
        0 <= i < inputs.len() ==> units[i].processed(inputs[i], units[i + 1], outputs[i])
}

/// `a` can turn `input` into `output` too, and becomes one that is `alike` to `after`.
pub open spec fn matches_step<P: AudioProcessor>(
    alike: spec_fn(P, P) -> bool,
    a: P,
    input: Seq<u32>,
    after: P,
    output: Seq<u32>,
) -> bool {
    exists|next: P| #[trigger] a.processed(input, next, output) && alike(next, after)
}

/// Where every block of a unit can be matched by one that is alike, a whole
/// performance can.
pub proof fn alike_units_perform_alike<P: AudioProcessor>(
    alike: spec_fn(P, P) -> bool,
    a: P,
    units: Seq<P>,
    inputs: Seq<Seq<u32>>,
    outputs: Seq<Seq<u32>>,
)
    requires
        performs(units, inputs, outputs),
        alike(a, units[0]),
        forall|x: P, y: P, input: Seq<u32>, after: P, output: Seq<u32>|
            #![trigger matches_step(alike, x, input, after, output), y.processed(input, after, output)]
            alike(x, y) && y.processed(input, after, output) ==> matches_step(
                alike,
                x,
                input,
                after,
                output,
            ),
    ensures
        exists|others: Seq<P>| #[trigger]
            performs(others, inputs, outputs) && others[0] == a && alike(
                others.last(),
                units.last(),
            ),
    decreases inputs.len(),
{
    if inputs.len() == 0 {
        assert(performs(seq![a], inputs, outputs));
    } else {
        let n = inputs.len() - 1;
        let front = units.drop_last();
        assert forall|i: int|
            #![trigger front[i]]
            0 <= i < n implies front[i].processed(
            inputs.drop_last()[i],
            front[i + 1],
            outputs.drop_last()[i],
        ) by {
            assert(units[i].processed(inputs[i], units[i + 1], outputs[i]));
        }
        alike_units_perform_alike(alike, a, front, inputs.drop_last(), outputs.drop_last());
        let others = choose|others: Seq<P>| #[trigger]
            performs(others, inputs.drop_last(), outputs.drop_last()) && others[0] == a && alike(
                others.last(),
                front.last(),
            );
        assert(units[n].processed(inputs[n], units[n + 1], outputs[n]));
        assert(matches_step(alike, others.last(), inputs[n], units[n + 1], outputs[n]));
        let next = choose|next: P| #[trigger]
            others.last().processed(inputs[n], next, outputs[n]) && alike(next, units[n + 1]);
        let longer = others.push(next);
        assert forall|i: int|
            #![trigger longer[i]]
            0 <= i < inputs.len() implies longer[i].processed(inputs[i], longer[i + 1], outputs[i]) by {
            if i < n {
                assert(others[i].processed(
                    inputs.drop_last()[i],
                    others[i + 1],
                    outputs.drop_last()[i],
                ));
            }
        }
        assert(performs(longer, inputs, outputs));
    }
}

/// The stages of all the chains, in order.
pub open spec fn flattened<P>(chains: Seq<Chain<P>>) -> Seq<P>
    decreases chains.len(),
{
    if chains.len() == 0 {
        Seq::empty()
    } else {
        flattened(chains.drop_last()) + chains.last()@
    }
}

/// A chain of chains works like the one chain of all their stages.
pub proof fn nested_chains_flatten<P: AudioProcessor>(
    before: Seq<Chain<P>>,
    input: Seq<u32>,
    after: Seq<Chain<P>>,
    output: Seq<u32>,
)
    requires
        chained(before, input, after, output),
    ensures
        chained(flattened(before), input, flattened(after), output),
    decreases before.len(),
{
    let mids = choose|m: Seq<Seq<u32>>| #[trigger]
        staged(before, after, m) && m[0] == input && m[before.len() as int] == output;
    let n = before.len() as int;
    if n == 0 {
        assert(staged(flattened(before), flattened(after), seq![input]));
    } else {
        let m = mids.drop_last();
        assert(before[n - 1].processed(mids[n - 1], after[n - 1], mids[n]));
        assert forall|i: int|
            #![trigger m[i]]
            0 <= i < n - 1 implies before.drop_last()[i].processed(
            m[i],
            after.drop_last()[i],
            m[i + 1],
        ) by {
            assert(before[i].processed(mids[i], after[i], mids[i + 1]));
        }
        assert(staged(before.drop_last(), after.drop_last(), m));
        nested_chains_flatten(before.drop_last(), input, after.drop_last(), mids[n - 1]);
        chains_join(
            flattened(before.drop_last()),
            input,
            flattened(after.drop_last()),
            mids[n - 1],
            before.last()@,
            after.last()@,
            output,
        );
    }
}

} // verus!
