//! Sample-by-sample runs of a stateful step over a block.
use vstd::prelude::*;

verus! {

/// A state that turns one sample into another and moves on.
pub trait Step: Sized {
    /// Whether the state may be stepped.
    spec fn sound(&self) -> bool;

    /// `self` turns `x` into `y` and becomes `after`.
    spec fn steps(&self, x: u32, after: Self, y: u32) -> bool;

    /// Turns one sample into another.
    fn step(&mut self, x: u32) -> (y: u32)
        requires
            old(self).sound(),
        ensures
            final(self).sound(),
            old(self).steps(x, *final(self), y),
    ;
}

/// The step of the states of type `S`, as a relation.
pub open spec fn stepping<S: Step>() -> spec_fn(S, u32, S, u32) -> bool {
    |before: S, x: u32, after: S, y: u32| before.steps(x, after, y)
}

/// Steps through a block in place.
pub fn run_block<S: Step>(state: &mut S, buf: &mut [u32])
    requires
        old(state).sound(),
    ensures
        final(state).sound(),
        final(buf)@.len() == old(buf)@.len(),
        runs(stepping::<S>(), *old(state), old(buf)@, *final(state), final(buf)@),
{
    let ghost rel = stepping::<S>();
    let ghost input = buf@;
    let n: usize = buf.len();
    let mut i: usize = 0;
    proof {
        run_of_nothing(rel, *state);
        assert(input.take(0) == Seq::<u32>::empty());
    }
    while i < n
        invariant
            i <= n,
            n == buf@.len(),
            n == input.len(),
            state.sound(),
            rel == stepping::<S>(),
            forall|k: int| i <= k < n ==> buf@[k] == input[k],
            runs(rel, *old(state), input.take(i as int), *state, buf@.take(i as int)),
        decreases n - i,
    {
        let x: u32 = buf[i];
        let ghost before = *state;
        let ghost done = buf@.take(i as int);
        let y: u32 = state.step(x);
        buf[i] = y;
        proof {
            assert(rel(before, x, *state, y));
            run_extends(rel, *old(state), input.take(i as int), before, done, x, *state, y);
            assert(input.take(i + 1) == input.take(i as int).push(x));
            assert(buf@.take(i + 1) == done.push(y));
        }
        i = i + 1;
    }
    assert(input.take(n as int) == input);
    assert(buf@.take(n as int) == buf@);
}

/// A run of `step` over a block: starting from `before`, every input sample is
/// turned into the output sample at its place while the state moves on, and
/// `after` is the state that is left. `step` relates the state before a sample,
/// the sample, the state after it and the sample that comes out.
pub open spec fn runs<S>(
    step: spec_fn(S, u32, S, u32) -> bool,
    before: S,
    input: Seq<u32>,
    after: S,
    output: Seq<u32>,
) -> bool {
    exists|trace: Seq<S>| #[trigger] traces(step, before, input, after, output, trace)
}

/// `trace` holds the states of a run, the one before each sample and the last.
pub open spec fn traces<S>(
    step: spec_fn(S, u32, S, u32) -> bool,
    before: S,
    input: Seq<u32>,
    after: S,
    output: Seq<u32>,
    trace: Seq<S>,
) -> bool {
    &&& output.len() == input.len()
    &&& trace.len() == input.len() + 1
    &&& trace[0] == before
    &&& trace[input.len() as int] == after
    &&& forall|i: int|
        #![trigger trace[i], input[i]]
        0 <= i < input.len() ==> step(trace[i], input[i], trace[i + 1], output[i])
}

/// Blocks, one after the other.
pub open spec fn joined(blocks: Seq<Seq<u32>>) -> Seq<u32>
    decreases blocks.len(),
{
    if blocks.len() == 0 {
        Seq::empty()
    } else {
        joined(blocks.drop_last()) + blocks.last()
    }
}

/// A run over no samples changes nothing.
pub proof fn run_of_nothing<S>(step: spec_fn(S, u32, S, u32) -> bool, state: S)
    ensures
        runs(step, state, Seq::<u32>::empty(), state, Seq::<u32>::empty()),
{
    assert(traces(step, state, Seq::empty(), state, Seq::empty(), seq![state]));
}

/// What holds before a run and survives every step holds after it.
pub proof fn run_keeps<S>(
    step: spec_fn(S, u32, S, u32) -> bool,
    kept: spec_fn(S) -> bool,
    before: S,
    input: Seq<u32>,
    after: S,
    output: Seq<u32>,
)
    requires
        runs(step, before, input, after, output),
        kept(before),
        forall|a: S, x: u32, b: S, y: u32| kept(a) && #[trigger] step(a, x, b, y) ==> kept(b),
    ensures
        kept(after),
{
    let trace = choose|trace: Seq<S>| #[trigger]
        traces(step, before, input, after, output, trace);
    trace_keeps(step, kept, before, input, after, output, trace, input.len());
}

proof fn trace_keeps<S>(
    step: spec_fn(S, u32, S, u32) -> bool,
    kept: spec_fn(S) -> bool,
    before: S,
    input: Seq<u32>,
    after: S,
    output: Seq<u32>,
    trace: Seq<S>,
    i: nat,
)
    requires
        traces(step, before, input, after, output, trace),
        kept(before),
        i <= input.len(),
        forall|a: S, x: u32, b: S, y: u32| kept(a) && #[trigger] step(a, x, b, y) ==> kept(b),
    ensures
        kept(trace[i as int]),
    decreases i,
{
    if i > 0 {
        trace_keeps(step, kept, before, input, after, output, trace, (i - 1) as nat);
        assert(step(trace[i - 1], input[i - 1], trace[i - 1 + 1], output[i - 1]));
    }
}

/// A run may be continued by one more sample.
pub proof fn run_extends<S>(
    step: spec_fn(S, u32, S, u32) -> bool,
    before: S,
    input: Seq<u32>,
    mid: S,
    output: Seq<u32>,
    x: u32,
    after: S,
    y: u32,
)
    requires
        runs(step, before, input, mid, output),
        step(mid, x, after, y),
    ensures
        runs(step, before, input.push(x), after, output.push(y)),
{
    let trace = choose|trace: Seq<S>| #[trigger]
        traces(step, before, input, mid, output, trace);
    let longer = trace.push(after);
    assert forall|i: int|
        #![trigger longer[i], input.push(x)[i]]
        0 <= i < input.push(x).len() implies step(
        longer[i],
        input.push(x)[i],
        longer[i + 1],
        output.push(y)[i],
    ) by {
        if i < input.len() {
            assert(step(trace[i], input[i], trace[i + 1], output[i]));
        }
    }
    assert(traces(step, before, input.push(x), after, output.push(y), longer));
}

/// Two consecutive runs are one run over the joined blocks: where a block is
/// cut does not matter.
pub proof fn runs_join<S>(
    step: spec_fn(S, u32, S, u32) -> bool,
    before: S,
    first_in: Seq<u32>,
    mid: S,
    first_out: Seq<u32>,
    second_in: Seq<u32>,
    after: S,
    second_out: Seq<u32>,
)
    requires
        runs(step, before, first_in, mid, first_out),
        runs(step, mid, second_in, after, second_out),
    ensures
        runs(step, before, first_in + second_in, after, first_out + second_out),
{
    let ta = choose|t: Seq<S>| #[trigger] traces(step, before, first_in, mid, first_out, t);
    let tb = choose|t: Seq<S>| #[trigger] traces(step, mid, second_in, after, second_out, t);
    let t = ta.drop_last() + tb;
    let input = first_in + second_in;
    let output = first_out + second_out;
    let n = first_in.len() as int;
    assert forall|i: int|
        #![trigger t[i], input[i]]
        0 <= i < input.len() implies step(t[i], input[i], t[i + 1], output[i]) by {
        if i < n {
            assert(step(ta[i], first_in[i], ta[i + 1], first_out[i]));
            if i + 1 < n {
                assert(t[i + 1] == ta[i + 1]);
            } else {
                assert(t[i + 1] == tb[0]);
            }
        } else {
            let j = i - n;
            assert(step(tb[j], second_in[j], tb[j + 1], second_out[j]));
            assert(t[i] == tb[j] && t[i + 1] == tb[j + 1]);
            assert(input[i] == second_in[j] && output[i] == second_out[j]);
        }
    }
    assert(t[input.len() as int] == tb[second_in.len() as int]);
    assert(t[0] == before);
    assert(traces(step, before, input, after, output, t));
}

/// `a` can turn `x` into `y` too, and becomes one that is `alike` to `after`.
pub open spec fn follows_suit<S>(
    step: spec_fn(S, u32, S, u32) -> bool,
    alike: spec_fn(S, S) -> bool,
    a: S,
    x: u32,
    after: S,
    y: u32,
) -> bool {
    exists|next: S| #[trigger] step(a, x, next, y) && alike(next, after)
}

/// Where every step of a state can be matched by one that is alike, a whole run can.
pub proof fn alike_states_run_alike<S>(
    step: spec_fn(S, u32, S, u32) -> bool,
    alike: spec_fn(S, S) -> bool,
    a: S,
    b: S,
    input: Seq<u32>,
    after: S,
    output: Seq<u32>,
)
    requires
        runs(step, b, input, after, output),
        alike(a, b),
        forall|p: S, q: S, x: u32, next: S, y: u32|
            #![trigger follows_suit(step, alike, p, x, next, y), step(q, x, next, y)]
            alike(p, q) && step(q, x, next, y) ==> follows_suit(step, alike, p, x, next, y),
    ensures
        exists|ours: S| #[trigger] runs(step, a, input, ours, output) && alike(ours, after),
    decreases input.len(),
{
    let trace = choose|trace: Seq<S>| #[trigger] traces(step, b, input, after, output, trace);
    if input.len() == 0 {
        run_of_nothing(step, a);
        assert(input =~= Seq::empty() && output =~= Seq::empty());
        assert(runs(step, a, input, a, output));
    } else {
        let n = input.len() - 1;
        let (front, rest) = (input.drop_last(), output.drop_last());
        let short = trace.drop_last();
        assert forall|i: int|
            #![trigger short[i], front[i]]
            0 <= i < front.len() implies step(short[i], front[i], short[i + 1], rest[i]) by {
            assert(step(trace[i], input[i], trace[i + 1], output[i]));
        }
        assert(traces(step, b, front, trace[n], rest, short));
        alike_states_run_alike(step, alike, a, b, front, trace[n], rest);
        let mid = choose|mid: S| #[trigger]
            runs(step, a, front, mid, rest) && alike(mid, trace[n]);
        assert(step(trace[n], input[n], trace[n + 1], output[n]));
        assert(follows_suit(step, alike, mid, input[n], after, output[n]));
        let ours = choose|ours: S| #[trigger]
            step(mid, input[n], ours, output[n]) && alike(ours, after);
        run_extends(step, a, front, mid, rest, input[n], ours, output[n]);
        assert(front.push(input[n]) =~= input && rest.push(output[n]) =~= output);
        assert(runs(step, a, input, ours, output));
    }
}

} // verus!
