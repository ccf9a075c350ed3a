//! The ring between capture and render.
//!
//! A lock-free queue of samples with one end for writing and one for reading,
//! both of the `rtrb` crate. Its fill level is the buffer against drift and
//! jitter: run dry, and silence has to be put in; run full, and samples are lost.
use crate::bits::ZERO;
use crate::line::silence;
use rtrb::{Consumer, Producer, RingBuffer};
use vstd::prelude::*;

verus! {

/// The writing end of a queue of `rtrb`.
#[verifier::external_type_specification]
#[verifier::external_body]
#[verifier::reject_recursive_types(T)]
pub struct ExProducer<T>(rtrb::Producer<T>);

/// The reading end of a queue of `rtrb`.
#[verifier::external_type_specification]
#[verifier::external_body]
#[verifier::reject_recursive_types(T)]
pub struct ExConsumer<T>(rtrb::Consumer<T>);

/// All that was ever written at a writing end.
pub uninterp spec fn sent(end: Producer<u32>) -> Seq<u32>;

/// How many samples were ever taken at a reading end.
pub uninterp spec fn taken(end: Consumer<u32>) -> nat;

/// How many samples the queue of a writing end has room for.
pub uninterp spec fn room(end: Producer<u32>) -> nat;

/// Whether the two are the ends of one queue.
pub uninterp spec fn joined(writer: Producer<u32>, reader: Consumer<u32>) -> bool;

/// `rtrb::RingBuffer::new`: the two ends of an empty queue with room for exactly
/// `capacity` samples. It panics if the room exceeds the address space.
#[verifier::external_body]
fn open_ring(capacity: usize) -> (ends: (Producer<u32>, Consumer<u32>))
    requires
        capacity * 4 <= isize::MAX,
    ensures
        joined(ends.0, ends.1),
        sent(ends.0) == Seq::<u32>::empty(),
        taken(ends.1) == 0,
        room(ends.0) == capacity,
{
    RingBuffer::new(capacity)
}

/// `rtrb::Producer::push`: appends the sample if there is room, and reports
/// whether there was. The reading end, which is held still meanwhile, decides how
/// much room there is.
#[verifier::external_body]
fn push(writer: &mut Producer<u32>, reader: &Consumer<u32>, x: u32) -> (ok: bool)
    requires
        joined(*old(writer), *reader),
        taken(*reader) <= sent(*old(writer)).len(),
    ensures
        joined(*final(writer), *reader),
        room(*final(writer)) == room(*old(writer)),
        ok == (sent(*old(writer)).len() - taken(*reader) < room(*old(writer))),
        sent(*final(writer)) == if ok {
            sent(*old(writer)).push(x)
        } else {
            sent(*old(writer))
        },
{
    let _ = reader;
    writer.push(x).is_ok()
}

/// `rtrb::Consumer::pop`: takes the oldest sample, or reports that there is none.
/// The writing end, which is held still meanwhile, decides what there is.
#[verifier::external_body]
fn pop(writer: &Producer<u32>, reader: &mut Consumer<u32>) -> (x: Option<u32>)
    requires
        joined(*writer, *old(reader)),
        taken(*old(reader)) <= sent(*writer).len(),
    ensures
        joined(*writer, *final(reader)),
        match x {
            Some(x) => taken(*old(reader)) < sent(*writer).len() && x == sent(*writer)[taken(
                *old(reader),
            ) as int] && taken(*final(reader)) == taken(*old(reader)) + 1,
            None => taken(*old(reader)) == sent(*writer).len() && taken(*final(reader)) == taken(
                *old(reader),
            ),
        },
{
    let _ = writer;
    reader.pop().ok()
}

/// A queue of samples with both its ends. Seen from outside it is the sequence
/// of the samples in it, the oldest first.
pub struct SampleRing {
    writer: Producer<u32>,
    reader: Consumer<u32>,
}

impl View for SampleRing {
    type V = Seq<u32>;

    closed spec fn view(&self) -> Seq<u32> {
        sent(self.writer).skip(taken(self.reader) as int)
    }
}

impl SampleRing {
    /// How many samples there is room for.
    pub closed spec fn capacity(&self) -> nat {
        room(self.writer)
    }

    /// Whether the two ends belong together and no more is in the queue than
    /// there is room for.
    pub closed spec fn wf(&self) -> bool {
        &&& joined(self.writer, self.reader)
        &&& taken(self.reader) <= sent(self.writer).len()
        &&& sent(self.writer).len() - taken(self.reader) <= room(self.writer)
    }
}

/// No more is in a queue than there is room for.
pub proof fn level_is_bounded(ring: SampleRing)
    requires
        ring.wf(),
    ensures
        ring@.len() <= ring.capacity(),
{
}

/// The smaller of two counts.
pub open spec fn smaller(a: nat, b: nat) -> nat {
    if a < b {
        a
    } else {
        b
    }
}

/// How many of `n` samples fit behind `held` in a queue with room for `capacity`.
pub open spec fn fitting(held: Seq<u32>, capacity: nat, n: nat) -> nat {
    smaller(n, (capacity - held.len()) as nat)
}

/// A queue that holds `held` and has room for `capacity`, after `data` was written
/// as far as it fits.
pub open spec fn written(held: Seq<u32>, capacity: nat, data: Seq<u32>) -> Seq<u32> {
    held + data.take(fitting(held, capacity, data.len()) as int)
}

/// What a reader that wants `n` samples gets from a queue that holds `held`: the
/// oldest ones, and silence for those that are missing.
pub open spec fn served(held: Seq<u32>, n: nat) -> Seq<u32> {
    let k = smaller(held.len(), n);
    held.take(k as int) + silence((n - k) as nat)
}

/// A queue that holds `held`, after a reader that wants `n` samples was served.
pub open spec fn left(held: Seq<u32>, n: nat) -> Seq<u32> {
    held.skip(smaller(held.len(), n) as int)
}

/// An empty queue with room for `capacity` samples.
pub fn channel(capacity: usize) -> (ring: SampleRing)
    requires
        capacity * 4 <= isize::MAX,
    ensures
        ring.wf(),
        ring@ == Seq::<u32>::empty(),
        ring.capacity() == capacity,
{
    let (writer, reader) = open_ring(capacity);
    let ring = SampleRing { writer, reader };
    assert(ring@ =~= Seq::<u32>::empty());
    ring
}

/// Fills `out` from the queue, with silence where it runs dry. Returns how many
/// samples came from the queue.
pub fn pop_fill(ring: &mut SampleRing, out: &mut [u32]) -> (n: usize)
    requires
        old(ring).wf(),
    ensures
        final(ring).wf(),
        final(ring).capacity() == old(ring).capacity(),
        n == smaller(old(ring)@.len(), old(out)@.len()),
        final(out)@ == served(old(ring)@, old(out)@.len()),
        final(ring)@ == left(old(ring)@, old(out)@.len()),
{
    let len: usize = out.len();
    let ghost held = ring@;
    let mut n: usize = 0;
    while n < len
        invariant
            len == out@.len(),
            len == old(out)@.len(),
            held == old(ring)@,
            old(ring).wf(),
            ring.wf(),
            ring.capacity() == old(ring).capacity(),
            n <= len,
            n <= held.len(),
            ring@ == held.skip(n as int),
            forall|k: int| 0 <= k < n ==> out@[k] == held[k],
        ensures
            n == smaller(held.len(), len as nat),
        decreases len - n,
    {
        let ghost stock = sent(ring.writer);
        let ghost gone = taken(ring.reader) as int;
        assert(stock.skip(gone) == held.skip(n as int));
        assert(stock.skip(gone).len() == stock.len() - gone);
        match pop(&ring.writer, &mut ring.reader) {
            Some(x) => {
                assert(stock.skip(gone)[0] == stock[gone]);
                assert(held.skip(n as int)[0] == held[n as int]);
                assert(stock.skip(gone + 1) =~= stock.skip(gone).skip(1));
                assert(held.skip(n + 1) =~= held.skip(n as int).skip(1));
                out[n] = x;
                n = n + 1;
                assert(ring@ =~= held.skip(n as int));
            },
            None => {
                break;
            },
        }
    }
    let mut i: usize = n;
    while i < len
        invariant
            n <= i <= len,
            len == out@.len(),
            forall|k: int| 0 <= k < n ==> out@[k] == held[k],
            forall|k: int| n <= k < i ==> out@[k] == ZERO,
        decreases len - i,
    {
        out[i] = ZERO;
        i = i + 1;
    }
    assert(out@ =~= served(held, len as nat));
    n
}

/// Writes `data` into the queue as far as it fits. Returns how many samples went
/// in.
pub fn push_all(ring: &mut SampleRing, data: &[u32]) -> (n: usize)
    requires
        old(ring).wf(),
    ensures
        final(ring).wf(),
        final(ring).capacity() == old(ring).capacity(),
        n == fitting(old(ring)@, old(ring).capacity(), data@.len()),
        final(ring)@ == written(old(ring)@, old(ring).capacity(), data@),
{
    let ghost held = ring@;
    let mut n: usize = 0;
    assert(held + data@.take(0) =~= held);
    while n < data.len()
        invariant
            held == old(ring)@,
            old(ring).wf(),
            ring.wf(),
            ring.capacity() == old(ring).capacity(),
            n <= data@.len(),
            held.len() + n <= ring.capacity(),
            ring@ == held + data@.take(n as int),
        ensures
            n == fitting(held, ring.capacity(), data@.len()),
        decreases data@.len() - n,
    {
        let ghost before = ring@;
        assert(before.len() == sent(ring.writer).len() - taken(ring.reader));
        assert(before.len() == held.len() + n);
        if !push(&mut ring.writer, &ring.reader, data[n]) {
            break;
        }
        n = n + 1;
        assert(ring@ =~= before.push(data@[n - 1]));
        assert(data@.take(n as int) =~= data@.take(n - 1).push(data@[n - 1]));
        assert(ring@ =~= held + data@.take(n as int));
    }
    n
}

/// What is read is what was written: from an empty queue with room for it, a
/// reader gets back the samples that were written, in their order, and leaves
/// nothing behind.
pub proof fn ring_round_trip(capacity: nat, data: Seq<u32>)
    requires
        data.len() <= capacity,
    ensures
        served(written(Seq::empty(), capacity, data), data.len()) == data,
        left(written(Seq::empty(), capacity, data), data.len()) == Seq::<u32>::empty(),
{
    assert(written(Seq::empty(), capacity, data) =~= data);
    assert(served(data, data.len()) =~= data);
    assert(left(data, data.len()) =~= Seq::<u32>::empty());
}

/// Samples leave in the order of their coming, however the reads are cut: two
/// reads get what one read of both lengths would have got, whether or not the
/// queue runs dry.
pub proof fn reads_join(held: Seq<u32>, m: nat, n: nat)
    ensures
        served(held, m + n) == served(held, m) + served(left(held, m), n),
        left(held, m + n) == left(left(held, m), n),
{
    assert(served(held, m + n) =~= served(held, m) + served(left(held, m), n));
    assert(left(held, m + n) =~= left(left(held, m), n));
}

/// However the writes are cut, the same samples go in, whether or not the queue
/// runs full.
pub proof fn writes_join(held: Seq<u32>, capacity: nat, a: Seq<u32>, b: Seq<u32>)
    requires
        held.len() <= capacity,
    ensures
        written(held, capacity, a + b) == written(written(held, capacity, a), capacity, b),
{
    let first = written(held, capacity, a);
    if held.len() + a.len() <= capacity {
        assert(first =~= held + a);
    } else {
        assert(first.len() == capacity);
    }
    assert(written(held, capacity, a + b) =~= written(first, capacity, b));
}

/// The level rises by what goes in and falls by what comes out, and never exceeds
/// the room.
pub proof fn level_is_conserved(held: Seq<u32>, capacity: nat, data: Seq<u32>, n: nat)
    requires
        held.len() <= capacity,
    ensures
        written(held, capacity, data).len() == held.len() + fitting(held, capacity, data.len()),
        written(held, capacity, data).len() <= capacity,
        left(held, n).len() == held.len() - smaller(held.len(), n),
{
}

} // verus!
