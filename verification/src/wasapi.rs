//! WASAPI: duplex streams on two clients with a ring in between.
//!
//! Capture and render are two clients, each with a buffer of its own. One thread
//! serves both: whenever the render side wants data, it drains the capture side
//! into the ring, takes from the ring what the render buffer lacks, runs the
//! effects on it and hands it out. This module holds all of that but for the
//! calls into the system: those are made by the caller, who reports what came of
//! them.
use crate::arith::{of_count_is, Arith};
use crate::backend::{AudioBackend, BackendError, LatencyInfo, StreamConfig};
use crate::bits::ZERO;
use crate::line::silence;
use crate::processor::AudioProcessor;
use crate::ring::{
    channel, fitting, left, pop_fill, push_all, served, written, SampleRing,
};
use vstd::prelude::*;
use vstd::string::*;

verus! {

/// Tag of a plain float format.
pub const WAVE_FORMAT_IEEE_FLOAT: u16 = 0x0003;

/// Tag of a format that carries a sub-format.
pub const WAVE_FORMAT_EXTENSIBLE: u16 = 0xFFFE;

/// The sub-format of float samples.
pub const SUBTYPE_IEEE_FLOAT: u128 = 0x0000_0003_0000_0010_8000_00aa_0038_9b71;

/// Flag of a packet before which data was lost.
pub const FLAG_DISCONTINUITY: u32 = 1;

/// Flag of a packet that is to be taken for silence.
pub const FLAG_SILENT: u32 = 2;

/// The mix format of a device, as it describes it.
#[derive(Clone, Copy)]
pub struct MixFormat {
    /// Kind of samples.
    pub tag: u16,
    /// Channels.
    pub channels: u16,
    /// Sample rate in hertz.
    pub sample_rate: u32,
    /// Bytes in a frame.
    pub block_align: u16,
    /// Bits in a sample.
    pub bits: u16,
    /// Sub-format; without meaning unless the tag asks for it.
    pub subformat: u128,
}

/// What is needed of a format.
#[derive(Clone, Copy)]
pub struct Fmt {
    /// Channels.
    pub channels: usize,
    /// Sample rate in hertz.
    pub sample_rate: u32,
    /// Bytes in a frame.
    pub block_align: usize,
}

/// Whether a format has single-precision float samples.
pub open spec fn float32(w: MixFormat) -> bool {
    w.bits == 32 && (w.tag == WAVE_FORMAT_IEEE_FLOAT || (w.tag == WAVE_FORMAT_EXTENSIBLE
        && w.subformat == SUBTYPE_IEEE_FLOAT))
}

/// Whether a format has single-precision float samples.
pub fn is_float32(w: &MixFormat) -> (r: bool)
    ensures
        r == float32(*w),
{
    if w.bits != 32 {
        return false;
    }
    if w.tag == WAVE_FORMAT_IEEE_FLOAT {
        true
    } else if w.tag == WAVE_FORMAT_EXTENSIBLE {
        w.subformat == SUBTYPE_IEEE_FLOAT
    } else {
        false
    }
}

/// What is needed of a format.
pub fn read_fmt(w: &MixFormat) -> (r: Fmt)
    ensures
        r.channels == w.channels,
        r.sample_rate == w.sample_rate,
        r.block_align == w.block_align,
{
    Fmt {
        channels: w.channels as usize,
        sample_rate: w.sample_rate,
        block_align: w.block_align as usize,
    }
}

/// What is needed of the mix format of a device, or why it cannot be used.
pub fn mix_fmt(w: &MixFormat) -> (r: Result<Fmt, String>)
    ensures
        match r {
            Ok(fmt) => float32(*w) && fmt.channels == w.channels && fmt.sample_rate == w.sample_rate
                && fmt.block_align == w.block_align,
            Err(why) => !float32(*w) && why@ == "裝置非 float32 mix format"@,
        },
{
    if is_float32(w) {
        Ok(read_fmt(w))
    } else {
        Err("裝置非 float32 mix format".to_owned())
    }
}

/// The periods that a device offers, in frames.
#[derive(Clone, Copy)]
pub struct Periods {
    /// The default.
    pub default_frames: u32,
    /// The smallest.
    pub min_frames: u32,
}

/// Where the initialisation of a client stands, and so what is to be done next.
#[derive(Clone, Copy)]
pub enum InitStep {
    /// Ask for the periods that the device offers.
    QueryPeriods,
    /// Initialise with a low latency, at the given period.
    LowLatency(Periods),
    /// Initialise a fresh client at the default period.
    Fallback(u32),
    /// Initialised, at the given period.
    Ready(u32),
    /// Not to be initialised.
    Failed,
}

impl InitStep {
    /// What is next once the periods were asked for.
    pub open spec fn queried_is(reply: Option<Periods>) -> InitStep {
        match reply {
            Some(periods) => InitStep::LowLatency(periods),
            None => InitStep::Fallback(0),
        }
    }

    /// What is next once the step was tried: the smallest period is taken if the
    /// device accepts it, the default one otherwise, and nothing comes after that.
    pub open spec fn tried_is(self, ok: bool) -> InitStep {
        match self {
            InitStep::LowLatency(periods) => if ok {
                InitStep::Ready(periods.min_frames)
            } else {
                InitStep::Fallback(periods.default_frames)
            },
            InitStep::Fallback(frames) => if ok {
                InitStep::Ready(frames)
            } else {
                InitStep::Failed
            },
            _ => self,
        }
    }

    /// What is next once the periods were asked for.
    pub fn queried(reply: Option<Periods>) -> (r: InitStep)
        ensures
            r == InitStep::queried_is(reply),
    {
        match reply {
            Some(periods) => InitStep::LowLatency(periods),
            None => InitStep::Fallback(0),
        }
    }

    /// What is next once the step was tried.
    pub fn tried(self, ok: bool) -> (r: InitStep)
        ensures
            r == self.tried_is(ok),
    {
        match self {
            InitStep::LowLatency(periods) => if ok {
                InitStep::Ready(periods.min_frames)
            } else {
                InitStep::Fallback(periods.default_frames)
            },
            InitStep::Fallback(frames) => if ok {
                InitStep::Ready(frames)
            } else {
                InitStep::Failed
            },
            _ => self,
        }
    }
}

/// The smallest period is taken where the device offers and accepts it; in all
/// other cases the default one is tried, and a client fails to initialise only if
/// that is refused too.
pub proof fn default_period_is_the_last_resort(
    reply: Option<Periods>,
    low_latency: bool,
    fallback: bool,
)
    ensures
        ({
            let first = InitStep::queried_is(reply);
            match reply {
                Some(p) if low_latency => first.tried_is(true) == InitStep::Ready(p.min_frames),
                Some(p) => first.tried_is(false).tried_is(fallback) == if fallback {
                    InitStep::Ready(p.default_frames)
                } else {
                    InitStep::Failed
                },
                None => first.tried_is(fallback) == if fallback {
                    InitStep::Ready(0)
                } else {
                    InitStep::Failed
                },
            }
        }),
{
}

/// WASAPI in shared mode.
pub struct WasapiShared {
    /// What it was opened with.
    pub config: StreamConfig,
}

impl AudioBackend for WasapiShared {
    open spec fn known_as() -> Seq<char> {
        "WASAPI-Shared"@
    }

    open spec fn opened_with(&self) -> StreamConfig {
        self.config
    }

    fn name() -> (r: &'static str) {
        "WASAPI-Shared"
    }

    fn open(config: StreamConfig) -> (r: Result<Self, BackendError>)
        ensures
            r is Ok,
    {
        Ok(WasapiShared { config })
    }
}

/// The first channel of interleaved frames.
pub open spec fn first_channel(data: Seq<u32>, channels: int, n: nat) -> Seq<u32> {
    Seq::new(n, |f: int| data[f * channels])
}

/// Every frame of `mono` on each of `channels` channels, interleaved.
pub open spec fn fanned_out(mono: Seq<u32>, channels: int) -> Seq<u32> {
    Seq::new((mono.len() * channels) as nat, |k: int| mono[k / channels])
}

/// Whether `data` holds the first channel of `n` interleaved frames.
pub open spec fn covers(data: Seq<u32>, channels: int, n: int) -> bool {
    n == 0 || (n - 1) * channels < data.len()
}

/// What a packet stands for: silence if it is flagged so, and otherwise its first
/// channel.
pub open spec fn heard(data: Seq<u32>, channels: int, n: nat, flags: u32) -> Seq<u32> {
    if flags & FLAG_SILENT != 0 {
        silence(n)
    } else {
        first_channel(data, channels, n)
    }
}

/// A duplex stream at work.
pub struct Duplex<P> {
    /// The effects.
    pub processor: P,
    /// Between capture and render.
    pub ring: SampleRing,
    /// From capture to ring.
    pub scratch_in: Vec<u32>,
    /// From ring to render.
    pub scratch_out: Vec<u32>,
    /// Format of the capture side.
    pub cap_fmt: Fmt,
    /// Format of the render side.
    pub rnd_fmt: Fmt,
    /// Frames in the render buffer.
    pub rnd_frames: u32,
    /// Whether no packet came yet. The first one is regularly flagged as if data
    /// had been lost before it.
    pub first_packet: bool,
}

/// The larger of the two buffers.
pub open spec fn largest_block(cap_frames: u32, rnd_frames: u32) -> u32 {
    if cap_frames < rnd_frames {
        rnd_frames
    } else {
        cap_frames
    }
}

/// The room in the ring: eight blocks, and not less than 4096 samples.
pub open spec fn ring_room(max_block: u32) -> int {
    if max_block * 8 < 4096 {
        4096
    } else {
        max_block * 8
    }
}

/// Whether a capture and a render client go together: their rates have to be the same.
/// Returns why not.
pub fn go_together(cap_fmt: &Fmt, rnd_fmt: &Fmt) -> (r: Result<(), String>)
    ensures
        match r {
            Ok(()) => cap_fmt.sample_rate == rnd_fmt.sample_rate,
            Err(why) => cap_fmt.sample_rate != rnd_fmt.sample_rate && why@
                == "擷取與輸出取樣率不同，P0 尚未支援 ASRC（請 in/out 用同一介面）"@,
        },
{
    if cap_fmt.sample_rate != rnd_fmt.sample_rate {
        Err("擷取與輸出取樣率不同，P0 尚未支援 ASRC（請 in/out 用同一介面）".to_owned())
    } else {
        Ok(())
    }
}

impl<P: AudioProcessor> Duplex<P> {
    /// Whether the stream is in working order.
    pub open spec fn wf(&self) -> bool {
        &&& self.processor.wf()
        &&& forall|n: nat| n <= self.rnd_frames ==> #[trigger] self.processor.accepts(n)
        &&& self.ring.wf()
        &&& self.scratch_out@.len() == self.rnd_frames
    }

    /// Sets a stream up between a capture and a render client that were
    /// initialised. Returns it with its latency, or why the two do not go
    /// together.
    pub fn new<F: Arith>(
        processor: P,
        cap_fmt: Fmt,
        cap_frames: u32,
        rnd_fmt: Fmt,
        rnd_frames: u32,
    ) -> (r: Result<(Self, LatencyInfo), String>)
        requires
            processor.wf(),
            ring_room(largest_block(cap_frames, rnd_frames)) * 4 <= isize::MAX,
        ensures
            match r {
                Err(why) => cap_fmt.sample_rate != rnd_fmt.sample_rate && why@
                    == "擷取與輸出取樣率不同，P0 尚未支援 ASRC（請 in/out 用同一介面）"@,
                Ok((s, latency)) => {
                    &&& cap_fmt.sample_rate == rnd_fmt.sample_rate
                    &&& s.wf()
                    &&& exists|rate: u32| #[trigger]
                        of_count_is::<F>(rnd_fmt.sample_rate as usize, rate) && processor.prepared(
                            rate,
                            largest_block(cap_frames, rnd_frames) as usize,
                            s.processor,
                        )
                    &&& s.ring@ == silence(rnd_frames as nat)
                    &&& s.ring.capacity() == ring_room(largest_block(cap_frames, rnd_frames))
                    &&& s.scratch_in@.len() == cap_frames
                    &&& s.cap_fmt == cap_fmt
                    &&& s.rnd_fmt == rnd_fmt
                    &&& s.rnd_frames == rnd_frames
                    &&& s.first_packet
                    &&& latency.capture_frames == cap_frames
                    &&& latency.render_frames == rnd_frames
                    &&& latency.ring_frames == s.ring@.len()
                    &&& latency.sample_rate == rnd_fmt.sample_rate
                },
            },
    {
        if let Err(why) = go_together(&cap_fmt, &rnd_fmt) {
            return Err(why);
        }
        let max_block: usize = if cap_frames < rnd_frames {
            rnd_frames as usize
        } else {
            cap_frames as usize
        };
        let mut processor = processor;
        let rate: u32 = F::of_count(rnd_fmt.sample_rate as usize);
        let ghost before = processor;
        processor.prepare(rate, max_block);
        assert(of_count_is::<F>(rnd_fmt.sample_rate as usize, rate) && before.prepared(
            rate,
            max_block,
            processor,
        ));
        let room: usize = if max_block * 8 < 4096 {
            4096
        } else {
            max_block * 8
        };
        let mut ring = channel(room);
        let scratch_in: Vec<u32> = vec![ZERO; cap_frames as usize];
        let scratch_out: Vec<u32> = vec![ZERO; rnd_frames as usize];
        assert(scratch_out@ =~= silence(rnd_frames as nat));
        let _ = push_all(&mut ring, scratch_out.as_slice());
        assert(ring@ =~= silence(rnd_frames as nat));
        let latency = LatencyInfo {
            capture_frames: cap_frames,
            render_frames: rnd_frames,
            ring_frames: rnd_frames,
            sample_rate: rnd_fmt.sample_rate,
        };
        let s = Duplex {
            processor,
            ring,
            scratch_in,
            scratch_out,
            cap_fmt,
            rnd_fmt,
            rnd_frames,
            first_packet: true,
        };
        Ok((s, latency))
    }

    /// What a packet costs: one count for data lost before it, unless it is the
    /// first, and one for data that the ring has no room for.
    pub open spec fn capture_cost(&self, n: nat, flags: u32) -> int {
        (if flags & FLAG_DISCONTINUITY != 0 && !self.first_packet {
            1int
        } else {
            0
        }) + (if fitting(self.ring@, self.ring.capacity(), n) < n {
            1int
        } else {
            0
        })
    }

    /// `after` is `self` once a packet that stands for `mono` was taken in.
    pub open spec fn captured(&self, mono: Seq<u32>, after: Self) -> bool {
        &&& after == Duplex {
            ring: after.ring,
            scratch_in: after.scratch_in,
            first_packet: false,
            ..*self
        }
        &&& after.ring@ == written(self.ring@, self.ring.capacity(), mono)
        &&& after.ring.capacity() == self.ring.capacity()
        &&& after.scratch_in@.len() == self.scratch_in@.len()
    }

    /// Takes in a packet of `n` interleaved frames. Returns how often data was lost.
    pub fn capture(&mut self, data: &[u32], n: usize, flags: u32) -> (xruns: u64)
        requires
            old(self).wf(),
            n <= old(self).scratch_in@.len(),
            flags & FLAG_SILENT == 0 ==> covers(data@, old(self).cap_fmt.channels as int, n as int),
        ensures
            final(self).wf(),
            old(self).captured(
                heard(data@, old(self).cap_fmt.channels as int, n as nat, flags),
                *final(self),
            ),
            xruns == old(self).capture_cost(n as nat, flags),
    {
        let ch: usize = self.cap_fmt.channels;
        let silent: bool = flags & FLAG_SILENT != 0;
        let mut f: usize = 0;
        while f < n
            invariant
                f <= n,
                n <= self.scratch_in@.len(),
                silent == (flags & FLAG_SILENT != 0),
                !silent ==> covers(data@, ch as int, n as int),
                *self == (Duplex { scratch_in: self.scratch_in, ..*old(self) }),
                self.scratch_in@.len() == old(self).scratch_in@.len(),
                forall|k: int|
                    0 <= k < f ==> self.scratch_in@[k] == if silent {
                        ZERO
                    } else {
                        data@[k * ch]
                    },
            decreases n - f,
        {
            if silent {
                self.scratch_in[f] = ZERO;
            } else {
                assert(f * ch <= (n - 1) * ch) by (nonlinear_arith)
                    requires
                        f <= n - 1,
                        0 <= ch,
                ;
                assert(data.len() <= usize::MAX);
                self.scratch_in[f] = data[f * ch];
            }
            f = f + 1;
        }
        let mut xruns: u64 = 0;
        if flags & FLAG_DISCONTINUITY != 0 && !self.first_packet {
            xruns = 1;
        }
        self.first_packet = false;
        let (packet, _) = self.scratch_in.as_slice().split_at(n);
        assert(packet@ =~= heard(data@, ch as int, n as nat, flags));
        let pushed: usize = push_all(&mut self.ring, packet);
        if pushed < n {
            xruns = xruns + 1;
        }
        xruns
    }

    /// How many frames the render buffer lacks, with `padding` frames still in it.
    pub fn lacking(&self, padding: u32) -> (avail: usize)
        ensures
            avail == if padding < self.rnd_frames {
                self.rnd_frames - padding
            } else {
                0
            },
    {
        self.rnd_frames.saturating_sub(padding) as usize
    }

    /// `after` is `self` once `avail` frames were taken from the ring and run
    /// through the effects; they stand at the front of `scratch_out`.
    pub open spec fn rendered(&self, avail: nat, after: Self) -> bool {
        &&& after == Duplex {
            processor: after.processor,
            ring: after.ring,
            scratch_out: after.scratch_out,
            ..*self
        }
        &&& after.ring@ == left(self.ring@, avail)
        &&& after.ring.capacity() == self.ring.capacity()
        &&& after.scratch_out@.len() == self.scratch_out@.len()
        &&& self.processor.processed(
            served(self.ring@, avail),
            after.processor,
            after.scratch_out@.take(avail as int),
        )
    }

    /// Takes `avail` frames from the ring and runs the effects on them. Returns
    /// how often data was missing.
    pub fn render(&mut self, avail: usize) -> (xruns: u64)
        requires
            old(self).wf(),
            avail <= old(self).rnd_frames,
        ensures
            final(self).wf(),
            old(self).rendered(avail as nat, *final(self)),
            xruns == if old(self).ring@.len() < avail {
                1int
            } else {
                0
            },
    {
        let ghost acc = self.processor;
        let (block, _) = self.scratch_out.as_mut_slice().split_at_mut(avail);
        let got: usize = pop_fill(&mut self.ring, block);
        assert(self.processor.accepts(avail as nat));
        self.processor.process(block);
        let ghost played = block@;
        assert(self.scratch_out@.take(avail as int) =~= played);
        assert forall|n: nat| n <= self.rnd_frames implies #[trigger] self.processor.accepts(n) by {
            assert(acc.accepts(n));
        }
        if got < avail {
            1
        } else {
            0
        }
    }

    /// Puts the frames rendered last on all channels of the render buffer.
    pub fn fan_out(&self, avail: usize, out: &mut [u32])
        requires
            self.wf(),
            avail <= self.rnd_frames,
            old(out)@.len() == avail * self.rnd_fmt.channels,
        ensures
            final(out)@ == fanned_out(
                self.scratch_out@.take(avail as int),
                self.rnd_fmt.channels as int,
            ),
    {
        let ch: usize = self.rnd_fmt.channels;
        let total: usize = out.len();
        let ghost mono = self.scratch_out@.take(avail as int);
        let mut f: usize = 0;
        let mut at: usize = 0;
        while f < avail
            invariant
                f <= avail,
                avail <= self.scratch_out@.len(),
                mono == self.scratch_out@.take(avail as int),
                total == out@.len(),
                total == avail * ch,
                at == f * ch,
                forall|k: int| 0 <= k < at ==> out@[k] == mono[k / ch as int],
            decreases avail - f,
        {
            let v: u32 = self.scratch_out[f];
            assert(at + ch <= total) by (nonlinear_arith)
                requires
                    at == f * ch,
                    total == avail * ch,
                    f + 1 <= avail,
            ;
            let mut c: usize = 0;
            while c < ch
                invariant
                    c <= ch,
                    f < avail,
                    mono.len() == avail,
                    v == mono[f as int],
                    total == out@.len(),
                    at == f * ch,
                    at + ch <= total,
                    forall|k: int| 0 <= k < at + c ==> out@[k] == mono[k / ch as int],
                decreases ch - c,
            {
                assert((f * ch + c) / ch as int == f) by (nonlinear_arith)
                    requires
                        0 <= c < ch,
                        0 <= f,
                ;
                out[at + c] = v;
                c = c + 1;
            }
            assert((f + 1) * ch == f * ch + ch) by (nonlinear_arith);
            at = at + ch;
            f = f + 1;
        }
        assert(out@ =~= fanned_out(mono, ch as int));
    }
}

/// A frame goes out on every channel alike.
pub proof fn channels_carry_the_same(mono: Seq<u32>, channels: int, f: int, c: int)
    requires
        0 <= f < mono.len(),
        0 <= c < channels,
    ensures
        f * channels + c < fanned_out(mono, channels).len(),
        fanned_out(mono, channels)[f * channels + c] == mono[f],
{
    assert((f * channels + c) / channels == f && f * channels + c < mono.len() * channels && 0 <= f
        * channels + c) by (nonlinear_arith)
        requires
            0 <= c < channels,
            0 <= f < mono.len(),
    ;
}

/// Taking the first channel undoes the fanning out.
pub proof fn first_channel_of_fanned_out(mono: Seq<u32>, channels: int)
    requires
        0 < channels,
    ensures
        first_channel(fanned_out(mono, channels), channels, mono.len()) == mono,
{
    assert forall|f: int| 0 <= f < mono.len() implies first_channel(
        fanned_out(mono, channels),
        channels,
        mono.len(),
    )[f] == mono[f] by {
        channels_carry_the_same(mono, channels, f, 0);
    }
    assert(first_channel(fanned_out(mono, channels), channels, mono.len()) =~= mono);
}

/// Data is lost only where the ring runs full and missing only where it runs dry:
/// with room for a packet and enough in stock, a round without a flag counts
/// nothing.
pub proof fn steady_rounds_count_nothing<P: AudioProcessor>(
    s: Duplex<P>,
    n: nat,
    flags: u32,
    mono: Seq<u32>,
    mid: Duplex<P>,
    avail: nat,
)
    requires
        s.ring@.len() + n <= s.ring.capacity(),
        flags & FLAG_DISCONTINUITY == 0,
        mono.len() == n,
        s.captured(mono, mid),
        avail <= s.ring@.len() + n,
    ensures
        s.capture_cost(n, flags) == 0,
        mid.ring@ == s.ring@ + mono,
        avail <= mid.ring@.len(),
{
    assert(mono.take(n as int) =~= mono);
}

/// What the render side gets is what the capture side brought, delayed by what
/// the ring held before: with room for the packet, its frames follow the stock in
/// their order.
pub proof fn ring_delays_by_its_level<P: AudioProcessor>(
    s: Duplex<P>,
    mono: Seq<u32>,
    mid: Duplex<P>,
    avail: nat,
    k: int,
)
    requires
        s.ring@.len() + mono.len() <= s.ring.capacity(),
        s.captured(mono, mid),
        0 <= k < mono.len(),
        s.ring@.len() + k < avail,
    ensures
        served(mid.ring@, avail)[s.ring@.len() + k] == mono[k],
{
    assert(mono.take(mono.len() as int) =~= mono);
}

/// How a wait for the render side ended.
#[derive(Clone, Copy, PartialEq, Eq, Debug, Structural)]
pub enum Wake {
    /// It wants data.
    Signalled,
    /// Nothing happened in time.
    TimedOut,
    /// There is nothing to wait for any more.
    Failed,
}

/// What came of the last act.
#[derive(Clone, Copy)]
pub enum Event {
    /// Whether the stream is to stop.
    Stop(bool),
    /// The wait ended.
    Woke(Wake),
    /// The frames in the next packet; none if there is no packet.
    Packet(u32),
    /// The packet was taken in.
    Taken,
    /// How many frames the render buffer lacks.
    Lacking(usize),
    /// The frames were handed out.
    Rendered,
}

/// What the audio thread does next.
#[derive(Clone, Copy, PartialEq, Eq, Debug, Structural)]
pub enum Act {
    /// Look whether the stream is to stop.
    CheckStop,
    /// Wait until the render side wants data, and no longer than a moment.
    Wait,
    /// Ask for the next packet.
    AskPacket,
    /// Take the packet in.
    TakePacket,
    /// Ask how much the render buffer lacks.
    AskLacking,
    /// Render that many frames and hand them out.
    Render(usize),
    /// End.
    Finish,
    /// End on an error.
    Fail,
}

/// What comes next: until it is told to stop, the thread waits for the render
/// side, drains all packets, fills what the render buffer lacks, and starts over.
pub open spec fn follows(event: Event) -> Act {
    match event {
        Event::Stop(stop) => if stop {
            Act::Finish
        } else {
            Act::Wait
        },
        Event::Woke(Wake::Signalled) => Act::AskPacket,
        Event::Woke(Wake::TimedOut) => Act::CheckStop,
        Event::Woke(Wake::Failed) => Act::Fail,
        Event::Packet(frames) => if frames == 0 {
            Act::AskLacking
        } else {
            Act::TakePacket
        },
        Event::Taken => Act::AskPacket,
        Event::Lacking(frames) => if frames == 0 {
            Act::CheckStop
        } else {
            Act::Render(frames)
        },
        Event::Rendered => Act::CheckStop,
    }
}

/// What comes next.
pub fn next(event: Event) -> (act: Act)
    ensures
        act == follows(event),
{
    match event {
        Event::Stop(stop) => if stop {
            Act::Finish
        } else {
            Act::Wait
        },
        Event::Woke(Wake::Signalled) => Act::AskPacket,
        Event::Woke(Wake::TimedOut) => Act::CheckStop,
        Event::Woke(Wake::Failed) => Act::Fail,
        Event::Packet(frames) => if frames == 0 {
            Act::AskLacking
        } else {
            Act::TakePacket
        },
        Event::Taken => Act::AskPacket,
        Event::Lacking(frames) => if frames == 0 {
            Act::CheckStop
        } else {
            Act::Render(frames)
        },
        Event::Rendered => Act::CheckStop,
    }
}

/// Nothing is rendered while packets wait: frames are asked for only once there is
/// no packet left, and handed out only once they were asked for.
pub proof fn packets_are_drained_before_rendering(event: Event)
    ensures
        follows(event) is AskLacking <==> event == Event::Packet(0),
        follows(event) is Render ==> event is Lacking,
        follows(event) is Finish <==> event == Event::Stop(true),
{
}

/// How the start of the audio thread ended: the latency that it reported, the
/// error that it reported, or nothing at all.
pub fn started(report: Option<Result<LatencyInfo, BackendError>>) -> (r: Result<
    LatencyInfo,
    BackendError,
>)
    ensures
        match report {
            Some(result) => r == result,
            None => r is Err && r->Err_0 is Os && r->Err_0->Os_0@ == "音訊執行緒未回報初始化結果"@,
        },
{
    match report {
        Some(result) => result,
        None => Err(BackendError::Os("音訊執行緒未回報初始化結果".to_owned())),
    }
}

/// Every act has its cause: the thread waits only once it has looked whether to stop, takes
/// in only a packet with frames in it, renders exactly what the buffer lacks, and fails
/// only where the wait did.
pub proof fn every_act_has_its_cause(event: Event)
    ensures
        follows(event) is Wait <==> event == Event::Stop(false),
        follows(event) is TakePacket <==> (event matches Event::Packet(n) && n > 0),
        follows(event) is AskPacket <==> event == Event::Woke(Wake::Signalled) || event is Taken,
        follows(event) is Fail <==> event == Event::Woke(Wake::Failed),
        follows(event) is Render <==> (event matches Event::Lacking(n) && n > 0),
        event is Lacking && event->Lacking_0 > 0 ==> follows(event) == Act::Render(
            event->Lacking_0,
        ),
        follows(event) is CheckStop <==> event == Event::Woke(Wake::TimedOut) || event
            == Event::Lacking(0) || event is Rendered,
{
}

/// A packet that is flagged as silent is silence, whatever it holds; of any other the first
/// sample of every frame is heard.
pub proof fn packets_are_heard_on_the_first_channel(
    data: Seq<u32>,
    channels: int,
    n: nat,
    flags: u32,
    f: int,
)
    requires
        0 <= f < n,
    ensures
        heard(data, channels, n, flags).len() == n,
        flags & 2 != 0 ==> heard(data, channels, n, flags)[f] == ZERO,
        flags & 2 == 0 ==> heard(data, channels, n, flags)[f] == data[f * channels],
{
}

/// The ring has room for eight blocks of either side and for 4096 samples, and for no more
/// than one of them calls for.
pub proof fn ring_has_room_for_eight_blocks(cap_frames: u32, rnd_frames: u32)
    ensures
        ({
            let room = ring_room(largest_block(cap_frames, rnd_frames));
            &&& room >= 8 * cap_frames && room >= 8 * rnd_frames && room >= 4096
            &&& room == 8 * cap_frames || room == 8 * rnd_frames || room == 4096
        }),
{
}

/// Lost data is counted once for a gap before a packet, unless it is the first, and once
/// for what finds no room.
pub proof fn losses_are_counted<P: AudioProcessor>(s: Duplex<P>, n: nat, flags: u32)
    requires
        s.ring@.len() <= s.ring.capacity(),
    ensures
        s.first_packet && s.ring@.len() + n <= s.ring.capacity() ==> s.capture_cost(n, flags) == 0,
        !s.first_packet && flags & 1 != 0 && s.ring@.len() + n <= s.ring.capacity()
            ==> s.capture_cost(n, flags) == 1,
        flags & 1 == 0 && s.ring@.len() + n > s.ring.capacity() ==> s.capture_cost(n, flags) == 1,
        !s.first_packet && flags & 1 != 0 && s.ring@.len() + n > s.ring.capacity()
            ==> s.capture_cost(n, flags) == 2,
{
}

} // verus!
