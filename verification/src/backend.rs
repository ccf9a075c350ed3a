//! What the audio backends have in common.
use crate::arith::{of_count_is, product_is, quotient_is, Arith, MILLIS};
use crate::number::{
    counts, counts_are_exact, faithful, one, rounds, rounds_scales, small_quotients_are_finite,
    units, units_of_one, units_of_thousand,
};
use vstd::prelude::*;
use vstd::string::*;

verus! {

/// What a stream is opened with.
#[derive(Debug)]
pub struct StreamConfig {
    /// Sample rate in hertz.
    pub sample_rate: u32,
    /// Samples in a block, as the effects see it.
    pub block_size: usize,
    /// Channels.
    pub channels: u16,
    /// The capture device; the default one if absent.
    pub capture_id: Option<String>,
    /// The render device; the default one if absent.
    pub render_id: Option<String>,
    /// The ASIO driver; the first one if absent.
    pub asio_driver: Option<String>,
}

/// `r` is a copy of the name `s`, if there is one.
pub open spec fn same_name(s: Option<String>, r: Option<String>) -> bool {
    match s {
        None => r is None,
        Some(name) => r is Some && r->0@ == name@,
    }
}

/// A copy of a name, if there is one.
pub fn copied_name(s: &Option<String>) -> (r: Option<String>)
    ensures
        same_name(*s, r),
{
    match s {
        None => None,
        Some(name) => Some(name.clone()),
    }
}

impl Clone for StreamConfig {
    fn clone(&self) -> (r: Self)
        ensures
            r.sample_rate == self.sample_rate,
            r.block_size == self.block_size,
            r.channels == self.channels,
            same_name(self.capture_id, r.capture_id),
            same_name(self.render_id, r.render_id),
            same_name(self.asio_driver, r.asio_driver),
    {
        StreamConfig {
            sample_rate: self.sample_rate,
            block_size: self.block_size,
            channels: self.channels,
            capture_id: copied_name(&self.capture_id),
            render_id: copied_name(&self.render_id),
            asio_driver: copied_name(&self.asio_driver),
        }
    }
}

impl Default for StreamConfig {
    fn default() -> (r: Self)
        ensures
            r.sample_rate == 48_000,
            r.block_size == 128,
            r.channels == 1,
            r.capture_id is None,
            r.render_id is None,
            r.asio_driver is None,
    {
        StreamConfig {
            sample_rate: 48_000,
            block_size: 128,
            channels: 1,
            capture_id: None,
            render_id: None,
            asio_driver: None,
        }
    }
}

/// The buffers on the way from capture to render.
#[derive(Clone, Copy, Debug)]
pub struct LatencyInfo {
    /// Frames in the capture buffer.
    pub capture_frames: u32,
    /// Frames in the render buffer.
    pub render_frames: u32,
    /// Frames that the ring starts with. The silence put in beforehand is part of
    /// the way that the signal takes.
    pub ring_frames: u32,
    /// Sample rate in hertz.
    pub sample_rate: u32,
}

impl LatencyInfo {
    /// All frames on the way.
    pub open spec fn frames(&self) -> int {
        self.capture_frames + self.render_frames + self.ring_frames
    }

    /// `r` is a result of the milliseconds on the way: `frames / sample_rate * 1000`.
    pub open spec fn buffer_ms_is<F: Arith>(&self, r: u32) -> bool {
        exists|n: u32, rate: u32, secs: u32|
            #![trigger of_count_is::<F>(self.frames() as usize, n), quotient_is::<F>(n, rate, secs)]
            of_count_is::<F>(self.frames() as usize, n) && of_count_is::<F>(
                self.sample_rate as usize,
                rate,
            ) && quotient_is::<F>(n, rate, secs) && product_is::<F>(secs, MILLIS, r)
    }

    /// The milliseconds that the buffers add, drivers and converters left aside.
    pub fn buffer_ms<F: Arith>(&self) -> (r: u32)
        requires
            self.frames() <= u32::MAX,
        ensures
            self.buffer_ms_is::<F>(r),
    {
        let frames: u32 = self.capture_frames + self.render_frames + self.ring_frames;
        let n: u32 = F::of_count(frames as usize);
        let rate: u32 = F::of_count(self.sample_rate as usize);
        let secs: u32 = F::over(n, rate);
        let r: u32 = F::times(secs, MILLIS);
        assert(of_count_is::<F>(self.frames() as usize, n) && quotient_is::<F>(n, rate, secs));
        r
    }
}

/// The backends to choose from.
#[derive(Clone, Copy, PartialEq, Eq, Debug, Structural)]
pub enum BackendKind {
    /// WASAPI in shared mode: works everywhere, at the latency of the system's
    /// audio engine.
    WasapiShared,
    /// WASAPI in exclusive mode: the smallest buffers that the device has, which
    /// it then has for itself.
    WasapiExclusive,
}

impl BackendKind {
    /// The name to show.
    pub open spec fn shown(self) -> Seq<char> {
        match self {
            BackendKind::WasapiShared => "WASAPI 共享"@,
            BackendKind::WasapiExclusive => "WASAPI 獨佔"@,
        }
    }

    /// The name to show.
    pub fn label(self) -> (r: &'static str)
        ensures
            r@ == self.shown(),
    {
        match self {
            BackendKind::WasapiShared => "WASAPI 共享",
            BackendKind::WasapiExclusive => "WASAPI 獨佔",
        }
    }

    /// All of them, in the order in which they are offered.
    pub const ALL: [BackendKind; 2] = [BackendKind::WasapiShared, BackendKind::WasapiExclusive];
}

/// Why a stream could not be opened.
#[derive(Debug)]
pub enum BackendError {
    /// There is no device.
    NoDevice,
    /// The device does not know the format.
    UnsupportedFormat(String),
    /// Someone else has the device for themselves.
    DeviceInUse,
    /// The device is gone.
    DeviceInvalidated,
    /// Anything else.
    Os(String),
}

impl BackendError {
    /// The message to show.
    pub open spec fn shown(&self) -> Seq<char> {
        match self {
            BackendError::NoDevice => "找不到可用的音訊裝置"@,
            BackendError::UnsupportedFormat(what) => "裝置不支援要求的格式："@ + what@,
            BackendError::DeviceInUse => "裝置正被獨佔佔用（Exclusive 模式衝突）"@,
            BackendError::DeviceInvalidated => "裝置已失效（被拔除或驅動更新）"@,
            BackendError::Os(what) => "後端內部錯誤："@ + what@,
        }
    }

    /// The message to show.
    pub fn message(&self) -> (r: String)
        ensures
            r@ == self.shown(),
    {
        match self {
            BackendError::NoDevice => "找不到可用的音訊裝置".to_owned(),
            BackendError::UnsupportedFormat(what) => "裝置不支援要求的格式：".to_owned().concat(
                what.as_str(),
            ),
            BackendError::DeviceInUse => "裝置正被獨佔佔用（Exclusive 模式衝突）".to_owned(),
            BackendError::DeviceInvalidated => "裝置已失效（被拔除或驅動更新）".to_owned(),
            BackendError::Os(what) => "後端內部錯誤：".to_owned().concat(what.as_str()),
        }
    }
}

/// A stream that runs until it is dropped.
pub trait RunningStream {
    /// How often data was lost or missing so far.
    fn xrun_count(&self) -> u64;

    /// The buffers on the way.
    fn latency(&self) -> LatencyInfo;

    /// Whether the audio thread is still at work. If not, it ended on an error,
    /// most often because the device was unplugged.
    fn is_alive(&self) -> bool;
}

/// A way to reach audio devices.
pub trait AudioBackend: Sized {
    /// The name of the backend.
    spec fn known_as() -> Seq<char>;

    /// What the backend was opened with.
    spec fn opened_with(&self) -> StreamConfig;

    /// The name of the backend, for the record and for the screen.
    fn name() -> (r: &'static str)
        ensures
            r@ == Self::known_as(),
    ;

    /// Opens the backend.
    fn open(config: StreamConfig) -> (r: Result<Self, BackendError>)
        ensures
            r is Ok ==> r->Ok_0.opened_with() == config,
    ;
}

/// The buffers take as long as their frames last: all of them together over the rate, in
/// milliseconds.
pub proof fn buffers_take_as_long_as_their_frames<F: Arith>(info: LatencyInfo, r: u32)
    requires
        faithful::<F>(),
        counts::<F>(),
        info.buffer_ms_is::<F>(r),
        0 < info.sample_rate < 0x100_0000,
        info.capture_frames + info.render_frames + info.ring_frames < 0x100_0000,
    ensures
        exists|secs: u32|
            #![trigger rounds(1000 * units(secs), 1, r)]
            rounds(
                (info.capture_frames + info.render_frames + info.ring_frames) * one(),
                info.sample_rate as int,
                secs,
            ) && rounds(1000 * units(secs), 1, r),
{
    units_of_one();
    units_of_thousand();
    let all = info.capture_frames + info.render_frames + info.ring_frames;
    let (n, rate, secs) = choose|n: u32, rate: u32, secs: u32|
        #![trigger of_count_is::<F>(info.frames() as usize, n), quotient_is::<F>(n, rate, secs)]
        of_count_is::<F>(info.frames() as usize, n) && of_count_is::<F>(
            info.sample_rate as usize,
            rate,
        ) && quotient_is::<F>(n, rate, secs) && product_is::<F>(secs, MILLIS, r);
    counts_are_exact::<F>(info.frames() as usize, n);
    counts_are_exact::<F>(info.sample_rate as usize, rate);
    let (o, sr) = (one(), info.sample_rate as int);
    assert(sr * o >= o) by (nonlinear_arith)
        requires
            sr >= 1,
            o > 0,
    ;
    rounds_scales(all * o, sr, o, secs);
    small_quotients_are_finite::<F>(n, rate, secs);
    let u = units(secs);
    assert(u * (1000 * o) == (1000 * u) * o) by (nonlinear_arith);
    rounds_scales(1000 * u, 1, o, r);
}

} // verus!
