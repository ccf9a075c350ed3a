//! ASIO: duplex streams in a single callback.
//!
//! The driver hands over the input and asks for the output in one call, one
//! buffer per channel and two halves that take turns. Samples come in the format
//! of the driver and are converted on the way in and on the way out.
use crate::arith::{
    of_int_is, product_is, quotient_is, to_full_scale_is, to_int_is, Arith,
};
use crate::backend::{AudioBackend, BackendError, LatencyInfo, StreamConfig};
use crate::bits::{clamp, clamped, neg, negated, not_a_number, ONE, ZERO};
use crate::number::{
    between_is_finite, converts, dyadic, dyadics_are_numbers, exact_results_are_hit, faithful,
    finite, integer, integers_are_numbers, one, power, powers_of_two_are_numbers, rounds,
    rounds_above, rounds_below, rounds_scales, units, units_follow_the_order, units_of_negated,
    units_of_one, whole, whole_numbers_are_numbers,
};
use crate::processor::AudioProcessor;
use vstd::arithmetic::power2::{lemma2_to64, pow2};
use vstd::prelude::*;
use vstd::string::*;

verus! {

/// ASIO.
pub struct AsioBackend {
    /// What it was opened with.
    pub config: StreamConfig,
}

impl AudioBackend for AsioBackend {
    open spec fn known_as() -> Seq<char> {
        "ASIO"@
    }

    open spec fn opened_with(&self) -> StreamConfig {
        self.config
    }

    fn name() -> (r: &'static str) {
        "ASIO"
    }

    fn open(config: StreamConfig) -> (r: Result<Self, BackendError>)
        ensures
            r is Ok,
    {
        Ok(AsioBackend { config })
    }
}

/// The sample types that a driver may announce.
#[derive(Clone, Copy, PartialEq, Eq, Debug, Structural)]
pub enum SampleType {
    /// `ASIOSTInt16MSB`
    Int16Msb,
    /// `ASIOSTInt24MSB`
    Int24Msb,
    /// `ASIOSTInt32MSB`
    Int32Msb,
    /// `ASIOSTFloat32MSB`
    Float32Msb,
    /// `ASIOSTFloat64MSB`
    Float64Msb,
    /// `ASIOSTInt32MSB16`
    Int32Msb16,
    /// `ASIOSTInt32MSB18`
    Int32Msb18,
    /// `ASIOSTInt32MSB20`
    Int32Msb20,
    /// `ASIOSTInt32MSB24`
    Int32Msb24,
    /// `ASIOSTInt16LSB`
    Int16Lsb,
    /// `ASIOSTInt24LSB`
    Int24Lsb,
    /// `ASIOSTInt32LSB`
    Int32Lsb,
    /// `ASIOSTFloat32LSB`
    Float32Lsb,
    /// `ASIOSTFloat64LSB`
    Float64Lsb,
    /// `ASIOSTInt32LSB16`
    Int32Lsb16,
    /// `ASIOSTInt32LSB18`
    Int32Lsb18,
    /// `ASIOSTInt32LSB20`
    Int32Lsb20,
    /// `ASIOSTInt32LSB24`
    Int32Lsb24,
    /// `ASIOSTDSDInt8LSB1`
    DsdInt8Lsb1,
    /// `ASIOSTDSDInt8MSB1`
    DsdInt8Msb1,
    /// `ASIOSTDSDInt8NER8`
    DsdInt8Ner8,
    /// `ASIOSTLastEntry`
    LastEntry,
}

impl SampleType {
    /// The name of the type.
    pub open spec fn known_as(self) -> Seq<char> {
        match self {
            SampleType::Int16Msb => "ASIOSTInt16MSB"@,
            SampleType::Int24Msb => "ASIOSTInt24MSB"@,
            SampleType::Int32Msb => "ASIOSTInt32MSB"@,
            SampleType::Float32Msb => "ASIOSTFloat32MSB"@,
            SampleType::Float64Msb => "ASIOSTFloat64MSB"@,
            SampleType::Int32Msb16 => "ASIOSTInt32MSB16"@,
            SampleType::Int32Msb18 => "ASIOSTInt32MSB18"@,
            SampleType::Int32Msb20 => "ASIOSTInt32MSB20"@,
            SampleType::Int32Msb24 => "ASIOSTInt32MSB24"@,
            SampleType::Int16Lsb => "ASIOSTInt16LSB"@,
            SampleType::Int24Lsb => "ASIOSTInt24LSB"@,
            SampleType::Int32Lsb => "ASIOSTInt32LSB"@,
            SampleType::Float32Lsb => "ASIOSTFloat32LSB"@,
            SampleType::Float64Lsb => "ASIOSTFloat64LSB"@,
            SampleType::Int32Lsb16 => "ASIOSTInt32LSB16"@,
            SampleType::Int32Lsb18 => "ASIOSTInt32LSB18"@,
            SampleType::Int32Lsb20 => "ASIOSTInt32LSB20"@,
            SampleType::Int32Lsb24 => "ASIOSTInt32LSB24"@,
            SampleType::DsdInt8Lsb1 => "ASIOSTDSDInt8LSB1"@,
            SampleType::DsdInt8Msb1 => "ASIOSTDSDInt8MSB1"@,
            SampleType::DsdInt8Ner8 => "ASIOSTDSDInt8NER8"@,
            SampleType::LastEntry => "ASIOSTLastEntry"@,
        }
    }

    /// The name of the type.
    pub fn name(self) -> (r: &'static str)
        ensures
            r@ == self.known_as(),
    {
        match self {
            SampleType::Int16Msb => "ASIOSTInt16MSB",
            SampleType::Int24Msb => "ASIOSTInt24MSB",
            SampleType::Int32Msb => "ASIOSTInt32MSB",
            SampleType::Float32Msb => "ASIOSTFloat32MSB",
            SampleType::Float64Msb => "ASIOSTFloat64MSB",
            SampleType::Int32Msb16 => "ASIOSTInt32MSB16",
            SampleType::Int32Msb18 => "ASIOSTInt32MSB18",
            SampleType::Int32Msb20 => "ASIOSTInt32MSB20",
            SampleType::Int32Msb24 => "ASIOSTInt32MSB24",
            SampleType::Int16Lsb => "ASIOSTInt16LSB",
            SampleType::Int24Lsb => "ASIOSTInt24LSB",
            SampleType::Int32Lsb => "ASIOSTInt32LSB",
            SampleType::Float32Lsb => "ASIOSTFloat32LSB",
            SampleType::Float64Lsb => "ASIOSTFloat64LSB",
            SampleType::Int32Lsb16 => "ASIOSTInt32LSB16",
            SampleType::Int32Lsb18 => "ASIOSTInt32LSB18",
            SampleType::Int32Lsb20 => "ASIOSTInt32LSB20",
            SampleType::Int32Lsb24 => "ASIOSTInt32LSB24",
            SampleType::DsdInt8Lsb1 => "ASIOSTDSDInt8LSB1",
            SampleType::DsdInt8Msb1 => "ASIOSTDSDInt8MSB1",
            SampleType::DsdInt8Ner8 => "ASIOSTDSDInt8NER8",
            SampleType::LastEntry => "ASIOSTLastEntry",
        }
    }
}

/// The formats that samples are converted from and to, the least significant byte
/// first.
#[derive(Clone, Copy, PartialEq, Eq, Debug, Structural)]
pub enum AsioFmt {
    /// 16-bit integers.
    I16,
    /// 24-bit integers in three bytes.
    I24,
    /// 32-bit integers.
    I32,
    /// Single-precision floats.
    F32,
}

/// The format of a sample type, if it is one that can be converted.
pub open spec fn format_of(t: SampleType) -> Option<AsioFmt> {
    match t {
        SampleType::Int16Lsb => Some(AsioFmt::I16),
        SampleType::Int24Lsb => Some(AsioFmt::I24),
        SampleType::Int32Lsb
        | SampleType::Int32Lsb16
        | SampleType::Int32Lsb18
        | SampleType::Int32Lsb20
        | SampleType::Int32Lsb24 => Some(AsioFmt::I32),
        SampleType::Float32Lsb => Some(AsioFmt::F32),
        _ => None,
    }
}

/// The format of a sample type, or why it cannot be converted.
pub fn map_fmt(t: SampleType) -> (r: Result<AsioFmt, BackendError>)
    ensures
        match format_of(t) {
            Some(fmt) => r == Ok::<AsioFmt, BackendError>(fmt),
            None => r is Err && r->Err_0 is UnsupportedFormat && r->Err_0->UnsupportedFormat_0@
                == "ASIO 樣本格式 "@ + t.known_as()
                + " 尚未支援（僅支援 LSB 的 Int16/24/32 與 Float32）"@,
        },
{
    match t {
        SampleType::Int16Lsb => Ok(AsioFmt::I16),
        SampleType::Int24Lsb => Ok(AsioFmt::I24),
        SampleType::Int32Lsb
        | SampleType::Int32Lsb16
        | SampleType::Int32Lsb18
        | SampleType::Int32Lsb20
        | SampleType::Int32Lsb24 => Ok(AsioFmt::I32),
        SampleType::Float32Lsb => Ok(AsioFmt::F32),
        _ => Err(
            BackendError::UnsupportedFormat(
                "ASIO 樣本格式 ".to_owned().concat(t.name()).concat(
                    " 尚未支援（僅支援 LSB 的 Int16/24/32 與 Float32）",
                ),
            ),
        ),
    }
}

/// The name of a format.
pub open spec fn format_name(fmt: AsioFmt) -> Seq<char> {
    match fmt {
        AsioFmt::I16 => "I16"@,
        AsioFmt::I24 => "I24"@,
        AsioFmt::I32 => "I32"@,
        AsioFmt::F32 => "F32"@,
    }
}

/// The name of a format.
pub fn fmt_name(fmt: AsioFmt) -> (r: &'static str)
    ensures
        r@ == format_name(fmt),
{
    match fmt {
        AsioFmt::I16 => "I16",
        AsioFmt::I24 => "I24",
        AsioFmt::I32 => "I32",
        AsioFmt::F32 => "F32",
    }
}

/// Bytes in a sample.
pub open spec fn sample_width(fmt: AsioFmt) -> nat {
    match fmt {
        AsioFmt::I16 => 2,
        AsioFmt::I24 => 3,
        AsioFmt::I32 | AsioFmt::F32 => 4,
    }
}

/// Bytes in a sample.
pub fn width(fmt: AsioFmt) -> (n: usize)
    ensures
        n == sample_width(fmt),
{
    match fmt {
        AsioFmt::I16 => 2,
        AsioFmt::I24 => 3,
        AsioFmt::I32 | AsioFmt::F32 => 4,
    }
}

/// The bytes of sample `frame`.
pub open spec fn sample_bytes(base: Seq<u8>, frame: int, fmt: AsioFmt) -> Seq<u8> {
    let w = sample_width(fmt) as int;
    base.subrange(frame * w, frame * w + w)
}

/// The number that bytes stand for, the least significant first.
pub open spec fn little_endian(bytes: Seq<u8>) -> int
    decreases bytes.len(),
{
    if bytes.len() == 0 {
        0
    } else {
        bytes[0] + 256 * little_endian(bytes.drop_first())
    }
}

/// The number of values that a signed integer of a format can take.
pub open spec fn span(fmt: AsioFmt) -> int {
    match fmt {
        AsioFmt::I16 => 0x1_0000,
        AsioFmt::I24 => 0x100_0000,
        AsioFmt::I32 | AsioFmt::F32 => 0x1_0000_0000,
    }
}

/// The signed integer that bytes stand for.
pub open spec fn signed(bytes: Seq<u8>, fmt: AsioFmt) -> int {
    let v = little_endian(bytes);
    if 2 * v < span(fmt) {
        v
    } else {
        v - span(fmt)
    }
}

/// What an integer sample is divided by.
pub open spec fn full_scale(fmt: AsioFmt) -> u32 {
    match fmt {
        AsioFmt::I16 => 0x4700_0000,
        AsioFmt::I24 => 0x4b00_0000,
        AsioFmt::I32 | AsioFmt::F32 => 0x4f00_0000,
    }
}

/// `r` is a result of reading the sample that `bytes` stand for: a float as it
/// is, an integer over full scale.
pub open spec fn decoded_is<F: Arith>(bytes: Seq<u8>, fmt: AsioFmt, r: u32) -> bool {
    if fmt == AsioFmt::F32 {
        r == little_endian(bytes)
    } else {
        exists|x: u32| #[trigger]
            of_int_is::<F>(signed(bytes, fmt) as i32, x) && quotient_is::<F>(x, full_scale(fmt), r)
    }
}

/// `bytes` hold the lowest bytes of `i` in two's complement, the least significant
/// first.
pub open spec fn encodes(i: int, bytes: Seq<u8>) -> bool
    decreases bytes.len(),
{
    bytes.len() > 0 ==> bytes[0] == i % 256 && encodes(i / 256, bytes.drop_first())
}

/// What a sample is multiplied with to become a 16-bit integer, 32767.
pub const SCALE_I16: u32 = 0x46ff_fe00;

/// What a sample is multiplied with to become a 24-bit integer, 8388607.
pub const SCALE_I24: u32 = 0x4aff_fffe;

/// `i` pulled into the range of 16-bit integers.
pub open spec fn saturated_i16(i: int) -> int {
    if i < -0x8000 {
        -0x8000
    } else if i > 0x7fff {
        0x7fff
    } else {
        i
    }
}

/// `i` is a result of the integer that the sample `v`, within -1 to 1, is stored as.
pub open spec fn quantised_is<F: Arith>(v: u32, fmt: AsioFmt, i: int) -> bool {
    match fmt {
        AsioFmt::F32 => i == v,
        AsioFmt::I32 => exists|n: i32| #[trigger] to_full_scale_is::<F>(v, n) && i == n,
        AsioFmt::I16 => exists|x: u32, n: i32| #[trigger]
            product_is::<F>(v, SCALE_I16, x) && #[trigger] to_int_is::<F>(x, n) && i == saturated_i16(
                n as int,
            ),
        AsioFmt::I24 => exists|x: u32, n: i32| #[trigger]
            product_is::<F>(v, SCALE_I24, x) && #[trigger] to_int_is::<F>(x, n) && i == n,
    }
}

/// `bytes` are a result of storing the sample `v`, pulled into -1 to 1.
pub open spec fn encoded_is<F: Arith>(v: u32, fmt: AsioFmt, bytes: Seq<u8>) -> bool {
    &&& bytes.len() == sample_width(fmt)
    &&& exists|i: int| #[trigger]
        quantised_is::<F>(clamped(v, negated(ONE), ONE), fmt, i) && encodes(i, bytes)
}

/// Two, three and four bytes, written out.
proof fn little_endian_of(bytes: Seq<u8>)
    ensures
        bytes.len() == 2 ==> little_endian(bytes) == bytes[0] + 0x100 * bytes[1],
        bytes.len() == 3 ==> little_endian(bytes) == bytes[0] + 0x100 * bytes[1] + 0x1_0000
            * bytes[2],
        bytes.len() == 4 ==> little_endian(bytes) == bytes[0] + 0x100 * bytes[1] + 0x1_0000
            * bytes[2] + 0x100_0000 * bytes[3],
{
    reveal_with_fuel(little_endian, 5);
    let a = bytes.drop_first();
    let b = a.drop_first();
    let c = b.drop_first();
    if bytes.len() >= 2 {
        assert(a[0] == bytes[1]);
    }
    if bytes.len() >= 3 {
        assert(b[0] == bytes[2]);
    }
    if bytes.len() >= 4 {
        assert(c[0] == bytes[3]);
    }
}

/// Two, three and four bytes, written out.
proof fn encodes_of(i: int, bytes: Seq<u8>)
    ensures
        bytes.len() == 2 ==> (encodes(i, bytes) <==> bytes[0] == i % 256 && bytes[1] == i / 256
            % 256),
        bytes.len() == 3 ==> (encodes(i, bytes) <==> bytes[0] == i % 256 && bytes[1] == i / 256
            % 256 && bytes[2] == i / 256 / 256 % 256),
        bytes.len() == 4 ==> (encodes(i, bytes) <==> bytes[0] == i % 256 && bytes[1] == i / 256
            % 256 && bytes[2] == i / 256 / 256 % 256 && bytes[3] == i / 256 / 256 / 256 % 256),
{
    reveal_with_fuel(encodes, 5);
    let a = bytes.drop_first();
    let b = a.drop_first();
    let c = b.drop_first();
    if bytes.len() >= 2 {
        assert(a[0] == bytes[1]);
    }
    if bytes.len() >= 3 {
        assert(b[0] == bytes[2]);
    }
    if bytes.len() >= 4 {
        assert(c[0] == bytes[3]);
    }
}

/// Reads sample `frame` of a channel.
pub fn read_sample<F: Arith>(base: &[u8], frame: usize, fmt: AsioFmt) -> (r: u32)
    requires
        (frame + 1) * sample_width(fmt) <= base@.len(),
    ensures
        decoded_is::<F>(sample_bytes(base@, frame as int, fmt), fmt, r),
{
    let w: usize = width(fmt);
    let total: usize = base.len();
    assert(frame * w + w <= total) by (nonlinear_arith)
        requires
            (frame + 1) * w <= total,
    ;
    let at: usize = frame * w;
    let ghost bytes = sample_bytes(base@, frame as int, fmt);
    proof {
        little_endian_of(bytes);
    }
    let low: u32 = base[at] as u32 + 0x100 * (base[at + 1] as u32);
    match fmt {
        AsioFmt::F32 => low + 0x1_0000 * (base[at + 2] as u32) + 0x100_0000 * (base[at + 3] as u32),
        AsioFmt::I32 => {
            let v: u32 = low + 0x1_0000 * (base[at + 2] as u32) + 0x100_0000 * (base[at + 3] as u32);
            let i: i32 = if v < 0x8000_0000 {
                v as i32
            } else {
                (v as i64 - 0x1_0000_0000) as i32
            };
            let x: u32 = F::of_int(i);
            assert(of_int_is::<F>(signed(bytes, fmt) as i32, x));
            F::over(x, 0x4f00_0000)
        },
        AsioFmt::I16 => {
            let i: i32 = if low < 0x8000 {
                low as i32
            } else {
                low as i32 - 0x1_0000
            };
            let x: u32 = F::of_int(i);
            assert(of_int_is::<F>(signed(bytes, fmt) as i32, x));
            F::over(x, 0x4700_0000)
        },
        AsioFmt::I24 => {
            let v: u32 = low + 0x1_0000 * (base[at + 2] as u32);
            let i: i32 = if v < 0x80_0000 {
                v as i32
            } else {
                v as i32 - 0x100_0000
            };
            let x: u32 = F::of_int(i);
            assert(of_int_is::<F>(signed(bytes, fmt) as i32, x));
            F::over(x, 0x4b00_0000)
        },
    }
}

/// The integer that a sample within -1 to 1 is stored as, in two's complement.
pub fn quantise<F: Arith>(v: u32, fmt: AsioFmt) -> (u: u32)
    ensures
        exists|i: int| #[trigger]
            quantised_is::<F>(v, fmt, i) && u == i % 0x1_0000_0000,
{
    let i: i64 = match fmt {
        AsioFmt::F32 => v as i64,
        AsioFmt::I32 => {
            let n: i32 = F::to_full_scale(v);
            assert(to_full_scale_is::<F>(v, n));
            n as i64
        },
        AsioFmt::I16 => {
            let x: u32 = F::times(v, SCALE_I16);
            let n: i32 = F::to_int(x);
            assert(product_is::<F>(v, SCALE_I16, x) && to_int_is::<F>(x, n));
            if n < -0x8000 {
                -0x8000
            } else if n > 0x7fff {
                0x7fff
            } else {
                n as i64
            }
        },
        AsioFmt::I24 => {
            let x: u32 = F::times(v, SCALE_I24);
            let n: i32 = F::to_int(x);
            assert(product_is::<F>(v, SCALE_I24, x) && to_int_is::<F>(x, n));
            n as i64
        },
    };
    assert(quantised_is::<F>(v, fmt, i as int));
    if i < 0 {
        (i + 0x1_0000_0000) as u32
    } else {
        i as u32
    }
}

/// An integer and the word that stands for it in two's complement agree in their
/// four lowest bytes.
proof fn word_bytes(i: int, u: int)
    requires
        u == i % 0x1_0000_0000,
    ensures
        i % 256 == u % 256,
        i / 256 % 256 == u / 256 % 256,
        i / 256 / 256 % 256 == u / 256 / 256 % 256,
        i / 256 / 256 / 256 % 256 == u / 256 / 256 / 256 % 256,
{
    let q = i / 0x1_0000_0000;
    assert(i == 0x1_0000_0000 * q + u);
    let (i1, u1) = (i / 256, u / 256);
    assert(i1 == 0x100_0000 * q + u1);
    let (i2, u2) = (i1 / 256, u1 / 256);
    assert(i2 == 0x1_0000 * q + u2);
    let (i3, u3) = (i2 / 256, u2 / 256);
    assert(i3 == 0x100 * q + u3);
}

/// The bytes of a word encode every integer that the word stands for in two's
/// complement.
proof fn word_encodes(i: int, u: int, bytes: Seq<u8>)
    requires
        u == i % 0x1_0000_0000,
        2 <= bytes.len() <= 4,
        bytes[0] == u % 256,
        bytes[1] == u / 256 % 256,
        bytes.len() > 2 ==> bytes[2] == u / 256 / 256 % 256,
        bytes.len() > 3 ==> bytes[3] == u / 256 / 256 / 256 % 256,
    ensures
        encodes(i, bytes),
{
    word_bytes(i, u);
    encodes_of(i, bytes);
}

/// Stores sample `frame` of a channel.
pub fn write_sample<F: Arith>(base: &mut [u8], frame: usize, fmt: AsioFmt, v: u32)
    requires
        (frame + 1) * sample_width(fmt) <= old(base)@.len(),
    ensures
        final(base)@.len() == old(base)@.len(),
        encoded_is::<F>(v, fmt, sample_bytes(final(base)@, frame as int, fmt)),
        forall|k: int|
            0 <= k < old(base)@.len() && !(frame * sample_width(fmt) <= k < frame * sample_width(fmt)
                + sample_width(fmt)) ==> final(base)@[k] == old(base)@[k],
{
    let w: usize = width(fmt);
    let total: usize = base.len();
    assert(frame * w + w <= total) by (nonlinear_arith)
        requires
            (frame + 1) * w <= total,
    ;
    let at: usize = frame * w;
    let u: u32 = quantise::<F>(clamp(v, neg(ONE), ONE), fmt);
    base[at] = (u % 256) as u8;
    base[at + 1] = (u / 256 % 256) as u8;
    if w > 2 {
        base[at + 2] = (u / 256 / 256 % 256) as u8;
    }
    if w > 3 {
        base[at + 3] = (u / 256 / 256 / 256 % 256) as u8;
    }
    proof {
        let bytes = sample_bytes(base@, frame as int, fmt);
        let i = choose|i: int| #[trigger]
            quantised_is::<F>(clamped(v, negated(ONE), ONE), fmt, i) && u == i % 0x1_0000_0000;
        assert(bytes.len() == w);
        assert(forall|k: int| 0 <= k < w ==> bytes[k] == #[trigger] base@[at + k]);
        assert(bytes[0] == base@[at + 0] && bytes[1] == base@[at + 1]);
        assert(w > 2 ==> bytes[2] == base@[at + 2]);
        assert(w > 3 ==> bytes[3] == base@[at + 3]);
        word_encodes(i, u as int, bytes);
    }
}

/// An integer that fits its format survives being stored and read back.
pub proof fn stored_integers_read_back(i: int, fmt: AsioFmt, bytes: Seq<u8>)
    requires
        bytes.len() == sample_width(fmt),
        encodes(i, bytes),
        -span(fmt) <= 2 * i < span(fmt),
    ensures
        signed(bytes, fmt) == i,
{
    encodes_of(i, bytes);
    little_endian_of(bytes);
}

/// A float within -1 to 1 survives being stored and read back.
pub proof fn stored_floats_read_back<F: Arith>(v: u32, bytes: Seq<u8>, r: u32)
    requires
        encoded_is::<F>(v, AsioFmt::F32, bytes),
        decoded_is::<F>(bytes, AsioFmt::F32, r),
    ensures
        r == clamped(v, negated(ONE), ONE),
{
    let i = choose|i: int| #[trigger]
        quantised_is::<F>(clamped(v, negated(ONE), ONE), AsioFmt::F32, i) && encodes(i, bytes);
    encodes_of(i, bytes);
    little_endian_of(bytes);
}

/// A 16-bit sample is always stored as an integer that fits.
pub proof fn stored_i16_fits<F: Arith>(v: u32, i: int)
    requires
        quantised_is::<F>(v, AsioFmt::I16, i),
    ensures
        -span(AsioFmt::I16) <= 2 * i < span(AsioFmt::I16),
{
}

/// The half of the double buffer that a call is about.
pub fn half(index: i32) -> (h: usize)
    ensures
        h == index as int % 2,
{
    if index % 2 == 0 {
        0
    } else {
        1
    }
}

/// A duplex stream at work.
pub struct Callback<P> {
    /// The effects.
    pub processor: P,
    /// Format of the input.
    pub in_fmt: AsioFmt,
    /// Format of the outputs.
    pub out_fmt: AsioFmt,
    /// Samples in a half.
    pub buffer_size: usize,
    /// The block that the effects work on.
    pub scratch: Vec<u32>,
}

/// `mono` are results of reading the first samples of a channel.
pub open spec fn channel_read_is<F: Arith>(base: Seq<u8>, fmt: AsioFmt, mono: Seq<u32>) -> bool {
    forall|f: int|
        0 <= f < mono.len() ==> decoded_is::<F>(
            sample_bytes(base, f, fmt),
            fmt,
            #[trigger] mono[f],
        )
}

/// A channel holds results of storing the samples `mono` at its front.
pub open spec fn channel_written_is<F: Arith>(mono: Seq<u32>, fmt: AsioFmt, base: Seq<u8>) -> bool {
    forall|f: int|
        0 <= f < mono.len() ==> encoded_is::<F>(
            #[trigger] mono[f],
            fmt,
            sample_bytes(base, f, fmt),
        )
}

/// Storing one sample leaves the bytes of the others alone.
proof fn samples_lie_apart(
    before: Seq<u8>,
    after: Seq<u8>,
    fmt: AsioFmt,
    frame: int,
    other: int,
)
    requires
        0 <= other < frame,
        before.len() == after.len(),
        (frame + 1) * sample_width(fmt) <= before.len(),
        forall|k: int|
            0 <= k < before.len() && !(frame * sample_width(fmt) <= k < frame * sample_width(fmt)
                + sample_width(fmt)) ==> after[k] == before[k],
    ensures
        sample_bytes(after, other, fmt) == sample_bytes(before, other, fmt),
{
    let w = sample_width(fmt) as int;
    assert(other * w + w <= frame * w && 0 <= other * w && frame * w + w <= before.len())
        by (nonlinear_arith)
        requires
            0 <= other < frame,
            (frame + 1) * w <= before.len(),
            0 < w,
    ;
    assert(sample_bytes(after, other, fmt) =~= sample_bytes(before, other, fmt));
}

impl<P: AudioProcessor> Callback<P> {
    /// Whether the stream is in working order.
    pub open spec fn wf(&self) -> bool {
        &&& self.processor.wf()
        &&& self.processor.accepts(self.buffer_size as nat)
        &&& self.scratch@.len() == self.buffer_size
    }

    /// Sets a stream up for halves of `buffer_size` samples.
    pub fn new<F: Arith>(
        processor: P,
        in_fmt: AsioFmt,
        out_fmt: AsioFmt,
        sample_rate: u32,
        buffer_size: usize,
    ) -> (r: Self)
        requires
            processor.wf(),
        ensures
            r.wf(),
            exists|rate: u32| #[trigger]
                crate::arith::of_count_is::<F>(sample_rate as usize, rate) && processor.prepared(
                    rate,
                    buffer_size,
                    r.processor,
                ),
            r.in_fmt == in_fmt,
            r.out_fmt == out_fmt,
            r.buffer_size == buffer_size,
    {
        let mut processor = processor;
        let rate: u32 = F::of_count(sample_rate as usize);
        let ghost before = processor;
        processor.prepare(rate, buffer_size);
        assert(crate::arith::of_count_is::<F>(sample_rate as usize, rate) && before.prepared(
            rate,
            buffer_size,
            processor,
        ));
        let scratch: Vec<u32> = vec![ZERO; buffer_size];
        Callback { processor, in_fmt, out_fmt, buffer_size, scratch }
    }

    /// Reads the input and runs the effects on it.
    pub fn take<F: Arith>(&mut self, input: &[u8])
        requires
            old(self).wf(),
            old(self).buffer_size * sample_width(old(self).in_fmt) <= input@.len(),
        ensures
            final(self).wf(),
            *final(self) == (Callback {
                processor: final(self).processor,
                scratch: final(self).scratch,
                ..*old(self)
            }),
            exists|mono: Seq<u32>| #[trigger]
                channel_read_is::<F>(input@, old(self).in_fmt, mono) && mono.len()
                    == old(self).buffer_size && old(self).processor.processed(
                    mono,
                    final(self).processor,
                    final(self).scratch@,
                ),
    {
        let n: usize = self.buffer_size;
        let mut f: usize = 0;
        while f < n
            invariant
                f <= n,
                n == self.buffer_size,
                self.wf(),
                *self == (Callback { scratch: self.scratch, ..*old(self) }),
                n * sample_width(self.in_fmt) <= input@.len(),
                forall|k: int|
                    0 <= k < f ==> decoded_is::<F>(
                        sample_bytes(input@, k, self.in_fmt),
                        self.in_fmt,
                        #[trigger] self.scratch@[k],
                    ),
            decreases n - f,
        {
            let ghost w = sample_width(self.in_fmt);
            assert((f + 1) * w <= n * w) by (nonlinear_arith)
                requires
                    f + 1 <= n,
            ;
            let x: u32 = read_sample::<F>(input, f, self.in_fmt);
            self.scratch[f] = x;
            f = f + 1;
        }
        assert(channel_read_is::<F>(input@, self.in_fmt, self.scratch@));
        self.processor.process(self.scratch.as_mut_slice());
    }

    /// Stores the block processed last in an output channel.
    pub fn give<F: Arith>(&self, output: &mut [u8])
        requires
            self.wf(),
            self.buffer_size * sample_width(self.out_fmt) <= old(output)@.len(),
        ensures
            final(output)@.len() == old(output)@.len(),
            channel_written_is::<F>(self.scratch@, self.out_fmt, final(output)@),
            forall|k: int|
                self.buffer_size * sample_width(self.out_fmt) <= k < old(output)@.len()
                    ==> final(output)@[k] == old(output)@[k],
    {
        let n: usize = self.buffer_size;
        let mut f: usize = 0;
        while f < n
            invariant
                f <= n,
                n == self.buffer_size,
                self.wf(),
                output@.len() == old(output)@.len(),
                n * sample_width(self.out_fmt) <= output@.len(),
                forall|k: int|
                    0 <= k < f ==> encoded_is::<F>(
                        #[trigger] self.scratch@[k],
                        self.out_fmt,
                        sample_bytes(output@, k, self.out_fmt),
                    ),
                forall|k: int|
                    n * sample_width(self.out_fmt) <= k < output@.len() ==> output@[k] == old(
                        output,
                    )@[k],
            decreases n - f,
        {
            let ghost w = sample_width(self.out_fmt);
            let ghost before = output@;
            assert((f + 1) * w <= n * w) by (nonlinear_arith)
                requires
                    f + 1 <= n,
            ;
            write_sample::<F>(output, f, self.out_fmt, self.scratch[f]);
            proof {
                assert(f * w + w == (f + 1) * w) by (nonlinear_arith);
                assert forall|k: int| 0 <= k < f + 1 implies encoded_is::<F>(
                    #[trigger] self.scratch@[k],
                    self.out_fmt,
                    sample_bytes(output@, k, self.out_fmt),
                ) by {
                    if k < f {
                        samples_lie_apart(before, output@, self.out_fmt, f as int, k);
                    }
                }
            }
            f = f + 1;
        }
    }
}

/// An error of the system: what failed, and why.
pub fn failed(what: &str, why: &str) -> (r: BackendError)
    ensures
        r is Os,
        r->Os_0@ == what@ + "："@ + why@,
{
    BackendError::Os(what.to_owned().concat("：").concat(why))
}

/// The driver to load: the one asked for, or else the first there is.
pub fn choose_driver(config: &StreamConfig, names: &Vec<String>) -> (r: Result<
    String,
    BackendError,
>)
    ensures
        match (config.asio_driver, r) {
            (Some(name), Ok(n)) => n@ == name@,
            (None, Ok(n)) => names@.len() > 0 && n@ == names@[0]@,
            (Some(_), Err(_)) => false,
            (None, Err(e)) => names@.len() == 0 && e is Os && e->Os_0@ == "找不到任何 ASIO 驅動"@,
        },
{
    match &config.asio_driver {
        Some(name) => Ok(name.clone()),
        None => if names.len() > 0 {
            Ok(names[0].clone())
        } else {
            Err(BackendError::Os("找不到任何 ASIO 驅動".to_owned()))
        },
    }
}

/// `text` is a display of the count `n`.
pub open spec fn displays_count(n: i32, text: Seq<char>) -> bool {
    exists|s: String| #[trigger] to_string_from_display_ensures::<i32>(&n, s) && s@ == text
}

/// The message for a driver with too few channels.
pub open spec fn too_few(name: Seq<char>, ins: Seq<char>, outs: Seq<char>) -> Seq<char> {
    "ASIO 驅動「"@ + name + "」通道不足（in="@ + ins + " out="@ + outs + "）"@
}

/// How many output channels are served, of a driver with `ins` inputs and `outs`
/// outputs: the front two, or the only one. Without an input or an output the
/// driver is of no use.
pub fn output_channels(name: &str, ins: i32, outs: i32) -> (r: Result<usize, BackendError>)
    ensures
        match r {
            Ok(n) => ins >= 1 && outs >= 1 && n == if outs >= 2 {
                2int
            } else {
                1
            },
            Err(e) => (ins < 1 || outs < 1) && e is Os && exists|a: Seq<char>, b: Seq<char>|
                #[trigger]
                displays_count(ins, a) && #[trigger] displays_count(outs, b) && e->Os_0@ == too_few(
                    name@,
                    a,
                    b,
                ),
        },
{
    if ins < 1 || outs < 1 {
        let a = ins.to_string();
        let b = outs.to_string();
        assert(displays_count(ins, a@) && displays_count(outs, b@));
        let text = "ASIO 驅動「".to_owned().concat(name).concat("」通道不足（in=").concat(
            a.as_str(),
        ).concat(" out=").concat(b.as_str()).concat("）");
        return Err(BackendError::Os(text));
    }
    if outs >= 2 {
        Ok(2)
    } else {
        Ok(1)
    }
}

/// What to do about the sample rate.
#[derive(Clone, Copy, PartialEq, Eq, Debug, Structural)]
pub enum RateStep {
    /// Leave it.
    Keep,
    /// Switch to the rate asked for.
    Switch,
    /// Leave it: the driver does not know the rate asked for.
    Unsupported,
}

/// What to do about the sample rate: nothing if none is asked for or the present
/// one is within a hertz of it; otherwise switch, if the driver can.
pub fn rate_step(asked: u32, apart: bool, supported: bool) -> (r: RateStep)
    ensures
        r == if asked == 0 || !apart {
            RateStep::Keep
        } else if supported {
            RateStep::Switch
        } else {
            RateStep::Unsupported
        },
{
    if asked == 0 || !apart {
        RateStep::Keep
    } else if supported {
        RateStep::Switch
    } else {
        RateStep::Unsupported
    }
}

/// A number of frames reported by a driver; less than none is none.
pub open spec fn reported(frames: i32) -> u32 {
    if frames < 0 {
        0
    } else {
        frames as u32
    }
}

/// The latency of a stream: as the driver reports it for input and output, or the
/// size of a half where it does not. There is no ring.
pub fn latency(report: Option<(i32, i32)>, buffer_size: i32, sample_rate: u32) -> (r: LatencyInfo)
    ensures
        r.capture_frames == match report {
            Some((input, _)) => reported(input),
            None => reported(buffer_size),
        },
        r.render_frames == match report {
            Some((_, output)) => reported(output),
            None => reported(buffer_size),
        },
        r.ring_frames == 0,
        r.sample_rate == sample_rate,
{
    let (input, output): (i32, i32) = match report {
        Some((i, o)) => (i, o),
        None => (buffer_size, buffer_size),
    };
    LatencyInfo {
        capture_frames: if input < 0 {
            0
        } else {
            input as u32
        },
        render_frames: if output < 0 {
            0
        } else {
            output as u32
        },
        ring_frames: 0,
        sample_rate,
    }
}

/// Full scale of an integer format is two to this power.
pub open spec fn depth(fmt: AsioFmt) -> nat {
    match fmt {
        AsioFmt::I16 => 15,
        AsioFmt::I24 => 23,
        AsioFmt::I32 | AsioFmt::F32 => 31,
    }
}

/// A 16-bit or 24-bit integer is read exactly: it is its share of full scale, so that the
/// lowest one is minus one and zero is silence.
pub proof fn integers_are_read_exactly<F: Arith>(bytes: Seq<u8>, fmt: AsioFmt, r: u32)
    requires
        faithful::<F>(),
        converts::<F>(),
        decoded_is::<F>(bytes, fmt, r),
        fmt == AsioFmt::I16 || fmt == AsioFmt::I24,
        -span(fmt) <= 2 * signed(bytes, fmt) < span(fmt),
    ensures
        finite(r),
        units(r) * pow2(depth(fmt)) == signed(bytes, fmt) * one(),
{
    units_of_one();
    lemma2_to64();
    let i = signed(bytes, fmt);
    let j = depth(fmt);
    let x = choose|x: u32| #[trigger]
        of_int_is::<F>(i as i32, x) && quotient_is::<F>(x, full_scale(fmt), r);
    integers_are_numbers(i);
    exact_results_are_hit(i * one(), 1, x, integer(i));
    whole_numbers_are_numbers(0x8000);
    whole_numbers_are_numbers(0x80_0000);
    reveal_with_fuel(whole, 24);
    assert(whole(0x8000) == 0x4700_0000u32 && whole(0x80_0000) == 0x4b00_0000u32);
    let p = pow2(j) as int;
    assert(units(full_scale(fmt)) == p * one());
    dyadics_are_numbers(i, j);
    let d = units(dyadic(i, j));
    assert(d * (p * one()) == (i * one()) * one()) by (nonlinear_arith)
        requires
            d * p == i * one(),
    ;
    assert(p * one() > 0) by (nonlinear_arith)
        requires
            p > 0,
            one() > 0,
    ;
    exact_results_are_hit(units(x) * one(), p * one(), r, dyadic(i, j));
}

/// A sample between minus one and one, scaled and cut to an integer, lands within one of
/// its exact multiple and within the scale.
proof fn scaled_samples_are_cut_next_to_them<F: Arith>(c: u32, s: nat, x: u32, n: i32)
    requires
        faithful::<F>(),
        converts::<F>(),
        0 < s < 0x80_0000,
        product_is::<F>(c, whole(s), x),
        to_int_is::<F>(x, n),
        finite(c),
        -one() <= units(c) <= one(),
    ensures
        -s <= n <= s,
        -one() <= n * one() - units(c) * s <= one(),
{
    units_of_one();
    whole_numbers_are_numbers(s);
    units_of_negated(whole(s));
    let (u, o) = (units(c), one());
    assert(u * (s * o) == (u * s) * o) by (nonlinear_arith);
    assert(rounds(u * s, 1, x)) by {
        rounds_scales(u * s, 1, o, x);
    }
    let k = (u * s) / o;
    assert(k * o <= u * s < (k + 1) * o) by {
        vstd::arithmetic::div_mod::lemma_fundamental_div_mod(u * s, o);
        vstd::arithmetic::div_mod::lemma_mod_bound(u * s, o);
        assert(o * k == k * o) by (nonlinear_arith);
        assert((k + 1) * o == k * o + o) by (nonlinear_arith);
    }
    assert(-s * o <= u * s <= s * o) by (nonlinear_arith)
        requires
            -o <= u <= o,
            s > 0,
    ;
    assert(-s - 1 <= k <= s) by (nonlinear_arith)
        requires
            k * o <= u * s < (k + 1) * o,
            -s * o <= u * s <= s * o,
            o > 0,
    ;
    assert(-s * o == -(s * o)) by (nonlinear_arith);
    assert(s * o < 0x80_0000 * o) by (nonlinear_arith)
        requires
            s < 0x80_0000,
            o > 0,
    ;
    integers_are_numbers(k);
    integers_are_numbers(k + 1);
    rounds_above(u * s, 1, x, integer(k));
    rounds_below(u * s, 1, x, integer(k + 1));
    between_is_finite(integer(k), x, integer(k + 1));
    rounds_below(u * s, 1, x, whole(s));
    rounds_above(u * s, 1, x, negated(whole(s)));
    units_follow_the_order(x, whole(s));
    units_follow_the_order(x, negated(whole(s)));
    let ux = units(x);
    assert(k <= n <= k + 1) by (nonlinear_arith)
        requires
            k * o <= ux <= (k + 1) * o,
            (n - 1) * o < ux < (n + 1) * o,
            o > 0,
    ;
    assert(-s <= n <= s) by (nonlinear_arith)
        requires
            -s * o <= ux <= s * o,
            ux >= 0 ==> 0 <= n * o <= ux,
            ux <= 0 ==> ux <= n * o <= 0,
            o > 0,
    ;
    assert(-o <= n * o - u * s <= o) by (nonlinear_arith)
        requires
            k <= n <= k + 1,
            k * o <= u * s < (k + 1) * o,
            o > 0,
    ;
}

/// A sample survives being stored and read back: in 16 and 24 bits it comes back, pulled
/// into -1 to 1, within two steps of its format.
pub proof fn stored_samples_read_back<F: Arith>(v: u32, fmt: AsioFmt, bytes: Seq<u8>, w: u32)
    requires
        faithful::<F>(),
        converts::<F>(),
        encoded_is::<F>(v, fmt, bytes),
        decoded_is::<F>(bytes, fmt, w),
        fmt == AsioFmt::I16 || fmt == AsioFmt::I24,
        !not_a_number(v),
    ensures
        finite(w),
        -2 * one() <= pow2(depth(fmt)) * (units(w) - units(clamped(v, negated(ONE), ONE))) <= 2
            * one(),
{
    units_of_one();
    units_of_negated(ONE);
    lemma2_to64();
    let c = clamped(v, negated(ONE), ONE);
    units_follow_the_order(c, ONE);
    units_follow_the_order(c, negated(ONE));
    between_is_finite(negated(ONE), c, ONE);
    let i = choose|i: int| #[trigger] quantised_is::<F>(c, fmt, i) && encodes(i, bytes);
    let s: nat = if fmt == AsioFmt::I16 {
        32767
    } else {
        8388607
    };
    assert(whole(32767) == SCALE_I16 && whole(8388607) == SCALE_I24) by {
        reveal_with_fuel(whole, 24);
    }
    let (x, n) = choose|x: u32, n: i32| #[trigger]
        product_is::<F>(c, whole(s), x) && #[trigger] to_int_is::<F>(x, n) && i == (if fmt
            == AsioFmt::I16 {
            saturated_i16(n as int)
        } else {
            n as int
        });
    scaled_samples_are_cut_next_to_them::<F>(c, s, x, n);
    assert(i == n);
    stored_integers_read_back(i, fmt, bytes);
    integers_are_read_exactly::<F>(bytes, fmt, w);
    let (p, uw, u, o) = (pow2(depth(fmt)) as int, units(w), units(c), one());
    assert(-2 * o <= p * (uw - u) <= 2 * o) by (nonlinear_arith)
        requires
            uw * p == n * o,
            -o <= n * o - u * s <= o,
            -o <= u <= o,
            p == s + 1,
    ;
}

/// In 32 bits a sample is stored as its share of the largest integer, within one, and an
/// integer is read over full scale, next to it at every step.
pub proof fn full_integers_are_shares_of_full_scale<F: Arith>(
    v: u32,
    stored: Seq<u8>,
    bytes: Seq<u8>,
    w: u32,
)
    requires
        faithful::<F>(),
        converts::<F>(),
        forall|a: u32, n: i32|
            finite(a) && -one() <= units(a) <= one() && #[trigger] to_full_scale_is::<F>(a, n)
                ==> -one() <= n * one() - 0x7fff_ffff * units(a) <= one(),
        encoded_is::<F>(v, AsioFmt::I32, stored),
        !not_a_number(v),
        decoded_is::<F>(bytes, AsioFmt::I32, w),
        -span(AsioFmt::I32) <= 2 * signed(bytes, AsioFmt::I32) < span(AsioFmt::I32),
    ensures
        -one() <= signed(stored, AsioFmt::I32) * one() - 0x7fff_ffff * units(
            clamped(v, negated(ONE), ONE),
        ) <= one(),
        exists|x: u32|
            #![trigger rounds(units(x), 0x8000_0000, w)]
            rounds(signed(bytes, AsioFmt::I32) * one(), 1, x) && rounds(units(x), 0x8000_0000, w),
{
    units_of_one();
    units_of_negated(ONE);
    lemma2_to64();
    let c = clamped(v, negated(ONE), ONE);
    units_follow_the_order(c, ONE);
    units_follow_the_order(c, negated(ONE));
    between_is_finite(negated(ONE), c, ONE);
    let i = choose|i: int| #[trigger] quantised_is::<F>(c, AsioFmt::I32, i) && encodes(i, stored);
    let n = choose|n: i32| #[trigger] to_full_scale_is::<F>(c, n) && i == n;
    stored_integers_read_back(i, AsioFmt::I32, stored);
    let k = signed(bytes, AsioFmt::I32);
    let x = choose|x: u32| #[trigger]
        of_int_is::<F>(k as i32, x) && quotient_is::<F>(x, full_scale(AsioFmt::I32), w);
    powers_of_two_are_numbers(31);
    assert(power(31) == full_scale(AsioFmt::I32));
    let (o, full) = (one(), full_scale(AsioFmt::I32));
    units_of_negated(full);
    assert(-0x8000_0000 * o <= k * o <= 0x8000_0000 * o) by (nonlinear_arith)
        requires
            -0x8000_0000 <= k <= 0x8000_0000,
            o > 0,
    ;
    rounds_above(k * o, 1, x, negated(full));
    rounds_below(k * o, 1, x, full);
    between_is_finite(negated(full), x, full);
    rounds_scales(units(x), 0x8000_0000, o, w);
}

} // verus!
