//! Impulse responses in WAV files.
//!
//! The `hound` crate takes a file apart; this module picks the first channel and
//! scales integers to the range of samples.
use crate::arith::{of_int_is, of_wide_is, product_is, quotient_is, Arith};
use crate::bits::{ONE, TWO, ZERO};
use crate::number::{
    converts, dyadic, dyadics_are_numbers, exact_results_are_hit, faithful, finite, integer,
    integers_are_numbers, one, power, powers_of_two_are_numbers, units, units_of_one,
};
use vstd::arithmetic::power2::{
    lemma2_to64, lemma2_to64_rest, lemma_pow2_pos, lemma_pow2_strictly_increases, lemma_pow2_unfold,
    pow2,
};
use vstd::prelude::*;
use vstd::string::*;

verus! {

/// The format of a WAV file.
#[derive(Clone, Copy, Debug)]
pub struct WavSpec {
    /// Channels.
    pub channels: u16,
    /// Sample rate in hertz.
    pub sample_rate: u32,
    /// Bits in a sample.
    pub bits_per_sample: u16,
    /// Whether samples are floats, and otherwise integers.
    pub float: bool,
}

/// The format that `hound::WavReader::new` finds in a file, or the text of the
/// error that it reports.
pub uninterp spec fn wav_header(bytes: Seq<u8>) -> Result<WavSpec, Seq<char>>;

/// What `hound::WavReader::samples` yields for the integers of a file: all
/// samples in their order, nothing for those that cannot be read.
pub uninterp spec fn wav_integers(bytes: Seq<u8>) -> Seq<Option<i32>>;

/// `hound::WavReader::new` and `spec` on a file in memory: the same bytes always
/// give the same format or the same error.
#[verifier::external_body]
fn read_header(bytes: &[u8]) -> (r: Result<WavSpec, String>)
    ensures
        match r {
            Ok(spec) => wav_header(bytes@) == Ok::<WavSpec, Seq<char>>(spec),
            Err(why) => wav_header(bytes@) == Err::<WavSpec, Seq<char>>(why@),
        },
{
    let spec = hound::WavReader::new(bytes).map_err(|e| e.to_string())?.spec();
    Ok(
        WavSpec {
            channels: spec.channels,
            sample_rate: spec.sample_rate,
            bits_per_sample: spec.bits_per_sample,
            float: spec.sample_format == hound::SampleFormat::Float,
        },
    )
}

/// `hound::WavReader::samples` for integers, on a file in memory that has a
/// format: the same bytes always give the same samples.
#[verifier::external_body]
fn read_integers(bytes: &[u8]) -> (r: Vec<Option<i32>>)
    requires
        wav_header(bytes@) is Ok,
    ensures
        r@ == wav_integers(bytes@),
{
    match hound::WavReader::new(bytes) {
        Ok(mut reader) => reader.samples::<i32>().map(|s| s.ok()).collect(),
        Err(_) => Vec::new(),
    }
}

/// The channels to step by, at least one.
pub open spec fn stride(channels: u16) -> int {
    if channels < 1 {
        1
    } else {
        channels as int
    }
}

/// How many frames `n` samples make up, a started one counted.
pub open spec fn frames(n: int, step: int) -> int {
    (n + step - 1) / step
}

/// The first channel of interleaved samples, `missing` for those that could not be
/// read.
pub open spec fn first_of<T>(samples: Seq<Option<T>>, step: int, missing: T) -> Seq<T> {
    Seq::new(
        frames(samples.len() as int, step) as nat,
        |i: int|
            match samples[i * step] {
                Some(x) => x,
                None => missing,
            },
    )
}

/// A frame starts before the end of the samples if and only if it is counted.
proof fn frame_starts(n: int, step: int, i: int)
    requires
        step >= 1,
        n >= 0,
        i >= 0,
    ensures
        i * step < n <==> i < frames(n, step),
{
    assert(i * step < n <==> i < (n + step - 1) / step) by (nonlinear_arith)
        requires
            step >= 1,
            n >= 0,
            i >= 0,
    ;
}

/// The first channel of interleaved samples.
pub fn first_channel<T: Copy>(samples: &Vec<Option<T>>, channels: u16, missing: T) -> (r: Vec<T>)
    ensures
        r@ == first_of(samples@, stride(channels), missing),
{
    let step: usize = if channels < 1 {
        1
    } else {
        channels as usize
    };
    let n: usize = samples.len();
    let count: usize = if n == 0 {
        0
    } else {
        (n - 1) / step + 1
    };
    assert(count == frames(n as int, step as int)) by (nonlinear_arith)
        requires
            step >= 1,
            n >= 0,
            n == 0 ==> count == 0,
            n > 0 ==> count == (n - 1) / step as int + 1,
    ;
    let mut r: Vec<T> = Vec::new();
    let mut i: usize = 0;
    while i < count
        invariant
            i <= count,
            n == samples@.len(),
            step == stride(channels),
            count == frames(n as int, step as int),
            r@.len() == i,
            forall|k: int|
                0 <= k < i ==> r@[k] == first_of(samples@, step as int, missing)[k],
        decreases count - i,
    {
        proof {
            frame_starts(n as int, step as int, i as int);
        }
        let x: T = match samples[i * step] {
            Some(x) => x,
            None => missing,
        };
        r.push(x);
        i = i + 1;
    }
    assert(r@ =~= first_of(samples@, step as int, missing));
    r
}

/// `d` is a result of `2^(bits - 1)`, what an integer sample of `bits` bits is divided
/// by. The one of 64 bits, which is no 64-bit integer, is twice that of 63.
pub open spec fn divisor_is<F: Arith>(bits: u16, d: u32) -> bool {
    if bits == 64 {
        exists|half: u32| #[trigger]
            of_wide_is::<F>(pow2(62) as i64, half) && product_is::<F>(TWO, half, d)
    } else {
        of_wide_is::<F>(pow2((bits - 1) as nat) as i64, d)
    }
}

/// `r` is a result of the factor for integers of `bits` bits: one over their
/// divisor.
pub open spec fn norm_is<F: Arith>(bits: u16, r: u32) -> bool {
    exists|d: u32| #[trigger] divisor_is::<F>(bits, d) && quotient_is::<F>(ONE, d, r)
}

/// The factor for integers of `bits` bits.
pub fn norm<F: Arith>(bits: u16) -> (r: u32)
    requires
        1 <= bits <= 64,
    ensures
        norm_is::<F>(bits, r),
{
    let mut d: i64 = 1;
    let mut k: u16 = 1;
    proof {
        lemma2_to64();
    }
    while k < bits && k < 63
        invariant
            1 <= k <= 63,
            k <= bits,
            d == pow2((k - 1) as nat),
        decreases bits - k,
    {
        proof {
            lemma2_to64();
            lemma2_to64_rest();
            vstd::arithmetic::power2::lemma_pow2_unfold(k as nat);
            if k < 62 {
                vstd::arithmetic::power2::lemma_pow2_strictly_increases((k - 1) as nat, 61);
            }
        }
        d = d * 2;
        k = k + 1;
    }
    proof {
        lemma2_to64_rest();
    }
    let power: u32 = F::of_wide(d);
    let x: u32 = if bits == 64 {
        assert(of_wide_is::<F>(pow2(62) as i64, power));
        F::times(TWO, power)
    } else {
        power
    };
    assert(divisor_is::<F>(bits, x));
    F::over(ONE, x)
}

/// Every sample of `scaled` is a result of the integer times `factor`.
pub open spec fn scaled_is<F: Arith>(ints: Seq<i32>, factor: u32, scaled: Seq<u32>) -> bool {
    &&& scaled.len() == ints.len()
    &&& forall|i: int|
        0 <= i < scaled.len() ==> times_is::<F>(ints[i], factor, #[trigger] scaled[i])
}

/// `r` is a result of `i * factor`.
pub open spec fn times_is<F: Arith>(i: i32, factor: u32, r: u32) -> bool {
    exists|x: u32| #[trigger] of_int_is::<F>(i, x) && product_is::<F>(x, factor, r)
}

/// `r` is a result of the first channel of integer samples of `bits` bits, scaled.
pub open spec fn integers_are<F: Arith>(
    samples: Seq<Option<i32>>,
    channels: u16,
    bits: u16,
    r: Seq<u32>,
) -> bool {
    exists|factor: u32| #[trigger]
        norm_is::<F>(bits, factor) && scaled_is::<F>(
            first_of(samples, stride(channels), 0i32),
            factor,
            r,
        )
}

/// The first channel of integer samples, scaled.
pub fn integers<F: Arith>(samples: &Vec<Option<i32>>, channels: u16, bits: u16) -> (r: Vec<u32>)
    requires
        1 <= bits <= 64,
    ensures
        integers_are::<F>(samples@, channels, bits, r@),
{
    let factor: u32 = norm::<F>(bits);
    let ints: Vec<i32> = first_channel(samples, channels, 0i32);
    let mut r: Vec<u32> = Vec::new();
    let mut i: usize = 0;
    while i < ints.len()
        invariant
            i <= ints@.len(),
            r@.len() == i,
            forall|k: int| 0 <= k < i ==> times_is::<F>(ints@[k], factor, #[trigger] r@[k]),
        decreases ints@.len() - i,
    {
        let x: u32 = F::of_int(ints[i]);
        let y: u32 = F::times(x, factor);
        assert(of_int_is::<F>(ints@[i as int], x));
        r.push(y);
        i = i + 1;
    }
    assert(scaled_is::<F>(first_of(samples@, stride(channels), 0i32), factor, r@));
    r
}

/// What becomes of a file.
pub enum Loaded {
    /// An impulse response and its sample rate.
    Ready(Vec<u32>, u32),
    /// A file of float samples, which are still to be read.
    Floats(WavSpec),
    /// A file whose integers are wider than any integer.
    TooWide(u16),
    /// No impulse response, and why.
    Failed(String),
}

/// An impulse response from its samples: there has to be one.
pub fn nonempty(samples: Vec<u32>, sample_rate: u32) -> (r: Loaded)
    ensures
        if samples@.len() == 0 {
            r is Failed && r->Failed_0@ == "檔案沒有樣本"@
        } else {
            r == Loaded::Ready(samples, sample_rate)
        },
{
    if samples.len() == 0 {
        Loaded::Failed("檔案沒有樣本".to_owned())
    } else {
        Loaded::Ready(samples, sample_rate)
    }
}

/// An impulse response from float samples, interleaved, nothing for those that
/// could not be read.
pub fn load_floats(samples: &Vec<Option<u32>>, spec: WavSpec) -> (r: Loaded)
    ensures
        ({
            let mono = first_of(samples@, stride(spec.channels), ZERO);
            match r {
                Loaded::Ready(ir, rate) => mono.len() > 0 && ir@ == mono && rate
                    == spec.sample_rate,
                Loaded::Failed(why) => mono.len() == 0 && why@ == "檔案沒有樣本"@,
                _ => false,
            }
        }),
{
    let mono: Vec<u32> = first_channel(samples, spec.channels, ZERO);
    nonempty(mono, spec.sample_rate)
}

/// An impulse response from integer samples, interleaved, nothing for those that
/// could not be read.
pub fn load_integers<F: Arith>(samples: &Vec<Option<i32>>, spec: WavSpec) -> (r: Loaded)
    requires
        1 <= spec.bits_per_sample <= 64,
    ensures
        integers_loaded::<F>(samples@, spec, r),
{
    let mono: Vec<u32> = integers::<F>(samples, spec.channels, spec.bits_per_sample);
    nonempty(mono, spec.sample_rate)
}

/// `r` is what becomes of a file with these integer samples: the first channel,
/// scaled, unless it is empty.
pub open spec fn integers_loaded<F: Arith>(
    samples: Seq<Option<i32>>,
    spec: WavSpec,
    r: Loaded,
) -> bool {
    let n = frames(samples.len() as int, stride(spec.channels));
    match r {
        Loaded::Ready(ir, rate) => n > 0 && rate == spec.sample_rate && integers_are::<F>(
            samples,
            spec.channels,
            spec.bits_per_sample,
            ir@,
        ),
        Loaded::Failed(why) => n <= 0 && why@ == "檔案沒有樣本"@,
        _ => false,
    }
}

/// Reads an impulse response from a file in memory. Integers are read at once;
/// of a file of floats the format is returned.
pub fn load_ir<F: Arith>(bytes: &[u8]) -> (r: Loaded)
    ensures
        match wav_header(bytes@) {
            Err(why) => r is Failed && r->Failed_0@ == why,
            Ok(spec) => if spec.float {
                r == Loaded::Floats(spec)
            } else if spec.bits_per_sample < 1 || spec.bits_per_sample > 64 {
                r == Loaded::TooWide(spec.bits_per_sample)
            } else {
                integers_loaded::<F>(wav_integers(bytes@), spec, r)
            },
        },
{
    match read_header(bytes) {
        Err(why) => Loaded::Failed(why),
        Ok(spec) => {
            if spec.float {
                return Loaded::Floats(spec);
            }
            if spec.bits_per_sample < 1 || spec.bits_per_sample > 64 {
                return Loaded::TooWide(spec.bits_per_sample);
            }
            let samples = read_integers(bytes);
            load_integers::<F>(&samples, spec)
        },
    }
}

/// A mono file is taken as it is.
pub proof fn mono_is_taken_whole<T>(samples: Seq<Option<T>>, missing: T, i: int)
    requires
        0 <= i < samples.len(),
        samples[i] is Some,
    ensures
        first_of(samples, stride(1), missing).len() == samples.len(),
        first_of(samples, stride(1), missing)[i] == samples[i]->0,
{
}

/// The factor for integers is exact: as often as there are steps up to full scale, it
/// makes one.
pub proof fn factor_is_one_step<F: Arith>(bits: u16, factor: u32)
    requires
        faithful::<F>(),
        converts::<F>(),
        1 <= bits <= 64,
        norm_is::<F>(bits, factor),
    ensures
        finite(factor),
        units(factor) * pow2((bits - 1) as nat) == one(),
{
    units_of_one();
    lemma2_to64();
    lemma2_to64_rest();
    let k = (bits - 1) as nat;
    let d = choose|d: u32| #[trigger] divisor_is::<F>(bits, d) && quotient_is::<F>(ONE, d, factor);
    powers_of_two_are_numbers(k);
    lemma_pow2_pos(k);
    let (p, o) = (pow2(k) as int, one());
    if bits == 64 {
        let half = choose|half: u32| #[trigger]
            of_wide_is::<F>(pow2(62) as i64, half) && product_is::<F>(TWO, half, d);
        powers_of_two_are_numbers(62);
        exact_results_are_hit(pow2(62) * o, 1, half, power(62));
        lemma_pow2_unfold(63);
        let q = pow2(62) as int;
        assert((p * o) * o == (2 * o) * (q * o)) by (nonlinear_arith)
            requires
                p == 2 * q,
        ;
        exact_results_are_hit(units(TWO) * units(half), o, d, power(k));
    } else {
        if k < 62 {
            lemma_pow2_strictly_increases(k, 62);
        }
        assert(pow2(k) as i64 == p);
        exact_results_are_hit(p * o, 1, d, power(k));
    }
    dyadics_are_numbers(1, k);
    let f = units(dyadic(1, k));
    assert(f * (p * o) == o * o) by (nonlinear_arith)
        requires
            f * p == 1 * o,
    ;
    assert(p * o > 0) by (nonlinear_arith)
        requires
            p > 0,
            o > 0,
    ;
    exact_results_are_hit(units(ONE) * o, units(d), factor, dyadic(1, k));
}

/// An integer sample is its share of full scale, exactly where the integer is a number.
pub proof fn integers_become_their_share<F: Arith>(bits: u16, factor: u32, i: i32, r: u32)
    requires
        faithful::<F>(),
        converts::<F>(),
        1 <= bits <= 64,
        norm_is::<F>(bits, factor),
        times_is::<F>(i, factor, r),
        -0x100_0000 < i < 0x100_0000,
    ensures
        finite(r),
        units(r) * pow2((bits - 1) as nat) == i * one(),
{
    units_of_one();
    factor_is_one_step::<F>(bits, factor);
    let k = (bits - 1) as nat;
    let x = choose|x: u32| #[trigger] of_int_is::<F>(i, x) && product_is::<F>(x, factor, r);
    integers_are_numbers(i as int);
    exact_results_are_hit(i * one(), 1, x, integer(i as int));
    dyadics_are_numbers(i as int, k);
    lemma_pow2_pos(k);
    let (p, o, f, d) = (pow2(k) as int, one(), units(factor), units(dyadic(i as int, k)));
    assert(i * o == (i * f) * p) by (nonlinear_arith)
        requires
            f * p == o,
    ;
    assert(d == i * f) by (nonlinear_arith)
        requires
            d * p == (i * f) * p,
            p > 0,
    ;
    assert(d * o == (i * o) * f) by (nonlinear_arith)
        requires
            d == i * f,
    ;
    exact_results_are_hit(units(x) * f, o, r, dyadic(i as int, k));
}

/// The response is the first sample of every frame, as its share of full scale; a frame
/// whose first sample could not be read is silent.
pub proof fn first_channel_is_scaled<F: Arith>(
    samples: Seq<Option<i32>>,
    channels: u16,
    bits: u16,
    r: Seq<u32>,
    i: int,
)
    requires
        faithful::<F>(),
        converts::<F>(),
        integers_are::<F>(samples, channels, bits, r),
        1 <= bits <= 64,
        1 <= channels,
        0 <= i,
        i * channels < samples.len(),
        samples[i * channels] is Some ==> -0x100_0000 < samples[i * channels]->0 < 0x100_0000,
    ensures
        i < r.len(),
        finite(r[i]),
        samples[i * channels] is Some ==> units(r[i]) * pow2((bits - 1) as nat) == samples[i
            * channels]->0 * one(),
        samples[i * channels] is None ==> units(r[i]) == 0,
{
    let factor = choose|factor: u32| #[trigger]
        norm_is::<F>(bits, factor) && scaled_is::<F>(
            first_of(samples, stride(channels), 0i32),
            factor,
            r,
        );
    frame_starts(samples.len() as int, channels as int, i);
    let ints = first_of(samples, stride(channels), 0i32);
    assert(times_is::<F>(ints[i], factor, r[i]));
    integers_become_their_share::<F>(bits, factor, ints[i], r[i]);
    lemma_pow2_pos((bits - 1) as nat);
    if samples[i * channels] is None {
        let (u, p) = (units(r[i]), pow2((bits - 1) as nat) as int);
        assert(u == 0) by (nonlinear_arith)
            requires
                u * p == 0,
                p > 0,
        ;
    }
}

} // verus!
