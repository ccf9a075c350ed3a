//! The effects, each on its own and in a chain.
use fft_convolver::FFTConvolver;
use rustrig::arith::Arith;
use rustrig::cab::{CabIr, Convolver};
use rustrig::comp::Compressor;
use rustrig::delay::Delay;
use rustrig::drive::{halfband_taps, Drive, Fir};
use rustrig::gate::Gate;
use rustrig::line::Line;
use rustrig::metro::{Metronome, ACCENT_HZ, NORMAL_HZ};
use rustrig::nam::{
    build_failure, is_early_failure, off_pitch, outlook, parse_failure, reach_of_conv,
    reach_of_parts, validate, ArraySizes, Inference, Nam, Outlook, Weighing,
};
use rustrig::param::{block_peak, Gain, MeterHandle, PeakMeter, PitchHandle, SharedParam};
use rustrig::processor::{AudioProcessor, Chain, Passthrough};
use rustrig::reverb::Reverb;
use rustrig::tuner::{pick, Tuner};
use std::f32::consts::TAU;

/// Single-precision arithmetic of the machine.
struct Fpu;

fn f(b: u32) -> f32 {
    f32::from_bits(b)
}

fn b(x: f32) -> u32 {
    x.to_bits()
}

impl Arith for Fpu {
    fn plus(x: u32, y: u32) -> u32 {
        b(f(x) + f(y))
    }
    fn minus(x: u32, y: u32) -> u32 {
        b(f(x) - f(y))
    }
    fn times(x: u32, y: u32) -> u32 {
        b(f(x) * f(y))
    }
    fn over(x: u32, y: u32) -> u32 {
        b(f(x) / f(y))
    }
    fn exp(x: u32) -> u32 {
        b(f(x).exp())
    }
    fn exp10(x: u32) -> u32 {
        b(10f32.powf(f(x)))
    }
    fn log10(x: u32) -> u32 {
        b(f(x).log10())
    }
    fn sqrt(x: u32) -> u32 {
        b(f(x).sqrt())
    }
    fn sin(x: u32) -> u32 {
        b(f(x).sin())
    }
    fn cos(x: u32) -> u32 {
        b(f(x).cos())
    }
    fn tanh(x: u32) -> u32 {
        b(f(x).tanh())
    }
    fn floor(x: u32) -> u32 {
        b(f(x).floor())
    }
    fn round(x: u32) -> u32 {
        b(f(x).round())
    }
    fn of_count(n: usize) -> u32 {
        b(n as f32)
    }
    fn to_count(x: u32) -> usize {
        f(x) as usize
    }
    fn of_int(i: i32) -> u32 {
        b(i as f32)
    }
    fn of_wide(i: i64) -> u32 {
        b(i as f32)
    }
    fn to_int(x: u32) -> i32 {
        f(x) as i32
    }
    fn to_full_scale(x: u32) -> i32 {
        (f(x) as f64 * 2_147_483_647.0) as i32
    }
    fn narrow(x: u64) -> u32 {
        b(f64::from_bits(x) as f32)
    }
}

fn bits(xs: &[f32]) -> Vec<u32> {
    xs.iter().map(|x| x.to_bits()).collect()
}

fn floats(xs: &[u32]) -> Vec<f32> {
    xs.iter().map(|x| f(*x)).collect()
}

fn param(x: f32) -> SharedParam {
    SharedParam::new(b(x))
}

/// Runs a block of numbers through a unit.
fn run<P: AudioProcessor>(unit: &mut P, xs: &[f32]) -> Vec<f32> {
    let mut buf = bits(xs);
    unit.process(&mut buf);
    floats(&buf)
}

fn sine(amp: f32, hz: f32, n: usize) -> Vec<f32> {
    (0..n).map(|i| amp * (TAU * hz * i as f32 / 48_000.0).sin()).collect()
}

/// The partitioned convolution of `fft_convolver`.
struct Fft {
    conv: FFTConvolver<f32>,
    wet: Vec<f32>,
}

impl Convolver for Fft {
    fn idle() -> Self {
        Fft { conv: FFTConvolver::default(), wet: Vec::new() }
    }
    fn init(mut self, partition: usize, ir: &Vec<u32>, max_block: usize) -> (Self, bool) {
        let ok = self.conv.init(partition, &floats(ir)).is_ok();
        self.wet = vec![0.0; max_block];
        (self, ok)
    }
    fn convolve(mut self, input: &[u32]) -> (Self, bool) {
        let n = input.len();
        let ok = self.conv.process(&floats(input), &mut self.wet[..n]).is_ok();
        (self, ok)
    }
    fn sample(&self, i: usize) -> u32 {
        b(self.wet[i])
    }
    fn reset(mut self) -> Self {
        self.conv.reset();
        self
    }
}

/// Runs networks of `nam_rs`.
struct Network;

impl Inference for Network {
    fn infer(mut model: nam_rs::Model, io: Vec<u32>) -> (nam_rs::Model, Vec<u32>) {
        let mut xs = floats(&io);
        model.process_buffer(&mut xs);
        (model, bits(&xs))
    }
}

// Passthrough, chain, volume, meter

#[test]
fn passthrough_is_identity() {
    let mut p = Passthrough;
    p.prepare(b(48_000.0), 128);
    let before = [0.1, -0.5, 0.9, -1.0];
    let after = run(&mut p, &before);
    assert_eq!(after, before);
}

#[test]
fn empty_chain_is_identity() {
    let mut c: Chain<Passthrough> = Chain::new();
    c.prepare(b(48_000.0), 128);
    let before = [0.2, 0.4, -0.3];
    let after = run(&mut c, &before);
    assert_eq!(after, before);
}

#[test]
fn gain_converges_to_target() {
    let p = param(0.5);
    let mut g = Gain::<Fpu>::new(p.clone());
    g.prepare(b(48_000.0), 4800);
    let buf = run(&mut g, &vec![1.0f32; 4800]);
    assert!((buf[4799] - 0.5).abs() < 1e-3, "tail={}", buf[4799]);
}

#[test]
fn meter_reports_block_peak_and_resets() {
    let h = MeterHandle::new();
    let mut m = PeakMeter::new(h.clone());
    m.prepare(b(48_000.0), 8);
    let buf = run(&mut m, &[0.1, -0.7, 0.3, 0.0]);
    assert_eq!(buf, [0.1, -0.7, 0.3, 0.0]);
    assert!((f(h.take_peak()) - 0.7).abs() < 1e-6);
    assert_eq!(f(h.take_peak()), 0.0);
}

#[test]
fn a_chain_runs_its_stages_in_order() {
    // Two volumes in a row multiply; a chain of chains works like one chain.
    let mut inner: Chain<Gain<Fpu>> = Chain::new();
    inner.push(Gain::new(param(0.5)));
    let mut outer: Chain<Chain<Gain<Fpu>>> = Chain::new();
    outer.push(inner);
    let mut second: Chain<Gain<Fpu>> = Chain::new();
    second.push(Gain::new(param(0.25))).push(Gain::new(param(2.0)));
    outer.push(second);
    outer.prepare(b(48_000.0), 4);
    assert_eq!(run(&mut outer, &[1.0, -2.0]), [0.25, -0.5]);
}

#[test]
fn a_chain_without_stages_hands_through() {
    let mut chain: Chain<Passthrough> = Chain::default();
    chain.prepare(b(48_000.0), 4);
    assert_eq!(run(&mut chain, &[0.5, -0.25]), [0.5, -0.25]);
}

/// Plays a block, resets, and plays it again.
fn plays_the_same_after_a_reset<P: AudioProcessor>(mut unit: P) {
    let xs = sine(0.8, 220.0, 4096);
    unit.prepare(b(48_000.0), 4096);
    let first = run(&mut unit, &xs);
    assert_ne!(first, xs);
    run(&mut unit, &xs[..1000]);
    unit.reset();
    assert_eq!(run(&mut unit, &xs), first);
}

#[test]
fn a_reset_forgets_what_was_played() {
    plays_the_same_after_a_reset(Gate::<Fpu>::new(param(0.5), param(1.0)));
    plays_the_same_after_a_reset(Compressor::<Fpu>::new(param(0.7), param(6.0), param(1.0)));
    plays_the_same_after_a_reset(Drive::<Fpu>::new(param(20.0), param(4000.0), param(1.0)));
    plays_the_same_after_a_reset(Reverb::<Fpu>::new(param(0.5), param(1.0)));
    plays_the_same_after_a_reset(Delay::<Fpu>::new(
        param(20.0),
        param(0.4),
        param(0.5),
        param(1.0),
    ));
    plays_the_same_after_a_reset(Metronome::<Fpu>::new(param(120.0), param(0.5), param(1.0)));
}

#[test]
fn a_reset_tuner_reads_as_a_fresh_one() {
    let xs = sine(0.8, 220.0, 3000);
    let handle = PitchHandle::new();
    let mut tuner = Tuner::<Fpu>::new(param(1.0), handle.clone());
    tuner.prepare(b(48_000.0), 4096);
    run(&mut tuner, &xs);
    let first = handle.read();
    assert!(f(first) > 200.0);
    run(&mut tuner, &sine(0.8, 330.0, 2600));
    tuner.reset();
    assert_eq!(f(handle.read()), 0.0);
    // A window that is not full gives no reading.
    run(&mut tuner, &xs[..2047]);
    assert_eq!(f(handle.read()), 0.0);
    run(&mut tuner, &xs[2047..]);
    assert_eq!(handle.read(), first);
}

#[test]
fn cutting_a_block_in_two_changes_nothing() {
    let xs = sine(0.8, 220.0, 512);
    let mut whole = Drive::<Fpu>::new(param(20.0), param(4000.0), param(1.0));
    let mut cut = Drive::<Fpu>::new(param(20.0), param(4000.0), param(1.0));
    whole.prepare(b(48_000.0), 512);
    cut.prepare(b(48_000.0), 512);
    let a = run(&mut whole, &xs);
    let mut c = run(&mut cut, &xs[..100]);
    c.extend(run(&mut cut, &xs[100..]));
    assert_eq!(a, c);
}

#[test]
fn peaks_of_blocks_accumulate() {
    assert_eq!(f(block_peak(&bits(&[0.25, -0.5]))), 0.5);
    assert_eq!(f(block_peak(&[])), 0.0);
    assert_eq!(f(block_peak(&bits(&[f32::NAN, 0.125]))), 0.125);
    let h = MeterHandle::new();
    let mut m = PeakMeter::new(h.clone());
    run(&mut m, &[0.25]);
    run(&mut m, &[-0.75]);
    run(&mut m, &[0.5]);
    assert_eq!(f(m.peak), 0.5);
    assert_eq!(f(h.take_peak()), 0.75);
}

// Gate

#[test]
fn closed_on_quiet_noise() {
    let mut g = Gate::<Fpu>::new(param(1.0), param(1.0));
    g.prepare(b(48_000.0), 512);
    let buf = run(&mut g, &vec![0.0001f32; 48_000]);
    assert!(buf.last().unwrap().abs() < 1e-5);
}

#[test]
fn opens_for_loud_signal() {
    let mut g = Gate::<Fpu>::new(param(0.5), param(1.0));
    g.prepare(b(48_000.0), 4096);
    let buf = run(&mut g, &sine(0.8, 220.0, 4096));
    assert!(buf[2048..].iter().any(|s| s.abs() > 0.5));
}

#[test]
fn gate_bypass_when_disabled() {
    let mut g = Gate::<Fpu>::new(param(1.0), param(0.0));
    g.prepare(b(48_000.0), 8);
    let before = [0.0001f32; 8];
    assert_eq!(run(&mut g, &before), before);
}

#[test]
fn gate_at_zero_does_nothing() {
    let mut g = Gate::<Fpu>::new(param(0.0), param(1.0));
    g.prepare(b(48_000.0), 8);
    let before = [0.0001f32, -0.5];
    assert_eq!(run(&mut g, &before), before);
}

// Compressor

#[test]
fn comp_bypass_when_disabled() {
    let mut c = Compressor::<Fpu>::new(param(1.0), param(12.0), param(0.0));
    c.prepare(b(48_000.0), 8);
    let before = [0.5f32, -0.7, 0.9, -0.2];
    assert_eq!(run(&mut c, &before), before);
}

#[test]
fn compresses_loud_signal() {
    let mut c = Compressor::<Fpu>::new(param(1.0), param(0.0), param(1.0));
    c.prepare(b(48_000.0), 48_000);
    let buf = run(&mut c, &vec![0.8f32; 48_000]);
    assert!(buf.last().unwrap().abs() < 0.7, "tail={}", buf.last().unwrap());
    assert!(buf.iter().all(|s| s.is_finite()));
}

#[test]
fn quiet_signal_passes_through() {
    let mut c = Compressor::<Fpu>::new(param(1.0), param(0.0), param(1.0));
    c.prepare(b(48_000.0), 4800);
    let buf = run(&mut c, &vec![0.001f32; 4800]);
    assert!((buf.last().unwrap() - 0.001).abs() < 1e-4);
}

// Drive

#[test]
fn silence_in_silence_out() {
    let mut d = Drive::<Fpu>::new(param(20.0), param(4000.0), param(1.0));
    d.prepare(b(48_000.0), 256);
    let buf = run(&mut d, &vec![0.0f32; 256]);
    assert!(buf.iter().all(|s| s.abs() < 1e-6));
}

#[test]
fn bypass_leaves_signal_untouched() {
    let mut d = Drive::<Fpu>::new(param(20.0), param(4000.0), param(0.0));
    d.prepare(b(48_000.0), 8);
    let before = [0.5f32, -0.5, 0.25, -0.25];
    assert_eq!(run(&mut d, &before), before);
}

#[test]
fn output_is_bounded_even_at_max_drive() {
    let mut d = Drive::<Fpu>::new(param(40.0), param(8000.0), param(1.0));
    d.prepare(b(48_000.0), 4096);
    let xs: Vec<f32> = (0..4096).map(|i| (TAU * 220.0 * i as f32 / 48_000.0).sin()).collect();
    let buf = run(&mut d, &xs);
    assert!(buf.iter().all(|s| s.is_finite() && s.abs() <= 1.5));
    assert!(buf[2048..].iter().any(|s| s.abs() > 0.01));
}

#[test]
fn halfband_filter_is_even_and_keeps_steady_signals() {
    let taps = floats(&halfband_taps::<Fpu>());
    assert_eq!(taps.len(), 31);
    assert!((taps.iter().sum::<f32>() - 1.0).abs() < 1e-5);
    for k in 0..15 {
        assert!((taps[k] - taps[30 - k]).abs() < 1e-6);
    }
    // A filter with a single tap in the middle delays.
    let mut fir = Fir::new(bits(&[0.0, 0.0, 1.0]));
    let out: Vec<f32> = [1.0, 2.0, 3.0, 4.0].iter().map(|x| f(fir.tick::<Fpu>(b(*x)))).collect();
    assert_eq!(out, [0.0, 0.0, 1.0, 2.0]);
}

// Cabinet

#[test]
fn unit_impulse_ir_is_identity() {
    let mut cab = CabIr::<Fpu, Fft>::new(bits(&[1.0]), 48_000, param(1.0));
    cab.prepare(b(48_000.0), 64);
    let before: Vec<f32> = (0..64).map(|i| (i as f32 * 0.1).sin() * 0.5).collect();
    let buf = run(&mut cab, &before);
    for (a, b) in buf.iter().zip(before.iter()) {
        assert!((a - b).abs() < 1e-4, "{a} vs {b}");
    }
}

#[test]
fn empty_ir_passes_through() {
    let mut cab = CabIr::<Fpu, Fft>::new(Vec::new(), 48_000, param(1.0));
    cab.prepare(b(48_000.0), 64);
    let before = [0.3f32, -0.3, 0.6];
    assert_eq!(run(&mut cab, &before), before);
}

#[test]
fn resamples_when_rates_differ() {
    let ir: Vec<f32> = (0..441).map(|i| if i == 0 { 1.0 } else { 0.0 }).collect();
    let mut cab = CabIr::<Fpu, Fft>::new(bits(&ir), 44_100, param(1.0));
    cab.prepare(b(48_000.0), 128);
    let buf = run(&mut cab, &vec![0.5f32; 128]);
    assert!(buf.iter().all(|s| s.is_finite()));
    assert!(buf.iter().any(|s| s.abs() > 0.01));
}

#[test]
fn impulse_responses_are_brought_to_the_rate() {
    // Twice the rate: twice the samples, the new ones half way between the old.
    let cab = CabIr::<Fpu, Fft>::new(bits(&[3.0, 0.0, 4.0]), 24_000, param(1.0));
    let ir = floats(&cab.build_ir(b(48_000.0)));
    assert_eq!(ir.len(), 6);
    let energy: f32 = ir.iter().map(|x| x * x).sum();
    assert!((energy - 1.0).abs() < 1e-5);
    assert!((ir[1] / ir[0] - 0.5).abs() < 1e-6);
    assert_eq!(ir[2], 0.0);
    // More than a second is cut off, and silence stays silence.
    let long = CabIr::<Fpu, Fft>::new(vec![0; 3000], 1000, param(1.0));
    assert_eq!(long.build_ir(b(1000.0)), vec![0; 1000]);
}

#[test]
fn disabled_cab_hands_the_signal_through() {
    let mut cab = CabIr::<Fpu, Fft>::new(bits(&[0.0, 1.0]), 48_000, param(0.0));
    cab.prepare(b(48_000.0), 4);
    assert_eq!(run(&mut cab, &[0.5, 0.25]), [0.5, 0.25]);
    // Switched on, the response delays by one sample.
    cab.enabled.set(b(1.0));
    let buf = run(&mut cab, &[0.5, 0.25, 0.0]);
    assert!(buf[0].abs() < 1e-6 && (buf[1] - 0.5).abs() < 1e-5 && (buf[2] - 0.25).abs() < 1e-5);
    // After a reset nothing of the past is left.
    cab.reset();
    let buf = run(&mut cab, &[0.0, 0.0]);
    assert!(buf.iter().all(|s| s.abs() < 1e-6));
}

// Delay

fn delay(time_ms: f32, fb: f32, mix: f32, on: f32) -> Delay<Fpu> {
    Delay::new(param(time_ms), param(fb), param(mix), param(on))
}

#[test]
fn delay_bypass_when_disabled() {
    let mut d = delay(200.0, 0.5, 0.5, 0.0);
    d.prepare(b(48_000.0), 64);
    let before = [0.5f32, -0.3, 0.2, -0.1];
    assert_eq!(run(&mut d, &before), before);
}

#[test]
fn echo_appears_after_delay_time() {
    let mut d = delay(10.0, 0.0, 1.0, 1.0);
    d.prepare(b(48_000.0), 4096);
    let mut xs = vec![0.0f32; 4096];
    xs[0] = 1.0;
    let buf = run(&mut d, &xs);
    let echo_region = &buf[300..700];
    assert!(echo_region.iter().any(|s| s.abs() > 0.3), "no echo");
    assert!(buf.iter().all(|s| s.is_finite()));
    // To the sample: ten milliseconds are 480 samples.
    assert_eq!(buf[480], 1.0);
}

#[test]
fn feedback_sustains_and_stays_bounded() {
    let mut d = delay(5.0, 0.7, 1.0, 1.0);
    d.prepare(b(48_000.0), 8192);
    let mut xs = vec![0.0f32; 8192];
    for s in xs.iter_mut().take(240) {
        *s = 0.5;
    }
    let buf = run(&mut d, &xs);
    assert!(buf[4000..].iter().any(|s| s.abs() > 1e-3), "feedback dies");
    assert!(buf.iter().all(|s| s.is_finite() && s.abs() < 10.0), "feedback grows");
}

#[test]
fn delay_without_a_ring_hands_the_signal_through() {
    let mut d = delay(10.0, 0.5, 1.0, 1.0);
    assert_eq!(run(&mut d, &[0.5, -0.5]), [0.5, -0.5]);
    d.prepare(b(48_000.0), 8);
    let mut xs = vec![0.0f32; 500];
    xs[0] = 1.0;
    run(&mut d, &xs);
    d.reset();
    assert!(run(&mut d, &vec![0.0; 600]).iter().all(|s| *s == 0.0));
}

// Reverb

#[test]
fn dry_when_mix_zero() {
    let mut r = Reverb::<Fpu>::new(param(0.0), param(1.0));
    r.prepare(b(48_000.0), 256);
    let before = [0.5f32, -0.3, 0.2, -0.1];
    assert_eq!(run(&mut r, &before), before);
}

#[test]
fn produces_tail_after_impulse() {
    let mut r = Reverb::<Fpu>::new(param(1.0), param(1.0));
    r.prepare(b(48_000.0), 8192);
    let mut xs = vec![0.0f32; 8192];
    xs[0] = 1.0;
    let buf = run(&mut r, &xs);
    assert!(buf[4000..].iter().any(|s| s.abs() > 1e-4));
    assert!(buf.iter().all(|s| s.is_finite()));
}

#[test]
fn reverb_bypass_when_disabled() {
    let mut r = Reverb::<Fpu>::new(param(1.0), param(0.0));
    r.prepare(b(48_000.0), 16);
    let before = [0.5f32; 16];
    assert_eq!(run(&mut r, &before), before);
}

// Tuner

fn run_sine(freq: f32) -> f32 {
    let h = PitchHandle::new();
    let mut t = Tuner::<Fpu>::new(param(1.0), h.clone());
    t.prepare(b(48_000.0), 1024);
    run(&mut t, &sine(0.5, freq, 8192));
    f(h.read())
}

#[test]
fn detects_a3_220hz() {
    let f = run_sine(220.0);
    assert!((f - 220.0).abs() < 3.0, "found={f}");
}

#[test]
fn detects_low_e_82hz() {
    let f = run_sine(82.41);
    assert!((f - 82.41).abs() < 2.0, "found={f}");
}

#[test]
fn silence_reports_no_pitch() {
    let h = PitchHandle::new();
    let mut t = Tuner::<Fpu>::new(param(1.0), h.clone());
    t.prepare(b(48_000.0), 1024);
    run(&mut t, &vec![0.0f32; 8192]);
    assert_eq!(f(h.read()), 0.0);
}

#[test]
fn passes_signal_through_unchanged() {
    let h = PitchHandle::new();
    let mut t = Tuner::<Fpu>::new(param(1.0), h);
    t.prepare(b(48_000.0), 16);
    let before = [0.1f32, -0.4, 0.7, -0.2, 0.9];
    assert_eq!(run(&mut t, &before), before);
}

#[test]
fn disabled_does_not_detect() {
    let h = PitchHandle::new();
    let mut t = Tuner::<Fpu>::new(param(0.0), h.clone());
    t.prepare(b(48_000.0), 1024);
    run(&mut t, &sine(0.5, 220.0, 8192));
    assert_eq!(f(h.read()), 0.0);
}

#[test]
fn readings_wait_for_the_window_and_keep_their_distance() {
    let mut t = Tuner::<Fpu>::new(param(1.0), PitchHandle::new());
    t.prepare(b(48_000.0), 1024);
    assert_eq!(t.decim, 4);
    let mut at: Vec<usize> = Vec::new();
    for (i, x) in sine(0.5, 220.0, 4096).iter().enumerate() {
        if t.hear(b(*x)).is_some() {
            at.push(i);
        }
    }
    assert_eq!(at, [2047, 2559, 3071, 3583, 4095]);
}

#[test]
fn readings_do_not_depend_on_the_blocks() {
    let xs = sine(0.5, 220.0, 4096);
    let mut found: Vec<u32> = Vec::new();
    for size in [1usize, 7, 512, 4096] {
        let h = PitchHandle::new();
        let mut t = Tuner::<Fpu>::new(param(1.0), h.clone());
        t.prepare(b(48_000.0), 4096);
        for block in xs.chunks(size) {
            run(&mut t, block);
        }
        assert_eq!(h.read(), t.shown);
        found.push(h.read());
        t.reset();
        assert_eq!(f(h.read()), 0.0);
    }
    assert!(found.iter().all(|hz| *hz == found[0] && f(*hz) > 200.0));
}

#[test]
fn nothing_above_the_limit_is_reported() {
    for hz in [1450.0, 1500.0, 2000.0, 3000.0, 6000.0] {
        let found = run_sine(hz);
        assert!(found <= 1400.0, "{hz} found={found}");
    }
    assert!((run_sine(1300.0) - 1300.0).abs() < 40.0);
}

#[test]
fn one_half_is_still_off() {
    let before = [0.0001f32; 8];
    let mut g = Gate::<Fpu>::new(param(1.0), param(0.5));
    g.prepare(b(48_000.0), 8);
    assert_eq!(run(&mut g, &before), before);
    g.enabled.set(b(f32::NAN));
    assert_eq!(run(&mut g, &before), before);
    g.enabled.set(b(0.50001));
    assert_ne!(run(&mut g, &before), before);
}

#[test]
fn lags_are_picked_from_the_curve() {
    // The bottom of the first dip below the threshold.
    let dip = bits(&[1.0, 1.0, 0.9, 0.14, 0.1, 0.2, 0.01]);
    assert_eq!(pick(&dip, 2, 7), Some(4));
    // Without one, the lowest place, the first of several.
    let shallow = bits(&[1.0, 1.0, 0.9, 0.25, 0.3, 0.25]);
    assert_eq!(pick(&shallow, 2, 6), Some(3));
    // Too high to count.
    let flat = bits(&[1.0, 1.0, 0.9, 0.8]);
    assert_eq!(pick(&flat, 2, 4), None);
}

// Metronome

#[test]
fn silent_when_disabled() {
    let mut m = Metronome::<Fpu>::new(param(120.0), param(1.0), param(0.0));
    m.prepare(b(48_000.0), 512);
    let buf = run(&mut m, &vec![0.0f32; 48_000]);
    assert!(buf.iter().all(|&s| s == 0.0));
}

#[test]
fn emits_clicks_when_enabled() {
    let mut m = Metronome::<Fpu>::new(param(120.0), param(1.0), param(1.0));
    m.prepare(b(48_000.0), 48_000);
    let buf = run(&mut m, &vec![0.0f32; 48_000]);
    let peak = buf.iter().fold(0.0f32, |a, &s| a.max(s.abs()));
    assert!(peak > 0.1, "no click, peak={peak}");
    assert!(buf.iter().all(|s| s.is_finite()));
    assert!(buf[..2000].iter().any(|s| s.abs() > 0.1), "no click at the start");
}

#[test]
fn every_fourth_click_is_an_accent() {
    // 300 beats a minute: one every 9600 samples.
    let mut m = Metronome::<Fpu>::new(param(300.0), param(1.0), param(1.0));
    m.prepare(b(48_000.0), 9600);
    let mut freqs: Vec<u32> = Vec::new();
    for _ in 0..6 {
        run(&mut m, &vec![0.0f32; 9600]);
        freqs.push(m.run.freq);
    }
    assert_eq!(freqs, [ACCENT_HZ, NORMAL_HZ, NORMAL_HZ, NORMAL_HZ, ACCENT_HZ, NORMAL_HZ]);
    assert_eq!(m.run.beat, 2);
    m.reset();
    assert_eq!(m.run.beat, 0);
}

// Delay line

#[test]
fn a_line_delays_by_its_length() {
    let mut line = Line::new(3);
    let mut out: Vec<u32> = Vec::new();
    for x in 1..=5u32 {
        out.push(line.oldest());
        line.feed(x);
    }
    assert_eq!(out, [0, 0, 0, 1, 2]);
    assert_eq!((line.get(0), line.get(1), line.get(2)), (3, 4, 5));
    line.clear();
    assert_eq!((line.len(), line.oldest()), (3, 0));
}

// Amplifier models

const TINY_LSTM: &str = r#"{
    "version": "0.5.4", "architecture": "LSTM",
    "config": { "input_size": 1, "hidden_size": 1, "num_layers": 1 },
    "weights": [1.0,0.0, 0.0,0.0, 2.0,0.0, 0.0,0.0, 0.0,0.0,0.0,0.0, 0.0, 0.0, 3.0, 0.5],
    "sample_rate": 44100.0
}"#;

#[test]
fn models_are_validated() {
    let info = validate(TINY_LSTM).ok().unwrap();
    assert_eq!(f64::from_bits(info.sample_rate), 44_100.0);
    let no_json = validate("no model").err().unwrap();
    assert!(no_json.starts_with("解析失敗：failed to parse .nam JSON"), "{no_json}");
    let short = validate(&TINY_LSTM.replace("3.0, 0.5]", "3.0]")).err().unwrap();
    assert_eq!(
        short,
        "建置失敗：weight count mismatch: config implies 16 weights, file has 15"
    );
    assert_eq!(parse_failure("x"), "解析失敗：x");
    assert_eq!(build_failure("y"), "建置失敗：y");
}

/// A small convolutional model with the given kernel in its head, dilation and
/// further settings.
fn tiny_wavenet(kernel: usize, dilation: u64, more: &str) -> String {
    let weights = vec!["0.5"; 9 + kernel];
    format!(
        r#"{{"version": "0.6.0", "architecture": "WaveNet", "config": {{
            "layers": [{{"input_size": 1, "condition_size": 1, "channels": 1, "head_size": 1,
                "kernel_size": 1, "dilations": [{dilation}], "activation": "ReLU",
                "head_bias": false}}],
            "head": {{"channels": 1, "out_channels": 1, "kernel_sizes": [{kernel}],
                "activation": "ReLU"}},
            "head_scale": 1.0{more}}},
            "weights": [{}]}}"#,
        weights.join(",")
    )
}

#[test]
fn sizes_that_no_network_can_have_are_a_build_failure() {
    let bad = Some("建置失敗：模型尺寸無效".to_string());
    assert!(validate(&tiny_wavenet(1, 1, "")).is_ok());
    assert_eq!(validate(&tiny_wavenet(0, 1, "")).err(), bad);
    // The same in a model within a model.
    let good_inside = format!(", \"condition_dsp\": {}", tiny_wavenet(1, 1, ""));
    let bad_inside = format!(", \"condition_dsp\": {}", tiny_wavenet(0, 1, ""));
    assert!(validate(&tiny_wavenet(1, 1, &good_inside)).is_ok());
    assert_eq!(validate(&tiny_wavenet(1, 1, &bad_inside)).err(), bad);
    let container = |inner: String| {
        format!(
            r#"{{"version": "0.6.0", "architecture": "SlimmableContainer", "config":
                {{"submodels": [{{"max_value": 1.0, "model": {inner}}}]}}, "weights": []}}"#
        )
    };
    assert!(validate(&container(tiny_wavenet(1, 1, ""))).is_ok());
    assert_eq!(validate(&container(tiny_wavenet(0, 1, ""))).err(), bad);
    // A history beyond the address space.
    let far = tiny_wavenet(1, u64::MAX, "")
        .replace("\"kernel_size\": 1", "\"kernel_size\": 3")
        .replace("\"weights\": [", "\"weights\": [0.5,0.5,");
    assert_eq!(validate(&far).err(), bad);
    // A kernel that no weight is counted for.
    let idle = tiny_wavenet(0, 1, "")
        .replace("\"head\": {\"channels\": 1", "\"head\": {\"channels\": 0")
        .replace("\"kernel_sizes\": [0]", "\"kernel_sizes\": [4611686018427387904, 1]");
    assert_eq!(validate(&idle).err(), bad);
    let hollow_head = |kernel: u64| {
        format!(
            r#"{{"version": "0.6.0", "architecture": "WaveNet", "config": {{
                "layers": [{{"input_size": 1, "condition_size": 1, "channels": 1,
                    "kernel_size": 1, "dilations": [1], "activation": "ReLU",
                    "head": {{"out_channels": 1, "kernel_size": {kernel}, "bias": false}},
                    "head1x1": {{"active": true, "out_channels": 0, "groups": 1}}}}],
                "head": null, "head_scale": 1.0}},
                "weights": [0.5, 0.5, 0.5, 0.5, 0.5, 0.5, 0.5]}}"#
        )
    };
    assert!(validate(&hollow_head(1)).is_ok());
    assert_eq!(validate(&hollow_head(1 << 63)).err(), bad);
    // A recurrent network without hidden units.
    let hollow = |layers: u64| {
        format!(
            r#"{{"version": "0.5.4", "architecture": "LSTM", "config": {{"input_size": 1,
                "hidden_size": 0, "num_layers": {layers}}}, "weights": [0.5]}}"#
        )
    };
    assert!(validate(&hollow(1)).is_ok());
    assert_eq!(validate(&hollow(u64::MAX)).err(), bad);
    let mut nam = Nam::<Fpu, Network>::new(tiny_wavenet(0, 1, ""), param(1.0));
    nam.prepare(b(48_000.0), 8);
    assert!(nam.model.is_none());
    assert_eq!(run(&mut nam, &[0.5]), [0.5]);
}

#[test]
fn weights_are_counted_before_sizes_matter() {
    let more = |text: String| text.replace("\"weights\": [", "\"weights\": [0.5,");
    let miscounted =
        Some("建置失敗：weight count mismatch: config implies 9 weights, file has 10".to_string());
    assert_eq!(validate(&more(tiny_wavenet(0, 1, ""))).err(), miscounted);
    // The model within is built first.
    let inside = format!(", \"condition_dsp\": {}", more(tiny_wavenet(0, 1, "")));
    assert_eq!(validate(&tiny_wavenet(0, 1, &inside)).err(), miscounted);
    let wide = tiny_wavenet(1, 1, "")
        .replace("\"input_size\": 1", &format!("\"input_size\": {}", u64::MAX));
    assert_eq!(
        validate(&wide).err(),
        Some("建置失敗：model config dimensions are too large to be valid".to_string())
    );
    let stereo = tiny_wavenet(0, 1, ", \"in_channels\": 2");
    assert_eq!(
        validate(&stereo).err(),
        Some("建置失敗：unsupported model feature: in_channels != 1".to_string())
    );
}

#[test]
fn outlooks_follow_from_weights_and_parts() {
    assert!(!is_early_failure(Weighing::Unasked, 3, true));
    assert!(!is_early_failure(Weighing::Wants(3), 3, true));
    assert!(is_early_failure(Weighing::Wants(3), 4, false));
    assert!(is_early_failure(Weighing::TooMany, 3, false));
    assert!(is_early_failure(Weighing::Refused, 3, true));
    assert!(!is_early_failure(Weighing::Refused, 3, false));
    let inner = Outlook::Reaches(5);
    assert!(matches!(outlook(inner, false, Some(7)), Outlook::Reaches(12)));
    assert!(matches!(outlook(inner, false, Some(usize::MAX)), Outlook::TooLarge));
    assert!(matches!(outlook(inner, false, None), Outlook::TooLarge));
    assert!(matches!(outlook(inner, true, None), Outlook::Fails));
    assert!(matches!(outlook(Outlook::Fails, false, None), Outlook::Fails));
    assert!(matches!(outlook(Outlook::TooLarge, true, Some(0)), Outlook::TooLarge));
}

#[test]
fn sizes_are_held_against_the_address_space() {
    assert_eq!(reach_of_conv(4, 3, 512), Some(1024));
    assert_eq!(reach_of_conv(1, 1, usize::MAX), Some(0));
    assert_eq!(reach_of_conv(1, 0, 1), None);
    assert_eq!(reach_of_conv(4, 2, usize::MAX / 16), None);
    assert_eq!(reach_of_conv(0, usize::MAX, 1), None);
    assert_eq!(reach_of_conv(1, 3, usize::MAX), None);

    let sizes = ArraySizes {
        input: 1,
        condition: 1,
        channels: 16,
        bottleneck: 16,
        head_size: 8,
        head_kernel: 1,
        head_active: false,
        head_film: false,
        head_out: None,
    };
    let array = |sizes: ArraySizes| vec![(sizes, vec![3, 3], vec![1, 512])];
    assert_eq!(reach_of_parts(&array(sizes), &None, &None), Some(1026));
    assert_eq!(reach_of_parts(&array(sizes), &Some((4, vec![3, 2])), &None), Some(1029));
    assert_eq!(reach_of_parts(&array(sizes), &Some((4, vec![3, 0])), &None), None);
    assert_eq!(reach_of_parts(&array(sizes), &Some((0, vec![1 << 62, 1])), &None), None);
    assert_eq!(reach_of_parts(&array(sizes), &Some((usize::MAX, vec![1, 1])), &None), None);
    assert_eq!(reach_of_parts(&array(sizes), &Some((usize::MAX, vec![1])), &None), Some(1026));
    let hollow = ArraySizes {
        head_active: true,
        head_out: Some(0),
        head_kernel: usize::MAX,
        ..sizes
    };
    assert_eq!(reach_of_parts(&array(hollow), &None, &None), None);
    assert_eq!(reach_of_parts(&array(ArraySizes { head_kernel: 3, ..hollow }), &None, &None), Some(1028));
    assert_eq!(reach_of_parts(&array(ArraySizes { input: usize::MAX, ..sizes }), &None, &None), None);

    assert_eq!(reach_of_parts(&Vec::new(), &None, &Some((1, 0, 2))), Some(0));
    assert_eq!(reach_of_parts(&Vec::new(), &None, &Some((1, 0, usize::MAX))), None);
    assert_eq!(reach_of_parts(&Vec::new(), &None, &Some((usize::MAX, 0, 1))), None);
    assert_eq!(reach_of_parts(&Vec::new(), &None, &Some((usize::MAX, 1, 1))), Some(0));
}

#[test]
fn models_run_and_forget() {
    let mut nam = Nam::<Fpu, Network>::new(TINY_LSTM.to_string(), param(1.0));
    assert_eq!(run(&mut nam, &[0.5]), [0.5]);
    nam.prepare(b(48_000.0), 8);
    assert!(nam.model.is_some() && nam.off_pitch);
    nam.prepare(b(44_100.0), 8);
    assert!(nam.model.is_some() && !nam.off_pitch);
    let first = run(&mut nam, &[0.5, 0.5]);
    assert!((first[0] - 1.1623).abs() < 1e-3, "got {}", first[0]);
    assert!(first[1] != first[0]);
    nam.reset();
    assert_eq!(run(&mut nam, &[0.5, 0.5]), first);
    nam.enabled.set(b(0.0));
    assert_eq!(run(&mut nam, &[0.5]), [0.5]);
}

#[test]
fn an_unreadable_model_hands_the_signal_through() {
    let mut nam = Nam::<Fpu, Network>::new("{}".to_string(), param(1.0));
    nam.prepare(b(48_000.0), 8);
    assert!(nam.model.is_none());
    assert_eq!(run(&mut nam, &[0.5, -0.25]), [0.5, -0.25]);
}

#[test]
fn models_off_their_rate_are_off_pitch() {
    assert!(!off_pitch::<Fpu>(48_000f64.to_bits(), b(48_000.0)));
    assert!(!off_pitch::<Fpu>(48_000f64.to_bits(), b(48_001.0)));
    assert!(off_pitch::<Fpu>(48_000f64.to_bits(), b(44_100.0)));
}
