//! The front panel, the rig behind it, and the probe.
use rustrig::arith::Arith;
use rustrig::backend::{BackendError, BackendKind, LatencyInfo, RunningStream};
use rustrig::bits::{clamp, ge, lt, max, min, neg};
use rustrig::cab::Convolver;
use rustrig::devices::{DeviceInfo, DeviceLists};
use rustrig::panel::{
    angle, db_to_frac, db_to_gain, fmt_db, gain_to_db, green, lerp_color, lit, magenta,
    meter_color, percent, purple, red, ring_color, slices, slide, stand, tick_label, turn, yellow,
    Grip, Rgb, Touch,
};
use rustrig::param::SharedParam;
use rustrig::probe::{
    choose_id, configure, contains, device_line, find_device, heed, number, parse_args, verdict,
    Run, Second, Wanted,
};
use rustrig::processor::AudioProcessor;
use rustrig::rig::{fallen, switch, tone_label, tone_norm_to_hz, Rig};

/// Single-precision arithmetic of the machine.
struct Fpu;

fn f(b: u32) -> f32 {
    f32::from_bits(b)
}

fn b(x: f32) -> u32 {
    x.to_bits()
}

impl Arith for Fpu {
    fn plus(x: u32, y: u32) -> u32 {
        b(f(x) + f(y))
    }
    fn minus(x: u32, y: u32) -> u32 {
        b(f(x) - f(y))
    }
    fn times(x: u32, y: u32) -> u32 {
        b(f(x) * f(y))
    }
    fn over(x: u32, y: u32) -> u32 {
        b(f(x) / f(y))
    }
    fn exp(x: u32) -> u32 {
        b(f(x).exp())
    }
    fn exp10(x: u32) -> u32 {
        b(10f32.powf(f(x)))
    }
    fn log10(x: u32) -> u32 {
        b(f(x).log10())
    }
    fn sqrt(x: u32) -> u32 {
        b(f(x).sqrt())
    }
    fn sin(x: u32) -> u32 {
        b(f(x).sin())
    }
    fn cos(x: u32) -> u32 {
        b(f(x).cos())
    }
    fn tanh(x: u32) -> u32 {
        b(f(x).tanh())
    }
    fn floor(x: u32) -> u32 {
        b(f(x).floor())
    }
    fn round(x: u32) -> u32 {
        b(f(x).round())
    }
    fn of_count(n: usize) -> u32 {
        b(n as f32)
    }
    fn to_count(x: u32) -> usize {
        f(x) as usize
    }
    fn of_int(i: i32) -> u32 {
        b(i as f32)
    }
    fn of_wide(i: i64) -> u32 {
        b(i as f32)
    }
    fn to_int(x: u32) -> i32 {
        f(x) as i32
    }
    fn to_full_scale(x: u32) -> i32 {
        (f(x) as f64 * 2_147_483_647.0) as i32
    }
    fn narrow(x: u64) -> u32 {
        b(f64::from_bits(x) as f32)
    }
}

fn near(x: u32, y: f32) -> bool {
    (f(x) - y).abs() < 1e-4
}

// Numbers by their bits

#[test]
fn order_is_read_off_the_bits() {
    let xs = [-1.0f32, -0.5, -0.0, 0.0, 0.25, 1.0, f32::INFINITY, f32::NEG_INFINITY, f32::NAN];
    for x in xs {
        for y in xs {
            assert_eq!(lt(b(x), b(y)), x < y, "{x} {y}");
            assert_eq!(ge(b(x), b(y)), x >= y, "{x} {y}");
            if !x.is_nan() && !y.is_nan() {
                assert_eq!(f(max(b(x), b(y))), x.max(y));
                assert_eq!(f(min(b(x), b(y))), x.min(y));
            }
        }
        assert_eq!(neg(b(x)), b(-x));
    }
    assert_eq!(f(max(b(f32::NAN), b(2.0))), 2.0);
    assert_eq!(f(clamp(b(3.0), b(-1.0), b(1.0))), 1.0);
    assert_eq!(f(clamp(b(-3.0), b(-1.0), b(1.0))), -1.0);
    assert_eq!(f(clamp(b(0.5), b(-1.0), b(1.0))), 0.5);
}

// Panel

#[test]
fn gains_and_decibels() {
    assert!(near(gain_to_db::<Fpu>(b(0.1)), -20.0));
    assert_eq!(f(gain_to_db::<Fpu>(b(0.0001))), -60.0);
    assert_eq!(f(db_to_gain::<Fpu>(b(-60.0))), 0.0);
    assert!(near(db_to_gain::<Fpu>(b(-20.0)), 0.1));
    assert_eq!(f(db_to_frac::<Fpu>(b(12.0))), 1.0);
    assert_eq!(f(db_to_frac::<Fpu>(b(-24.0))), 0.5);
    assert_eq!(f(db_to_frac::<Fpu>(b(-90.0))), 0.0);
    assert_eq!(fmt_db(b(-60.0), "-60.0"), "-∞");
    assert_eq!(fmt_db(b(3.0), "3.0"), "+3.0");
    assert_eq!(fmt_db(b(-3.0), "-3.0"), "-3.0");
    assert_eq!(tick_label(12, "12"), "+12");
    assert_eq!(tick_label(-6, "-6"), "-6");
    assert_eq!(percent::<Fpu>(b(0.505)), 51);
}

#[test]
fn colours_mix() {
    let c = lerp_color::<Fpu>(Rgb { r: 0, g: 100, b: 200 }, Rgb { r: 100, g: 0, b: 200 }, b(0.5));
    assert_eq!(c, Rgb { r: 50, g: 50, b: 200 });
    assert_eq!(lerp_color::<Fpu>(green(), red(), b(7.0)), red());
    assert_eq!(meter_color::<Fpu>(b(0.1)), green());
    assert_eq!(meter_color::<Fpu>(b(0.84)), yellow());
    assert_eq!(meter_color::<Fpu>(b(0.73)), Rgb { r: 134, g: 188, b: 50 });
    assert_eq!(ring_color::<Fpu>(b(0.0), b(0.0)), purple());
    assert_eq!(f(angle::<Fpu>(16)), std::f32::consts::FRAC_PI_2);
    let half = angle::<Fpu>(32);
    assert_eq!(ring_color::<Fpu>(half, half), magenta());
}

fn grip(drag: Option<f32>, reset: bool) -> Grip {
    Grip { drag: drag.map(b), reset }
}

#[test]
fn knobs_turn() {
    let drive = |v: f32, g: Grip, on: bool| {
        let (v, changed) = turn::<Fpu>(b(v), g, on, b(18.0), b(0.0), b(40.0));
        (f(v), changed)
    };
    let (v, changed) = drive(10.0, grip(Some(-15.0), false), true);
    assert!((v - 14.0).abs() < 1e-4 && changed);
    assert_eq!(drive(10.0, grip(Some(-1500.0), false), true), (40.0, true));
    assert_eq!(drive(10.0, grip(None, false), true), (10.0, false));
    assert_eq!(drive(10.0, grip(Some(5.0), true), true), (18.0, true));
    // Where it stands already, nothing changes.
    assert_eq!(drive(18.0, grip(None, true), true), (18.0, false));
    assert_eq!(drive(40.0, grip(Some(-15.0), false), true), (40.0, false));
    // A knob that is not enabled stands still.
    assert_eq!(drive(10.0, grip(Some(-15.0), true), false), (10.0, false));
    // Its ends matter only to a drag.
    let (v, changed) = turn::<Fpu>(b(10.0), grip(None, true), true, b(18.0), b(40.0), b(0.0));
    assert_eq!((f(v), changed), (18.0, true));
    let (v, changed) =
        turn::<Fpu>(b(10.0), grip(Some(5.0), true), false, b(18.0), b(40.0), b(0.0));
    assert_eq!((f(v), changed), (10.0, false));
    assert_eq!(f(stand::<Fpu>(b(10.0), b(0.0), b(40.0))), 0.25);
    // At a quarter, the lamps up to the seventh are lit.
    let lamps: Vec<bool> = (0..25).map(|i| lit::<Fpu>(i, b(0.25), true)).collect();
    assert_eq!(lamps.iter().filter(|l| **l).count(), 7);
    assert!(lamps[6] && !lamps[7]);
    assert!(!lit::<Fpu>(0, b(0.25), false));
}

#[test]
fn the_fader_slides() {
    let s = slide::<Fpu>(b(0.1), Touch::Idle, b(0.0), b(100.0));
    assert!(!s.changed && f(s.gain) == 0.1 && near(s.db, -20.0));
    let s = slide::<Fpu>(b(0.1), Touch::Reset, b(0.0), b(100.0));
    assert!(s.changed && f(s.gain) == 1.0 && f(s.db) == 0.0);
    let s = slide::<Fpu>(b(0.1), Touch::At(b(60.0)), b(10.0), b(100.0));
    assert!(s.changed && near(s.db, -24.0));
    let s = slide::<Fpu>(b(0.1), Touch::At(b(999.0)), b(10.0), b(100.0));
    assert!(f(s.db) == -60.0 && f(s.gain) == 0.0);
    let s = slide::<Fpu>(b(1.0), Touch::Reset, b(0.0), b(100.0));
    assert!(!s.changed && f(s.gain) == 1.0);
    let s = slide::<Fpu>(b(0.0), Touch::At(b(999.0)), b(10.0), b(100.0));
    assert!(!s.changed && f(s.gain) == 0.0);
}

#[test]
fn the_meter_is_sliced() {
    assert!(slices::<Fpu>(b(0.0), b(320.0)).is_empty());
    let s = slices::<Fpu>(b(0.05), b(320.0));
    assert_eq!(s.len(), 2);
    assert_eq!((f(s[0].from), f(s[0].to)), (0.0, 10.0));
    assert_eq!((f(s[1].from), f(s[1].to)), (10.0, 16.0));
    assert_eq!(s[0].color, green());
    assert_eq!(slices::<Fpu>(b(1.0), b(320.0)).len(), 32);
}

// Rig

struct Stub {
    alive: bool,
}

impl RunningStream for Stub {
    fn xrun_count(&self) -> u64 {
        3
    }
    fn latency(&self) -> LatencyInfo {
        LatencyInfo { capture_frames: 1, render_frames: 2, ring_frames: 3, sample_rate: 48_000 }
    }
    fn is_alive(&self) -> bool {
        self.alive
    }
}

/// A convolution that hands its input through.
struct Straight {
    last: Vec<u32>,
}

impl Convolver for Straight {
    fn idle() -> Self {
        Straight { last: Vec::new() }
    }
    fn init(self, _partition: usize, _ir: &Vec<u32>, _max_block: usize) -> (Self, bool) {
        (self, true)
    }
    fn convolve(self, input: &[u32]) -> (Self, bool) {
        (Straight { last: input.iter().map(|x| neg(*x)).collect() }, true)
    }
    fn sample(&self, i: usize) -> u32 {
        self.last[i]
    }
    fn reset(self) -> Self {
        self
    }
}

fn rig() -> Rig<Stub> {
    Rig::new::<Fpu>(DeviceLists::default())
}

#[test]
fn the_tone_control_spans_a_decade() {
    assert_eq!(f(tone_norm_to_hz::<Fpu>(b(0.0))), 800.0);
    assert_eq!(f(tone_norm_to_hz::<Fpu>(b(1.0))), 8000.0);
    assert_eq!(f(tone_norm_to_hz::<Fpu>(b(7.0))), 8000.0);
    assert_eq!(tone_label(b(999.0), "1.0", "999"), "999Hz");
    assert_eq!(tone_label(b(2500.0), "2.5", "2500"), "2.5k");
}

#[test]
fn a_rig_starts_and_stops() {
    let mut r = rig();
    assert!(!r.running() && r.patience() == 250 && r.status() == "待機");
    assert_eq!(r.hint(), "點擊啟動引擎");
    r.opened(Err(BackendError::NoDevice));
    assert_eq!(r.error.as_deref(), Some("找不到可用的音訊裝置"));
    r.opened(Ok(Stub { alive: true }));
    assert!(r.running() && r.error.is_none() && r.patience() == 33 && r.status() == "運轉中");
    assert_eq!(r.hint(), "直通中 — 彈彈看");
    assert_eq!(r.latency.unwrap().ring_frames, 3);
    assert!(r.stop_to_restart());
    assert!(!r.running() && r.latency.is_none() && f(r.disp_db) == -80.0);
    assert!(!r.stop_to_restart());
}

#[test]
fn a_stream_that_dies_is_stopped() {
    let mut r = rig();
    r.opened(Ok(Stub { alive: false }));
    r.look::<Fpu>(b(0.033), 0);
    assert!(!r.running());
    assert_eq!(r.error.as_deref(), Some("音訊執行緒已停止（裝置被拔除或驅動錯誤）"));
    r.watch(false);
    assert!(!r.running());
}

#[test]
fn the_meter_falls_slowly_and_rises_at_once() {
    assert!(near(fallen::<Fpu>(b(-10.0), b(0.0), b(0.05)), -11.5));
    assert!(near(fallen::<Fpu>(b(-10.0), b(0.0), b(9.0)), -13.0));
    assert!(near(fallen::<Fpu>(b(-10.0), b(1.0), b(0.05)), 0.0));
    assert_eq!(f(fallen::<Fpu>(b(-80.0), b(0.0), b(0.05))), -80.0);
    let mut r = rig();
    r.show::<Fpu>(b(0.5), b(0.033), 100);
    assert!(!r.clipping(100));
    r.show::<Fpu>(b(0.999), b(0.033), 100);
    assert!(r.clipping(1099) && !r.clipping(1100));
}

#[test]
fn choices_take_effect() {
    let mut r = rig();
    assert!(!r.select(None, None, BackendKind::WasapiShared));
    assert!(r.select(Some("mic".to_string()), None, BackendKind::WasapiShared));
    assert!(!r.select(Some("mic".to_string()), None, BackendKind::WasapiShared));
    assert!(r.select(Some("mic".to_string()), None, BackendKind::WasapiExclusive));
    assert!(r.select(Some("mic".to_string()), Some("out".to_string()), r.backend));
    let config = r.config();
    assert_eq!(config.capture_id.as_deref(), Some("mic"));
    assert_eq!(config.render_id.as_deref(), Some("out"));
    assert_eq!((config.sample_rate, config.block_size), (48_000, 128));
    r.refreshed(Err(BackendError::NoDevice));
    assert_eq!(r.error.as_deref(), Some("裝置列舉失敗：找不到可用的音訊裝置"));
    r.refreshed(Ok(DeviceLists { capture: vec![device("a", "A", true)], render: Vec::new() }));
    assert_eq!(r.devices.capture.len(), 1);
    r.toggle_drive();
    assert!(!r.drive_on && f(r.drive_on_p.get()) == 0.0);
    r.toggle_cab();
    assert!(!r.cab_on && f(r.cab_on_p.get()) == 0.0);
    r.toggle_gate();
    assert!(r.gate_on && f(r.gate_on_p.get()) == 1.0);
    r.toggle_reverb();
    assert!(r.reverb_on && f(r.reverb_on_p.get()) == 1.0);
    assert_eq!((f(switch(true)), f(switch(false))), (1.0, 0.0));
}

#[test]
fn a_rig_starts_with_what_it_shows() {
    let r = rig();
    assert_eq!(r.volume.get(), r.vol_lin);
    assert_eq!(r.drive_db.get(), r.drive_db_v);
    assert_eq!(r.tone_hz.get(), tone_norm_to_hz::<Fpu>(r.tone_norm));
    assert_eq!(r.gate_amount.get(), r.gate_v);
    assert_eq!(r.reverb_mix.get(), r.reverb_v);
    assert_eq!(f(r.drive_on_p.get()), 1.0);
    assert_eq!(f(r.cab_on_p.get()), 1.0);
    assert_eq!(f(r.gate_on_p.get()), 0.0);
    assert_eq!(f(r.reverb_on_p.get()), 0.0);
    assert_eq!(f(r.meter.take_peak()), 0.0);
}

#[test]
fn turning_a_knob_is_heard() {
    let mut r = rig();
    assert!(!r.turn_drive::<Fpu>(grip(None, true)));
    assert!(r.turn_drive::<Fpu>(grip(Some(-15.0), false)));
    assert!(near(r.drive_db_v, 22.0) && r.drive_db.get() == r.drive_db_v);
    assert!(r.turn_tone::<Fpu>(grip(Some(-1500.0), false)));
    assert!(f(r.tone_norm) == 1.0 && f(r.tone_hz.get()) == 8000.0);
    assert!(r.turn_gate::<Fpu>(grip(None, true)));
    assert!(f(r.gate_v) == 0.5 && f(r.gate_amount.get()) == 0.5);
    assert!(r.turn_reverb::<Fpu>(grip(Some(1500.0), false)));
    assert!(f(r.reverb_v) == 0.0 && f(r.reverb_mix.get()) == 0.0);
    let s = r.slide_volume::<Fpu>(Touch::At(b(110.0)), b(10.0), b(100.0));
    assert!(s.changed && f(r.vol_lin) == 0.0 && f(r.volume.get()) == 0.0);
    let s = r.slide_volume::<Fpu>(Touch::Idle, b(10.0), b(100.0));
    assert!(!s.changed && f(r.vol_lin) == 0.0);
}

#[test]
fn the_chain_follows_the_rig() {
    let mut r = rig();
    r.drive_on_p.set(b(0.0));
    r.volume = SharedParam::new(b(0.5));
    let mut chain = r.chain::<Fpu, Straight>();
    chain.prepare(b(48_000.0), 2);
    let mut buf = [b(0.5), b(-0.25)];
    chain.process(&mut buf);
    assert_eq!(buf.map(f), [0.25, -0.125]);
    assert_eq!(f(r.meter.take_peak()), 0.25);
    // With an impulse response the cabinet joins in.
    assert_eq!(r.ir_label(), "未載入（CAB 不作用）");
    assert!(r.ir_loaded(Ok((vec![b(1.0)], 48_000)), Some("cab.wav".to_string())));
    assert_eq!(r.ir_label(), "cab.wav");
    let mut chain = r.chain::<Fpu, Straight>();
    chain.prepare(b(48_000.0), 2);
    let mut buf = [b(0.5), b(-0.25)];
    chain.process(&mut buf);
    assert_eq!(buf.map(f), [-0.25, 0.125]);
    chain.reset();
    assert!(!r.ir_loaded(Err("why".to_string()), None));
    assert_eq!(r.error.as_deref(), Some("IR 載入失敗：why"));
    assert_eq!(r.ir_label(), "cab.wav");
}

// Probe

fn device(id: &str, name: &str, is_default: bool) -> DeviceInfo {
    DeviceInfo { id: id.to_string(), name: name.to_string(), is_default }
}

fn words(ws: &[&str]) -> Vec<String> {
    ws.iter().map(|w| w.to_string()).collect()
}

#[test]
fn numbers_are_read_like_u64() {
    for s in [
        "", "0", "8", "+8", "+", "-1", "08", " 8", "8 ", "12x", "獨", "++1",
        "18446744073709551615", "18446744073709551616", "99999999999999999999999x",
    ] {
        assert_eq!(number(s), s.parse::<u64>().ok(), "{s}");
    }
}

#[test]
fn words_are_found_in_names() {
    for (hay, needle) in [("fireface ucx", "face"), ("abc", ""), ("", ""), ("ab", "abc"),
        ("aab", "ab"), ("獨佔模式", "佔模"), ("abc", "bd"), ("abc", "c")] {
        assert_eq!(contains(hay, needle), hay.contains(needle), "{hay} {needle}");
    }
}

#[test]
fn the_command_line_is_heeded() {
    let w = parse_args(&words(&[]));
    assert_eq!((w.secs, w.filter.as_deref(), w.backend), (10, None, BackendKind::WasapiShared));
    let w = parse_args(&words(&["8", "Fireface", "EX"]));
    assert_eq!(
        (w.secs, w.filter.as_deref(), w.backend),
        (8, Some("Fireface"), BackendKind::WasapiExclusive)
    );
    let w = parse_args(&words(&["獨佔", "Shared", "a", "b", "0"]));
    assert_eq!((w.secs, w.filter.as_deref(), w.backend), (0, Some("b"), BackendKind::WasapiShared));
    for word in ["exclusive", "Excl", "ex", "獨佔"] {
        assert_eq!(parse_args(&words(&[word])).backend, BackendKind::WasapiExclusive);
    }
    for word in ["SHARED", "share", "共享"] {
        assert_eq!(parse_args(&words(&["ex", word])).backend, BackendKind::WasapiShared);
    }
    let mut w = Wanted { secs: 1, filter: None, backend: BackendKind::WasapiShared };
    heed(&mut w, "EX", &"nothing".to_string());
    assert_eq!(w.filter.as_deref(), Some("EX"));
}

#[test]
fn devices_are_found_whatever_their_case() {
    let list = vec![device("a", "Speakers", true), device("b", "RME FireFace", false),
        device("c", "fireface 2", false)];
    assert_eq!(find_device(&list, "FIREface"), Some(1));
    assert_eq!(find_device(&list, "xyz"), None);
    assert_eq!(choose_id(&list, &Some("speak".to_string())).as_deref(), Some("a"));
    assert_eq!(choose_id(&list, &None), None);
    let devices = DeviceLists { capture: list, render: Vec::new() };
    let config = configure(&devices, &Some("fire".to_string()));
    assert_eq!((config.capture_id.as_deref(), config.render_id.as_deref()), (Some("b"), None));
    assert_eq!(device_line(&devices.capture[0]), "    • Speakers ★預設");
    assert_eq!(device_line(&devices.capture[1]), "    • RME FireFace");
}

#[test]
fn a_run_is_counted_by_the_second() {
    let mut run = Run::new(2);
    assert!(matches!(run.second(true, 3), Second::Counted(3, false)));
    assert!(matches!(run.second(true, 5), Second::Counted(2, true)));
    let mut endless = Run::new(0);
    assert!(matches!(endless.second(true, 0), Second::Counted(0, false)));
    assert!(matches!(endless.second(false, 9), Second::Died));
    assert_eq!(endless.elapsed, 2);
    assert_eq!(verdict(true, 0), "⚠ 音訊引擎異常終止，本次數據不可信。");
    assert_eq!(verdict(false, 0), "✓ 全程零爆音。");
    assert_eq!(verdict(false, 7), "⚠ 有 7 次 xrun，需調整 buffer / 檢查 DPC（LatencyMon）。");
}
