//! Rings, streams, sample formats and files.
use rustrig::arith::Arith;
use rustrig::asio::{
    choose_driver, failed, fmt_name, half, latency, map_fmt, output_channels, rate_step,
    read_sample, width, write_sample, AsioBackend, AsioFmt, Callback, RateStep, SampleType,
};
use rustrig::backend::{AudioBackend, BackendError, BackendKind, LatencyInfo, StreamConfig};
use rustrig::devices::{device_label, entry, list_devices, DeviceLists, RawDevice};
use rustrig::param::{Gain, SharedParam};
use rustrig::processor::Passthrough;
use rustrig::ring::{channel, pop_fill, push_all};
use rustrig::rt::enable_flush_denormals;
use rustrig::wasapi::{
    go_together, is_float32, mix_fmt, next, read_fmt, started, Act, Duplex, Event, Fmt, InitStep, MixFormat,
    Periods, Wake, WasapiShared, FLAG_DISCONTINUITY, FLAG_SILENT, SUBTYPE_IEEE_FLOAT,
    WAVE_FORMAT_EXTENSIBLE, WAVE_FORMAT_IEEE_FLOAT,
};
use rustrig::wav::{load_floats, load_integers, load_ir, Loaded, WavSpec};

/// Single-precision arithmetic of the machine.
struct Fpu;

fn f(b: u32) -> f32 {
    f32::from_bits(b)
}

fn b(x: f32) -> u32 {
    x.to_bits()
}

impl Arith for Fpu {
    fn plus(x: u32, y: u32) -> u32 {
        b(f(x) + f(y))
    }
    fn minus(x: u32, y: u32) -> u32 {
        b(f(x) - f(y))
    }
    fn times(x: u32, y: u32) -> u32 {
        b(f(x) * f(y))
    }
    fn over(x: u32, y: u32) -> u32 {
        b(f(x) / f(y))
    }
    fn exp(x: u32) -> u32 {
        b(f(x).exp())
    }
    fn exp10(x: u32) -> u32 {
        b(10f32.powf(f(x)))
    }
    fn log10(x: u32) -> u32 {
        b(f(x).log10())
    }
    fn sqrt(x: u32) -> u32 {
        b(f(x).sqrt())
    }
    fn sin(x: u32) -> u32 {
        b(f(x).sin())
    }
    fn cos(x: u32) -> u32 {
        b(f(x).cos())
    }
    fn tanh(x: u32) -> u32 {
        b(f(x).tanh())
    }
    fn floor(x: u32) -> u32 {
        b(f(x).floor())
    }
    fn round(x: u32) -> u32 {
        b(f(x).round())
    }
    fn of_count(n: usize) -> u32 {
        b(n as f32)
    }
    fn to_count(x: u32) -> usize {
        f(x) as usize
    }
    fn of_int(i: i32) -> u32 {
        b(i as f32)
    }
    fn of_wide(i: i64) -> u32 {
        b(i as f32)
    }
    fn to_int(x: u32) -> i32 {
        f(x) as i32
    }
    fn to_full_scale(x: u32) -> i32 {
        (f(x) as f64 * 2_147_483_647.0) as i32
    }
    fn narrow(x: u64) -> u32 {
        b(f64::from_bits(x) as f32)
    }
}

fn bits(xs: &[f32]) -> Vec<u32> {
    xs.iter().map(|x| x.to_bits()).collect()
}

fn floats(xs: &[u32]) -> Vec<f32> {
    xs.iter().map(|x| f(*x)).collect()
}

// Ring

#[test]
fn what_goes_into_the_ring_comes_out() {
    let mut ring = channel(8);
    assert_eq!(push_all(&mut ring, &[1, 2, 3]), 3);
    let mut out = [9u32; 2];
    assert_eq!(pop_fill(&mut ring, &mut out), 2);
    assert_eq!(out, [1, 2]);
    assert_eq!(push_all(&mut ring, &[4]), 1);
    let mut out = [9u32; 4];
    assert_eq!(pop_fill(&mut ring, &mut out), 2);
    assert_eq!(out, [3, 4, 0, 0]);
}

#[test]
fn a_full_ring_takes_no_more() {
    let mut ring = channel(3);
    assert_eq!(push_all(&mut ring, &[1, 2, 3, 4, 5]), 3);
    assert_eq!(push_all(&mut ring, &[6]), 0);
    let mut out = [0u32; 5];
    assert_eq!(pop_fill(&mut ring, &mut out), 3);
    assert_eq!(out, [1, 2, 3, 0, 0]);
    let mut none = channel(0);
    assert_eq!(push_all(&mut none, &[1]), 0);
}

// Backends

#[test]
fn backends_are_named() {
    assert_eq!(WasapiShared::name(), "WASAPI-Shared");
    assert_eq!(AsioBackend::name(), "ASIO");
    assert_eq!(BackendKind::WasapiShared.label(), "WASAPI 共享");
    assert_eq!(BackendKind::WasapiExclusive.label(), "WASAPI 獨佔");
    assert_eq!(BackendKind::ALL, [BackendKind::WasapiShared, BackendKind::WasapiExclusive]);
}

#[test]
fn backends_open_with_what_they_are_given() {
    let mut config = StreamConfig::default();
    assert_eq!((config.sample_rate, config.block_size, config.channels), (48_000, 128, 1));
    assert!(config.capture_id.is_none() && config.render_id.is_none());
    assert!(config.asio_driver.is_none());
    config.capture_id = Some("mic".to_string());
    let shared = WasapiShared::open(config.clone()).ok().unwrap();
    assert_eq!(shared.config.capture_id.as_deref(), Some("mic"));
    let asio = AsioBackend::open(config).ok().unwrap();
    assert_eq!(asio.config.block_size, 128);
}

#[test]
fn errors_say_what_is_wrong() {
    let text = "x".to_string();
    assert_eq!(BackendError::NoDevice.message(), "找不到可用的音訊裝置");
    assert_eq!(
        BackendError::UnsupportedFormat(text.clone()).message(),
        "裝置不支援要求的格式：x"
    );
    assert_eq!(
        BackendError::DeviceInUse.message(),
        "裝置正被獨佔佔用（Exclusive 模式衝突）"
    );
    assert_eq!(
        BackendError::DeviceInvalidated.message(),
        "裝置已失效（被拔除或驅動更新）"
    );
    assert_eq!(BackendError::Os(text).message(), "後端內部錯誤：x");
}

#[test]
fn latency_counts_all_buffers() {
    let info =
        LatencyInfo { capture_frames: 480, render_frames: 960, ring_frames: 960, sample_rate: 48_000 };
    assert_eq!(f(info.buffer_ms::<Fpu>()), 50.0);
}

// WASAPI

fn mix(tag: u16, bits: u16, subformat: u128) -> MixFormat {
    MixFormat { tag, channels: 2, sample_rate: 48_000, block_align: 8, bits, subformat }
}

#[test]
fn only_float_formats_are_taken() {
    assert!(is_float32(&mix(WAVE_FORMAT_IEEE_FLOAT, 32, 0)));
    assert!(!is_float32(&mix(WAVE_FORMAT_IEEE_FLOAT, 16, 0)));
    assert!(is_float32(&mix(WAVE_FORMAT_EXTENSIBLE, 32, SUBTYPE_IEEE_FLOAT)));
    assert!(!is_float32(&mix(WAVE_FORMAT_EXTENSIBLE, 32, 1)));
    assert!(!is_float32(&mix(1, 32, SUBTYPE_IEEE_FLOAT)));
    let fmt = read_fmt(&mix(1, 16, 0));
    assert_eq!((fmt.channels, fmt.sample_rate, fmt.block_align), (2, 48_000, 8));
    assert_eq!(mix_fmt(&mix(1, 32, 0)).err().unwrap(), "裝置非 float32 mix format");
    assert_eq!(mix_fmt(&mix(3, 32, 0)).ok().unwrap().channels, 2);
}

#[test]
fn clients_fall_back_to_the_default_period() {
    let periods = Periods { default_frames: 480, min_frames: 128 };
    let first = InitStep::queried(Some(periods));
    assert!(matches!(first.tried(true), InitStep::Ready(128)));
    assert!(matches!(first.tried(false).tried(true), InitStep::Ready(480)));
    assert!(matches!(first.tried(false).tried(false), InitStep::Failed));
    assert!(matches!(InitStep::queried(None).tried(true), InitStep::Ready(0)));
    assert!(matches!(InitStep::queried(None).tried(false), InitStep::Failed));
}

fn fmt(channels: usize, sample_rate: u32) -> Fmt {
    Fmt { channels, sample_rate, block_align: channels * 4 }
}

#[test]
fn rates_have_to_agree() {
    let r = Duplex::new::<Fpu>(Passthrough, fmt(2, 44_100), 4, fmt(2, 48_000), 4);
    assert_eq!(
        r.err().unwrap(),
        "擷取與輸出取樣率不同，P0 尚未支援 ASRC（請 in/out 用同一介面）"
    );
    assert!(go_together(&fmt(2, 44_100), &fmt(2, 48_000)).is_err());
    assert!(go_together(&fmt(1, 48_000), &fmt(2, 48_000)).is_ok());
}

#[test]
fn a_duplex_stream_delays_by_the_ring() {
    let (mut s, latency) =
        Duplex::new::<Fpu>(Passthrough, fmt(2, 48_000), 4, fmt(2, 48_000), 3).ok().unwrap();
    assert_eq!(
        (latency.capture_frames, latency.render_frames, latency.ring_frames, latency.sample_rate),
        (4, 3, 3, 48_000)
    );
    // The first channel is taken; the flag on the first packet does not count.
    assert_eq!(s.capture(&[1, 90, 2, 91, 3, 92], 3, FLAG_DISCONTINUITY), 0);
    assert_eq!(s.lacking(0), 3);
    assert_eq!(s.lacking(2), 1);
    assert_eq!(s.lacking(7), 0);
    assert_eq!(s.render(3), 0);
    let mut out = [7u32; 6];
    s.fan_out(3, &mut out);
    assert_eq!(out, [0; 6]);
    assert_eq!(s.render(2), 0);
    let mut out = [7u32; 4];
    s.fan_out(2, &mut out);
    assert_eq!(out, [1, 1, 2, 2]);
    // One sample is left; the rest is silence, and that counts.
    assert_eq!(s.render(3), 1);
    let mut out = [7u32; 6];
    s.fan_out(3, &mut out);
    assert_eq!(out, [3, 3, 0, 0, 0, 0]);
    // A silent packet, and one after lost data.
    assert_eq!(s.capture(&[], 2, FLAG_SILENT), 0);
    assert_eq!(s.capture(&[5, 0], 1, FLAG_DISCONTINUITY), 1);
    assert_eq!(s.render(3), 0);
    assert_eq!(s.scratch_out, [0, 0, 5]);
}

#[test]
fn a_full_ring_loses_data() {
    let (mut s, _) =
        Duplex::new::<Fpu>(Passthrough, fmt(1, 48_000), 4096, fmt(1, 48_000), 4).ok().unwrap();
    let packet = vec![1u32; 4096];
    // 4 + 7 * 4096 samples fit in a ring for 8 * 4096, an eighth packet does not.
    for _ in 0..7 {
        assert_eq!(s.capture(&packet, 4096, 0), 0);
    }
    assert_eq!(s.capture(&packet, 4096, 0), 1);
    assert_eq!(s.capture(&packet, 4096, FLAG_DISCONTINUITY), 2);
}

#[test]
fn effects_run_on_what_is_rendered() {
    let gain: Gain<Fpu> = Gain::new(SharedParam::new(b(0.5)));
    let (mut s, _) = Duplex::new::<Fpu>(gain, fmt(1, 48_000), 2, fmt(1, 48_000), 2).ok().unwrap();
    s.capture(&bits(&[0.5, -1.0]), 2, 0);
    s.render(2);
    s.render(2);
    assert_eq!(floats(&s.scratch_out), [0.25, -0.5]);
}

#[test]
fn the_audio_thread_drains_before_it_renders() {
    assert_eq!(next(Event::Stop(false)), Act::Wait);
    assert_eq!(next(Event::Stop(true)), Act::Finish);
    assert_eq!(next(Event::Woke(Wake::Signalled)), Act::AskPacket);
    assert_eq!(next(Event::Woke(Wake::TimedOut)), Act::CheckStop);
    assert_eq!(next(Event::Woke(Wake::Failed)), Act::Fail);
    assert_eq!(next(Event::Packet(5)), Act::TakePacket);
    assert_eq!(next(Event::Taken), Act::AskPacket);
    assert_eq!(next(Event::Packet(0)), Act::AskLacking);
    assert_eq!(next(Event::Lacking(0)), Act::CheckStop);
    assert_eq!(next(Event::Lacking(3)), Act::Render(3));
    assert_eq!(next(Event::Rendered), Act::CheckStop);
}

#[test]
fn a_start_is_reported_or_not() {
    let info = LatencyInfo { capture_frames: 1, render_frames: 2, ring_frames: 3, sample_rate: 4 };
    assert_eq!(started(Some(Ok(info))).ok().unwrap().ring_frames, 3);
    assert!(matches!(started(Some(Err(BackendError::NoDevice))), Err(BackendError::NoDevice)));
    assert_eq!(
        started(None).err().unwrap().message(),
        "後端內部錯誤：音訊執行緒未回報初始化結果"
    );
}

// ASIO

#[test]
fn sample_types_map_to_formats() {
    assert_eq!(map_fmt(SampleType::Int16Lsb).ok(), Some(AsioFmt::I16));
    assert_eq!(map_fmt(SampleType::Int24Lsb).ok(), Some(AsioFmt::I24));
    for t in [
        SampleType::Int32Lsb,
        SampleType::Int32Lsb16,
        SampleType::Int32Lsb18,
        SampleType::Int32Lsb20,
        SampleType::Int32Lsb24,
    ] {
        assert_eq!(map_fmt(t).ok(), Some(AsioFmt::I32));
    }
    assert_eq!(map_fmt(SampleType::Float32Lsb).ok(), Some(AsioFmt::F32));
    assert_eq!(
        map_fmt(SampleType::Int16Msb).err().unwrap().message(),
        "裝置不支援要求的格式：ASIO 樣本格式 ASIOSTInt16MSB 尚未支援（僅支援 LSB 的 Int16/24/32 與 Float32）"
    );
    assert_eq!(fmt_name(AsioFmt::I24), "I24");
    assert_eq!(
        [AsioFmt::I16, AsioFmt::I24, AsioFmt::I32, AsioFmt::F32].map(width),
        [2, 3, 4, 4]
    );
}

#[test]
fn samples_are_read_in_their_format() {
    let i16s = [0x00, 0x40, 0x00, 0x80];
    assert_eq!(f(read_sample::<Fpu>(&i16s, 0, AsioFmt::I16)), 0.5);
    assert_eq!(f(read_sample::<Fpu>(&i16s, 1, AsioFmt::I16)), -1.0);
    let i24s = [0x00, 0x00, 0x40, 0xff, 0xff, 0xff];
    assert_eq!(f(read_sample::<Fpu>(&i24s, 0, AsioFmt::I24)), 0.5);
    assert_eq!(f(read_sample::<Fpu>(&i24s, 1, AsioFmt::I24)), -1.0 / 8_388_608.0);
    let i32s = [0x00, 0x00, 0x00, 0xc0];
    assert_eq!(f(read_sample::<Fpu>(&i32s, 0, AsioFmt::I32)), -0.5);
    let f32s = 0.3f32.to_le_bytes();
    assert_eq!(f(read_sample::<Fpu>(&f32s, 0, AsioFmt::F32)), 0.3);
}

#[test]
fn samples_are_stored_in_their_format() {
    let mut i16s = [0u8; 6];
    write_sample::<Fpu>(&mut i16s, 1, AsioFmt::I16, b(-1.0));
    assert_eq!(i16s, [0, 0, 0x01, 0x80, 0, 0]);
    write_sample::<Fpu>(&mut i16s, 0, AsioFmt::I16, b(2.0));
    assert_eq!(i16s[..2], [0xff, 0x7f]);
    let mut i24s = [0u8; 3];
    write_sample::<Fpu>(&mut i24s, 0, AsioFmt::I24, b(-1.0));
    assert_eq!(i24s, [0x01, 0x00, 0x80]);
    let mut i32s = [0u8; 4];
    write_sample::<Fpu>(&mut i32s, 0, AsioFmt::I32, b(1.0));
    assert_eq!(i32::from_le_bytes(i32s), i32::MAX);
    let mut f32s = [0u8; 4];
    write_sample::<Fpu>(&mut f32s, 0, AsioFmt::F32, b(-3.0));
    assert_eq!(f32::from_le_bytes(f32s), -1.0);
    write_sample::<Fpu>(&mut f32s, 0, AsioFmt::F32, b(0.3));
    assert_eq!(f(read_sample::<Fpu>(&f32s, 0, AsioFmt::F32)), 0.3);
}

#[test]
fn a_callback_converts_on_both_sides() {
    let gain: Gain<Fpu> = Gain::new(SharedParam::new(b(0.5)));
    let mut cb = Callback::new::<Fpu>(gain, AsioFmt::I16, AsioFmt::F32, 48_000, 2);
    cb.take::<Fpu>(&[0x00, 0x40, 0x00, 0x80]);
    let mut out = [0u8; 9];
    out[8] = 77;
    cb.give::<Fpu>(&mut out);
    assert_eq!(out[..4], 0.25f32.to_le_bytes());
    assert_eq!(out[4..8], (-0.5f32).to_le_bytes());
    assert_eq!(out[8], 77);
    assert_eq!((half(0), half(1), half(2), half(-1)), (0, 1, 0, 1));
}

#[test]
fn drivers_are_chosen_and_checked() {
    let names = vec!["A".to_string(), "B".to_string()];
    let mut config = StreamConfig::default();
    assert_eq!(choose_driver(&config, &names).ok().unwrap(), "A");
    assert_eq!(
        choose_driver(&config, &Vec::new()).err().unwrap().message(),
        "後端內部錯誤：找不到任何 ASIO 驅動"
    );
    config.asio_driver = Some("C".to_string());
    assert_eq!(choose_driver(&config, &names).ok().unwrap(), "C");
    assert_eq!(output_channels("D", 1, 8).ok(), Some(2));
    assert_eq!(output_channels("D", 1, 1).ok(), Some(1));
    assert_eq!(
        output_channels("D", 0, 2).err().unwrap().message(),
        "後端內部錯誤：ASIO 驅動「D」通道不足（in=0 out=2）"
    );
    assert_eq!(failed("啟動 ASIO 失敗", "why").message(), "後端內部錯誤：啟動 ASIO 失敗：why");
    assert_eq!(rate_step(0, true, true), RateStep::Keep);
    assert_eq!(rate_step(48_000, false, true), RateStep::Keep);
    assert_eq!(rate_step(48_000, true, true), RateStep::Switch);
    assert_eq!(rate_step(48_000, true, false), RateStep::Unsupported);
    let l = latency(Some((-3, 70)), 64, 48_000);
    assert_eq!((l.capture_frames, l.render_frames, l.ring_frames), (0, 70, 0));
    let l = latency(None, 64, 48_000);
    assert_eq!((l.capture_frames, l.render_frames, l.sample_rate), (64, 64, 48_000));
}

// Devices and the processor

fn raw(id: &str, name: Option<&str>) -> RawDevice {
    RawDevice { id: id.to_string(), name: name.map(|n| n.to_string()) }
}

#[test]
fn the_default_device_is_listed_first() {
    let devices = vec![raw("a", Some("Alpha")), raw("b", None), raw("c", Some("Gamma"))];
    let list = list_devices(&Some("c".to_string()), devices);
    let names: Vec<&str> = list.iter().map(|d| d.name.as_str()).collect();
    assert_eq!(names, ["Gamma", "Alpha", "（未知裝置）"]);
    assert!(list[0].is_default && !list[1].is_default);
    assert_eq!(entry(&list[0]), "Gamma（預設）");
    assert_eq!(entry(&list[1]), "Alpha");
    assert_eq!(device_label(&list, &None), "系統預設");
    assert_eq!(device_label(&list, &Some("a".to_string())), "Alpha");
    assert_eq!(device_label(&list, &Some("x".to_string())), "（裝置已移除）");
    let none = list_devices(&None, vec![raw("a", None), raw("b", None)]);
    assert_eq!(none[0].id, "a");
    assert!(DeviceLists::default().capture.is_empty());
}

#[test]
fn denormals_are_switched_off() {
    assert_eq!(enable_flush_denormals(0x1f80), 0x9fc0);
    assert_eq!(enable_flush_denormals(0x9fc0), 0x9fc0);
}

// Files

fn wav(channels: u16, bits: u16, float: bool, rate: u32, data: &[u8]) -> Vec<u8> {
    let align = channels * (bits / 8);
    let mut v: Vec<u8> = Vec::new();
    v.extend(b"RIFF");
    v.extend((36 + data.len() as u32).to_le_bytes());
    v.extend(b"WAVEfmt ");
    v.extend(16u32.to_le_bytes());
    v.extend((if float { 3u16 } else { 1u16 }).to_le_bytes());
    v.extend(channels.to_le_bytes());
    v.extend(rate.to_le_bytes());
    v.extend((rate * align as u32).to_le_bytes());
    v.extend(align.to_le_bytes());
    v.extend(bits.to_le_bytes());
    v.extend(b"data");
    v.extend((data.len() as u32).to_le_bytes());
    v.extend(data);
    v
}

#[test]
fn integer_files_are_scaled() {
    // Two channels of 16 bits: the first is taken.
    let file = wav(2, 16, false, 44_100, &[0x00, 0x40, 1, 1, 0x00, 0x80, 2, 2]);
    match load_ir::<Fpu>(&file) {
        Loaded::Ready(ir, rate) => {
            assert_eq!(floats(&ir), [0.5, -1.0]);
            assert_eq!(rate, 44_100);
        }
        _ => panic!("not loaded"),
    }
    let file = wav(1, 24, false, 48_000, &[0, 0, 0x40, 0, 0, 0xc0]);
    match load_ir::<Fpu>(&file) {
        Loaded::Ready(ir, _) => assert_eq!(floats(&ir), [0.5, -0.5]),
        _ => panic!("not loaded"),
    }
}

#[test]
fn broken_files_are_reported() {
    match load_ir::<Fpu>(b"no file") {
        Loaded::Failed(why) => assert_eq!(why, "Ill-formed WAVE file: no RIFF tag found"),
        _ => panic!("loaded"),
    }
    match load_ir::<Fpu>(&wav(1, 16, false, 48_000, &[])) {
        Loaded::Failed(why) => assert_eq!(why, "檔案沒有樣本"),
        _ => panic!("loaded"),
    }
    // A file that ends early: what is missing is silence.
    let mut file = wav(1, 16, false, 48_000, &[0x00, 0x40, 0x00, 0x40]);
    file.truncate(file.len() - 2);
    match load_ir::<Fpu>(&file) {
        Loaded::Ready(ir, _) => assert_eq!(floats(&ir), [0.5, 0.0]),
        _ => panic!("not loaded"),
    }
}

#[test]
fn float_files_are_left_to_be_read() {
    let file = wav(2, 32, true, 96_000, &0.25f32.to_le_bytes().repeat(2));
    match load_ir::<Fpu>(&file) {
        Loaded::Floats(spec) => {
            assert_eq!((spec.channels, spec.sample_rate, spec.float), (2, 96_000, true));
            let samples = vec![Some(b(0.25)), Some(b(0.5)), None, Some(b(0.75))];
            match load_floats(&samples, spec) {
                Loaded::Ready(ir, rate) => {
                    assert_eq!(floats(&ir), [0.25, 0.0]);
                    assert_eq!(rate, 96_000);
                }
                _ => panic!("not loaded"),
            }
            assert!(matches!(load_floats(&Vec::new(), spec), Loaded::Failed(_)));
        }
        _ => panic!("not float"),
    }
}

#[test]
fn integers_are_divided_by_their_range() {
    let spec = WavSpec { channels: 0, sample_rate: 8000, bits_per_sample: 8, float: false };
    match load_integers::<Fpu>(&vec![Some(64), None, Some(-128)], spec) {
        Loaded::Ready(ir, rate) => {
            assert_eq!(floats(&ir), [0.5, 0.0, -1.0]);
            assert_eq!(rate, 8000);
        }
        _ => panic!("not loaded"),
    }
    assert!(matches!(load_integers::<Fpu>(&Vec::new(), spec), Loaded::Failed(_)));
    // The widest range is positive too.
    let wide = WavSpec { bits_per_sample: 64, ..spec };
    match load_integers::<Fpu>(&vec![Some(1 << 30)], wide) {
        Loaded::Ready(ir, _) => assert_eq!(floats(&ir), [2f32.powi(-33)]),
        _ => panic!("not loaded"),
    }
}

#[test]
fn files_wider_than_any_integer_are_not_read() {
    let mut v: Vec<u8> = Vec::new();
    v.extend(b"RIFF");
    v.extend(60u32.to_le_bytes());
    v.extend(b"WAVEfmt ");
    v.extend(40u32.to_le_bytes());
    v.extend(0xfffeu16.to_le_bytes());
    v.extend(1u16.to_le_bytes());
    v.extend(48_000u32.to_le_bytes());
    v.extend(192_000u32.to_le_bytes());
    v.extend(4u16.to_le_bytes());
    v.extend(32u16.to_le_bytes());
    v.extend(22u16.to_le_bytes());
    v.extend(100u16.to_le_bytes());
    v.extend(0u32.to_le_bytes());
    v.extend([1, 0, 0, 0, 0, 0, 0x10, 0, 0x80, 0, 0, 0xaa, 0, 0x38, 0x9b, 0x71]);
    v.extend(b"data");
    v.extend(4u32.to_le_bytes());
    v.extend([0u8; 4]);
    assert!(matches!(load_ir::<Fpu>(&v), Loaded::TooWide(100)));
}
