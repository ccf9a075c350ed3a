//! The rig: what the user has set up, and what follows from it.
//!
//! The signal chain is noise gate, drive, cabinet if an impulse response is loaded,
//! reverb, volume and peak meter, in this order. The caller opens streams and
//! reports what came of it.
use crate::arith::{difference_is, exp10_is, product_is, Arith};
use crate::backend::{
    copied_name, same_name, BackendError, BackendKind, LatencyInfo, RunningStream, StreamConfig,
};
use crate::bits::{
    at_least, below, clamp, clamped, ge, larger, lesser, lt, max, min, negated, not_a_number, HALF,
    ONE, ZERO,
};
use crate::cab::{CabIr, Convolver};
use crate::devices::DeviceLists;
use crate::drive::Drive;
use crate::gate::Gate;
use crate::number::{
    between_is_finite, constants_round, exact_results_are_hit, faithful, finite, one, rounds,
    rounds_above, rounds_below, rounds_scales, units, units_follow_the_order,
    units_of_negated, units_of_one, whole, whole_numbers_are_numbers,
};
use crate::panel::{
    gripped_is, level, level_is, slid_is, slide, turn, Fader, Grip, Touch,
};
use crate::param::{take, taken_is, Gain, MeterHandle, PeakMeter, SharedParam};
use crate::processor::{AudioProcessor, Chain};
use crate::reverb::Reverb;
use vstd::prelude::*;
use vstd::string::*;

verus! {

/// A stage of the signal chain.
pub enum Stage<F, C> {
    /// The noise gate.
    Gate(Gate<F>),
    /// The distortion.
    Drive(Drive<F>),
    /// The cabinet.
    Cab(CabIr<F, C>),
    /// The reverb.
    Reverb(Reverb<F>),
    /// The volume.
    Gain(Gain<F>),
    /// The peak meter.
    Meter(PeakMeter),
}

impl<F: Arith, C: Convolver> AudioProcessor for Stage<F, C> {
    open spec fn wf(&self) -> bool {
        match self {
            Stage::Gate(u) => u.wf(),
            Stage::Drive(u) => u.wf(),
            Stage::Cab(u) => u.wf(),
            Stage::Reverb(u) => u.wf(),
            Stage::Gain(u) => u.wf(),
            Stage::Meter(u) => u.wf(),
        }
    }

    open spec fn accepts(&self, n: nat) -> bool {
        match self {
            Stage::Gate(u) => u.accepts(n),
            Stage::Drive(u) => u.accepts(n),
            Stage::Cab(u) => u.accepts(n),
            Stage::Reverb(u) => u.accepts(n),
            Stage::Gain(u) => u.accepts(n),
            Stage::Meter(u) => u.accepts(n),
        }
    }

    open spec fn resettable(&self) -> bool {
        match self {
            Stage::Gate(u) => u.resettable(),
            Stage::Drive(u) => u.resettable(),
            Stage::Cab(u) => u.resettable(),
            Stage::Reverb(u) => u.resettable(),
            Stage::Gain(u) => u.resettable(),
            Stage::Meter(u) => u.resettable(),
        }
    }

    open spec fn prepared(&self, sample_rate: u32, max_block: usize, after: Self) -> bool {
        match (*self, after) {
            (Stage::Gate(u), Stage::Gate(v)) => u.prepared(sample_rate, max_block, v),
            (Stage::Drive(u), Stage::Drive(v)) => u.prepared(sample_rate, max_block, v),
            (Stage::Cab(u), Stage::Cab(v)) => u.prepared(sample_rate, max_block, v),
            (Stage::Reverb(u), Stage::Reverb(v)) => u.prepared(sample_rate, max_block, v),
            (Stage::Gain(u), Stage::Gain(v)) => u.prepared(sample_rate, max_block, v),
            (Stage::Meter(u), Stage::Meter(v)) => u.prepared(sample_rate, max_block, v),
            _ => false,
        }
    }

    open spec fn processed(&self, input: Seq<u32>, after: Self, output: Seq<u32>) -> bool {
        match (*self, after) {
            (Stage::Gate(u), Stage::Gate(v)) => u.processed(input, v, output),
            (Stage::Drive(u), Stage::Drive(v)) => u.processed(input, v, output),
            (Stage::Cab(u), Stage::Cab(v)) => u.processed(input, v, output),
            (Stage::Reverb(u), Stage::Reverb(v)) => u.processed(input, v, output),
            (Stage::Gain(u), Stage::Gain(v)) => u.processed(input, v, output),
            (Stage::Meter(u), Stage::Meter(v)) => u.processed(input, v, output),
            _ => false,
        }
    }

    open spec fn cleared(&self, after: Self) -> bool {
        match (*self, after) {
            (Stage::Gate(u), Stage::Gate(v)) => u.cleared(v),
            (Stage::Drive(u), Stage::Drive(v)) => u.cleared(v),
            (Stage::Cab(u), Stage::Cab(v)) => u.cleared(v),
            (Stage::Reverb(u), Stage::Reverb(v)) => u.cleared(v),
            (Stage::Gain(u), Stage::Gain(v)) => u.cleared(v),
            (Stage::Meter(u), Stage::Meter(v)) => u.cleared(v),
            _ => false,
        }
    }

    fn prepare(&mut self, sample_rate: u32, max_block: usize) {
        match self {
            Stage::Gate(u) => u.prepare(sample_rate, max_block),
            Stage::Drive(u) => u.prepare(sample_rate, max_block),
            Stage::Cab(u) => u.prepare(sample_rate, max_block),
            Stage::Reverb(u) => u.prepare(sample_rate, max_block),
            Stage::Gain(u) => u.prepare(sample_rate, max_block),
            Stage::Meter(u) => u.prepare(sample_rate, max_block),
        }
    }

    fn process(&mut self, buf: &mut [u32]) {
        match self {
            Stage::Gate(u) => u.process(buf),
            Stage::Drive(u) => u.process(buf),
            Stage::Cab(u) => u.process(buf),
            Stage::Reverb(u) => u.process(buf),
            Stage::Gain(u) => u.process(buf),
            Stage::Meter(u) => u.process(buf),
        }
    }

    fn reset(&mut self) {
        match self {
            Stage::Gate(u) => u.reset(),
            Stage::Drive(u) => u.reset(),
            Stage::Cab(u) => u.reset(),
            Stage::Reverb(u) => u.reset(),
            Stage::Gain(u) => u.reset(),
            Stage::Meter(u) => u.reset(),
        }
    }
}

/// 800 Hz, the lower end of the tone control.
pub const TONE_BOTTOM: u32 = 0x4448_0000;

/// Where the tone control stands at first, 0.55.
pub const TONE_DEFAULT: u32 = 0x3f0c_cccd;

/// The drive at first, 18 dB.
pub const DRIVE_DEFAULT: u32 = 0x4190_0000;

/// The most drive, 40 dB.
pub const DRIVE_TOP: u32 = 0x4220_0000;

/// The strength of the noise gate at first, 0.3.
pub const GATE_DEFAULT: u32 = 0x3e99_999a;

/// The mix of the reverb at first, 0.25.
pub const REVERB_DEFAULT: u32 = 0x3e80_0000;

/// What the meter shows at rest, -80 dB.
pub const METER_REST: u32 = 0xc2a0_0000;

/// Up to a peak of 1e-5 the meter shows rest.
pub const SILENT_PEAK: u32 = 0x3727_c5ac;

/// The meter falls by 30 dB a second.
pub const METER_FALL: u32 = 0x41f0_0000;

/// No step of the meter is longer than 0.1 s.
pub const LONGEST_STEP: u32 = 0x3dcc_cccd;

/// From 0.999 on the signal clips.
pub const CLIP_PEAK: u32 = 0x3f7f_be77;

/// The lamp for clipping stays on for a second.
pub const CLIP_MS: u64 = 1000;

/// A thousand.
pub const THOUSAND: u32 = 0x447a_0000;

/// `r` is a result of the frequency that the tone control stands for:
/// `800 * 10^norm`, `norm` within 0 to 1.
pub open spec fn tone_is<F: Arith>(norm: u32, r: u32) -> bool {
    exists|p: u32| #[trigger]
        exp10_is::<F>(clamped(norm, ZERO, ONE), p) && product_is::<F>(TONE_BOTTOM, p, r)
}

/// The frequency that the tone control stands for.
pub fn tone_norm_to_hz<F: Arith>(norm: u32) -> (r: u32)
    ensures
        tone_is::<F>(norm, r),
{
    let p: u32 = F::exp10(clamp(norm, ZERO, ONE));
    assert(exp10_is::<F>(clamped(norm, ZERO, ONE), p));
    F::times(TONE_BOTTOM, p)
}

/// How a frequency is written, given its digits in kilohertz and in hertz.
pub fn tone_label(hz: u32, khz_digits: &str, hz_digits: &str) -> (r: String)
    ensures
        r@ == if at_least(hz, THOUSAND) {
            khz_digits@ + "k"@
        } else {
            hz_digits@ + "Hz"@
        },
{
    if ge(hz, THOUSAND) {
        khz_digits.to_owned().concat("k")
    } else {
        hz_digits.to_owned().concat("Hz")
    }
}

/// A switch as a parameter.
pub open spec fn switched(on: bool) -> u32 {
    if on {
        ONE
    } else {
        ZERO
    }
}

/// The rig, with a stream of type `S` while it runs.
pub struct Rig<S> {
    /// The stream, while it runs.
    pub stream: Option<S>,
    /// Its latency.
    pub latency: Option<LatencyInfo>,
    /// What went wrong last.
    pub error: Option<String>,
    /// The volume as the fader shows it.
    pub vol_lin: u32,
    /// The volume.
    pub volume: SharedParam,
    /// The peak meter.
    pub meter: MeterHandle,
    /// What the meter shows, in decibels.
    pub disp_db: u32,
    /// Until when the lamp for clipping is on, in milliseconds.
    pub clip_until: Option<u64>,
    /// The drive as the knob shows it, in decibels.
    pub drive_db_v: u32,
    /// The tone as the knob shows it, 0 to 1.
    pub tone_norm: u32,
    /// The drive.
    pub drive_db: SharedParam,
    /// The tone.
    pub tone_hz: SharedParam,
    /// The switch of the distortion.
    pub drive_on_p: SharedParam,
    /// Whether the distortion is shown as on.
    pub drive_on: bool,
    /// The strength of the noise gate as the knob shows it, 0 to 1.
    pub gate_v: u32,
    /// The strength of the noise gate.
    pub gate_amount: SharedParam,
    /// The switch of the noise gate.
    pub gate_on_p: SharedParam,
    /// Whether the noise gate is shown as on.
    pub gate_on: bool,
    /// The mix of the reverb as the knob shows it, 0 to 1.
    pub reverb_v: u32,
    /// The mix of the reverb.
    pub reverb_mix: SharedParam,
    /// The switch of the reverb.
    pub reverb_on_p: SharedParam,
    /// Whether the reverb is shown as on.
    pub reverb_on: bool,
    /// The switch of the cabinet.
    pub cab_on_p: SharedParam,
    /// Whether the cabinet is shown as on.
    pub cab_on: bool,
    /// The impulse response and its sample rate.
    pub ir: Option<(Vec<u32>, u32)>,
    /// The name of its file.
    pub ir_name: Option<String>,
    /// The devices there are.
    pub devices: DeviceLists,
    /// The capture device; the default one if absent.
    pub sel_capture: Option<String>,
    /// The render device; the default one if absent.
    pub sel_render: Option<String>,
    /// The backend.
    pub backend: BackendKind,
}

/// `latency` is what the stream reports.
pub open spec fn reports<S: RunningStream>(stream: S, latency: LatencyInfo) -> bool {
    call_ensures(S::latency, (&stream,), latency)
}

/// A look at the stream finds it alive, or not.
pub open spec fn found<S: RunningStream>(stream: S, alive: bool) -> bool {
    call_ensures(S::is_alive, (&stream,), alive)
}

impl<S: RunningStream> Rig<S> {
    /// Whether the rig runs.
    pub open spec fn runs(&self) -> bool {
        self.stream is Some
    }

    /// A rig at rest, with the devices there are.
    pub fn new<F: Arith>(devices: DeviceLists) -> (r: Self)
        ensures
            r.stream is None && r.latency is None && r.error is None,
            r.vol_lin == ONE,
            r.disp_db == METER_REST,
            r.clip_until is None,
            r.drive_db_v == DRIVE_DEFAULT,
            r.tone_norm == TONE_DEFAULT,
            r.gate_v == GATE_DEFAULT,
            r.reverb_v == REVERB_DEFAULT,
            r.drive_on && r.cab_on && !r.gate_on && !r.reverb_on,
            r.ir is None && r.ir_name is None,
            r.devices == devices,
            r.sel_capture is None && r.sel_render is None,
            r.backend == BackendKind::WasapiShared,
            r.volume.starts_at(r.vol_lin),
            r.meter.starts_at(ZERO),
            r.drive_db.starts_at(r.drive_db_v),
            exists|hz: u32| #[trigger]
                r.tone_hz.starts_at(hz) && tone_is::<F>(r.tone_norm, hz),
            r.drive_on_p.starts_at(switched(r.drive_on)),
            r.gate_amount.starts_at(r.gate_v),
            r.gate_on_p.starts_at(switched(r.gate_on)),
            r.reverb_mix.starts_at(r.reverb_v),
            r.reverb_on_p.starts_at(switched(r.reverb_on)),
            r.cab_on_p.starts_at(switched(r.cab_on)),
    {
        let hz: u32 = tone_norm_to_hz::<F>(TONE_DEFAULT);
        let tone_hz = SharedParam::new(hz);
        let r = Rig {
            stream: None,
            latency: None,
            error: None,
            vol_lin: ONE,
            volume: SharedParam::new(ONE),
            meter: MeterHandle::new(),
            disp_db: METER_REST,
            clip_until: None,
            drive_db_v: DRIVE_DEFAULT,
            tone_norm: TONE_DEFAULT,
            drive_db: SharedParam::new(DRIVE_DEFAULT),
            tone_hz,
            drive_on_p: SharedParam::new(ONE),
            drive_on: true,
            gate_v: GATE_DEFAULT,
            gate_amount: SharedParam::new(GATE_DEFAULT),
            gate_on_p: SharedParam::new(ZERO),
            gate_on: false,
            reverb_v: REVERB_DEFAULT,
            reverb_mix: SharedParam::new(REVERB_DEFAULT),
            reverb_on_p: SharedParam::new(ZERO),
            reverb_on: false,
            cab_on_p: SharedParam::new(ONE),
            cab_on: true,
            ir: None,
            ir_name: None,
            devices,
            sel_capture: None,
            sel_render: None,
            backend: BackendKind::WasapiShared,
        };
        assert(r.tone_hz.starts_at(hz) && tone_is::<F>(r.tone_norm, hz));
        r
    }

    /// `stages` are the chain that the rig stands for, each as it is made and wired to
    /// its controls.
    pub open spec fn wired<F: Arith, C: Convolver>(&self, stages: Seq<Stage<F, C>>) -> bool {
        let cab = if self.ir is Some {
            1int
        } else {
            0
        };
        &&& stages.len() == 5 + cab
        &&& stages[0] matches Stage::Gate(u) && u.amount == self.gate_amount && u.enabled
            == self.gate_on_p && u.untouched()
        &&& stages[1] matches Stage::Drive(u) && u.drive_db == self.drive_db && u.tone_hz
            == self.tone_hz && u.enabled == self.drive_on_p && u.untouched()
        &&& match self.ir {
            None => true,
            Some((raw, sr)) => stages[2] matches Stage::Cab(u) && u.raw@ == raw@ && u.raw_sr == sr
                && u.enabled == self.cab_on_p && u.untouched(),
        }
        &&& stages[2 + cab] matches Stage::Reverb(u) && u.mix == self.reverb_mix && u.enabled
            == self.reverb_on_p && u.untouched()
        &&& stages[3 + cab] matches Stage::Gain(u) && u.param == self.volume && u.untouched()
        &&& stages[4 + cab] matches Stage::Meter(u) && u.handle == self.meter && u.untouched()
    }

    /// The signal chain that the rig stands for.
    pub fn chain<F: Arith, C: Convolver>(&self) -> (r: Chain<Stage<F, C>>)
        ensures
            self.wired(r@),
            r.wf(),
    {
        let mut chain: Chain<Stage<F, C>> = Chain::new();
        let _ = chain.push(Stage::Gate(Gate::new(self.gate_amount.clone(), self.gate_on_p.clone())));
        let _ = chain.push(
            Stage::Drive(
                Drive::new(self.drive_db.clone(), self.tone_hz.clone(), self.drive_on_p.clone()),
            ),
        );
        if let Some((raw, sr)) = &self.ir {
            let _ = chain.push(Stage::Cab(CabIr::new(raw.clone(), *sr, self.cab_on_p.clone())));
        }
        let _ = chain.push(
            Stage::Reverb(Reverb::new(self.reverb_mix.clone(), self.reverb_on_p.clone())),
        );
        let _ = chain.push(Stage::Gain(Gain::new(self.volume.clone())));
        let _ = chain.push(Stage::Meter(PeakMeter::new(self.meter.clone())));
        chain
    }

    /// What a stream for the rig is opened with: the devices chosen, everything
    /// else by default.
    pub fn config(&self) -> (r: StreamConfig)
        ensures
            r.sample_rate == 48_000,
            r.block_size == 128,
            r.channels == 1,
            same_name(self.sel_capture, r.capture_id),
            same_name(self.sel_render, r.render_id),
            r.asio_driver is None,
    {
        let mut config = StreamConfig::default();
        config.capture_id = copied_name(&self.sel_capture);
        config.render_id = copied_name(&self.sel_render);
        config
    }

    /// Takes note of what came of opening a stream: it runs, or it is said why not.
    pub fn opened(&mut self, result: Result<S, BackendError>)
        ensures
            match result {
                Ok(s) => {
                    &&& *final(self) == (Rig {
                        stream: Some(s),
                        latency: final(self).latency,
                        error: None,
                        ..*old(self)
                    })
                    &&& final(self).latency is Some
                    &&& reports(s, final(self).latency->0)
                },
                Err(e) => {
                    &&& *final(self) == (Rig { error: final(self).error, ..*old(self) })
                    &&& final(self).error is Some
                    &&& final(self).error->0@ == e.shown()
                },
            },
    {
        match result {
            Ok(s) => {
                let latency = s.latency();
                self.latency = Some(latency);
                self.stream = Some(s);
                self.error = None;
            },
            Err(e) => {
                self.error = Some(e.message());
            },
        }
    }

    /// The rig at rest: no stream, no latency, the meter at rest.
    pub open spec fn stopped(&self) -> Self {
        Rig { stream: None, latency: None, disp_db: METER_REST, ..*self }
    }

    /// Stops the stream.
    pub fn stop(&mut self)
        ensures
            *final(self) == old(self).stopped(),
    {
        self.stream = None;
        self.latency = None;
        self.disp_db = METER_REST;
    }

    /// Whether the rig runs.
    pub fn running(&self) -> (r: bool)
        ensures
            r == self.runs(),
    {
        self.stream.is_some()
    }

    /// Stops the stream if it runs, and returns whether it is to be started anew.
    pub fn stop_to_restart(&mut self) -> (restart: bool)
        ensures
            restart == old(self).runs(),
            *final(self) == if old(self).runs() {
                old(self).stopped()
            } else {
                *old(self)
            },
    {
        if self.running() {
            self.stop();
            true
        } else {
            false
        }
    }

    /// Chooses devices and a backend. Returns whether anything changed.
    pub fn select(
        &mut self,
        capture: Option<String>,
        render: Option<String>,
        backend: BackendKind,
    ) -> (changed: bool)
        ensures
            changed == !(same_name(old(self).sel_capture, capture) && same_name(
                old(self).sel_render,
                render,
            ) && old(self).backend == backend),
            *final(self) == (Rig {
                sel_capture: capture,
                sel_render: render,
                backend,
                ..*old(self)
            }),
    {
        let same: bool = is_same_name(&self.sel_capture, &capture) && is_same_name(
            &self.sel_render,
            &render,
        ) && self.backend == backend;
        self.sel_capture = capture;
        self.sel_render = render;
        self.backend = backend;
        !same
    }

    /// Takes note of the devices found, or of why there are none.
    pub fn refreshed(&mut self, found: Result<DeviceLists, BackendError>)
        ensures
            match found {
                Ok(devices) => *final(self) == (Rig { devices, ..*old(self) }),
                Err(e) => {
                    &&& *final(self) == (Rig { error: final(self).error, ..*old(self) })
                    &&& final(self).error is Some
                    &&& final(self).error->0@ == "裝置列舉失敗："@ + e.shown()
                },
            },
    {
        match found {
            Ok(devices) => {
                self.devices = devices;
            },
            Err(e) => {
                self.error = Some("裝置列舉失敗：".to_owned().concat(e.message().as_str()));
            },
        }
    }

    /// Takes note of an impulse response that was loaded from a file of the given
    /// name, or of why it was not. Returns whether the chain changed.
    pub fn ir_loaded(
        &mut self,
        loaded: Result<(Vec<u32>, u32), String>,
        name: Option<String>,
    ) -> (changed: bool)
        ensures
            match loaded {
                Ok(ir) => {
                    &&& changed
                    &&& *final(self) == (Rig {
                        ir: Some(ir),
                        ir_name: name,
                        cab_on: true,
                        error: None,
                        ..*old(self)
                    })
                    &&& final(self).cab_on_p.was_set(switched(true))
                },
                Err(why) => {
                    &&& !changed
                    &&& *final(self) == (Rig { error: final(self).error, ..*old(self) })
                    &&& final(self).error is Some
                    &&& final(self).error->0@ == "IR 載入失敗："@ + why@
                },
            },
    {
        match loaded {
            Ok(ir) => {
                self.ir = Some(ir);
                self.ir_name = name;
                self.cab_on = true;
                self.cab_on_p.set(ONE);
                self.error = None;
                true
            },
            Err(why) => {
                self.error = Some("IR 載入失敗：".to_owned().concat(why.as_str()));
                false
            },
        }
    }

    /// Flips the switch of the distortion.
    pub fn toggle_drive(&mut self)
        ensures
            *final(self) == (Rig { drive_on: !old(self).drive_on, ..*old(self) }),
            final(self).drive_on_p.was_set(switched(final(self).drive_on)),
    {
        self.drive_on = !self.drive_on;
        self.drive_on_p.set(switch(self.drive_on));
    }

    /// Flips the switch of the noise gate.
    pub fn toggle_gate(&mut self)
        ensures
            *final(self) == (Rig { gate_on: !old(self).gate_on, ..*old(self) }),
            final(self).gate_on_p.was_set(switched(final(self).gate_on)),
    {
        self.gate_on = !self.gate_on;
        self.gate_on_p.set(switch(self.gate_on));
    }

    /// Flips the switch of the reverb.
    pub fn toggle_reverb(&mut self)
        ensures
            *final(self) == (Rig { reverb_on: !old(self).reverb_on, ..*old(self) }),
            final(self).reverb_on_p.was_set(switched(final(self).reverb_on)),
    {
        self.reverb_on = !self.reverb_on;
        self.reverb_on_p.set(switch(self.reverb_on));
    }

    /// Flips the switch of the cabinet.
    pub fn toggle_cab(&mut self)
        ensures
            *final(self) == (Rig { cab_on: !old(self).cab_on, ..*old(self) }),
            final(self).cab_on_p.was_set(switched(final(self).cab_on)),
    {
        self.cab_on = !self.cab_on;
        self.cab_on_p.set(switch(self.cab_on));
    }

    /// Turns the drive. Returns whether it changed; if so, the distortion is told.
    pub fn turn_drive<F: Arith>(&mut self, grip: Grip) -> (changed: bool)
        ensures
            *final(self) == (Rig { drive_db_v: final(self).drive_db_v, ..*old(self) }),
            gripped_is::<F>(
                old(self).drive_db_v,
                grip,
                DRIVE_DEFAULT,
                ZERO,
                DRIVE_TOP,
                final(self).drive_db_v,
            ),
            changed == (final(self).drive_db_v != old(self).drive_db_v),
            changed ==> final(self).drive_db.was_set(final(self).drive_db_v),
    {
        let (v, changed) = turn::<F>(self.drive_db_v, grip, true, DRIVE_DEFAULT, ZERO, DRIVE_TOP);
        self.drive_db_v = v;
        if changed {
            self.drive_db.set(v);
        }
        changed
    }

    /// Turns the tone. Returns whether it changed; if so, the distortion is told
    /// the frequency that it stands for.
    pub fn turn_tone<F: Arith>(&mut self, grip: Grip) -> (changed: bool)
        ensures
            *final(self) == (Rig { tone_norm: final(self).tone_norm, ..*old(self) }),
            gripped_is::<F>(
                old(self).tone_norm,
                grip,
                TONE_DEFAULT,
                ZERO,
                ONE,
                final(self).tone_norm,
            ),
            changed == (final(self).tone_norm != old(self).tone_norm),
            changed ==> exists|hz: u32| #[trigger]
                final(self).tone_hz.was_set(hz) && tone_is::<F>(final(self).tone_norm, hz),
    {
        let (v, changed) = turn::<F>(self.tone_norm, grip, true, TONE_DEFAULT, ZERO, ONE);
        self.tone_norm = v;
        if changed {
            let hz: u32 = tone_norm_to_hz::<F>(v);
            self.tone_hz.set(hz);
            assert(self.tone_hz.was_set(hz));
        }
        changed
    }

    /// Turns the strength of the noise gate. Returns whether it changed; if so, the
    /// noise gate is told.
    pub fn turn_gate<F: Arith>(&mut self, grip: Grip) -> (changed: bool)
        ensures
            *final(self) == (Rig { gate_v: final(self).gate_v, ..*old(self) }),
            gripped_is::<F>(old(self).gate_v, grip, HALF, ZERO, ONE, final(self).gate_v),
            changed == (final(self).gate_v != old(self).gate_v),
            changed ==> final(self).gate_amount.was_set(final(self).gate_v),
    {
        let (v, changed) = turn::<F>(self.gate_v, grip, true, HALF, ZERO, ONE);
        self.gate_v = v;
        if changed {
            self.gate_amount.set(v);
        }
        changed
    }

    /// Turns the mix of the reverb. Returns whether it changed; if so, the reverb is
    /// told.
    pub fn turn_reverb<F: Arith>(&mut self, grip: Grip) -> (changed: bool)
        ensures
            *final(self) == (Rig { reverb_v: final(self).reverb_v, ..*old(self) }),
            gripped_is::<F>(old(self).reverb_v, grip, HALF, ZERO, ONE, final(self).reverb_v),
            changed == (final(self).reverb_v != old(self).reverb_v),
            changed ==> final(self).reverb_mix.was_set(final(self).reverb_v),
    {
        let (v, changed) = turn::<F>(self.reverb_v, grip, true, HALF, ZERO, ONE);
        self.reverb_v = v;
        if changed {
            self.reverb_mix.set(v);
        }
        changed
    }

    /// Moves the fader of the volume. Returns where it stands; if the gain changed,
    /// the volume is told.
    pub fn slide_volume<F: Arith>(&mut self, touch: Touch, top: u32, h: u32) -> (fader: Fader)
        ensures
            *final(self) == (Rig { vol_lin: fader.gain, ..*old(self) }),
            slid_is::<F>(old(self).vol_lin, touch, top, h, fader),
            fader.changed ==> final(self).volume.was_set(fader.gain),
    {
        let fader = slide::<F>(self.vol_lin, touch, top, h);
        self.vol_lin = fader.gain;
        if fader.changed {
            self.volume.set(fader.gain);
        }
        fader
    }

    /// `after` is the rig once its stream was found alive or not: one whose thread
    /// has ended is stopped, and that is said.
    pub open spec fn watched(&self, alive: bool, after: Self) -> bool {
        if self.runs() && !alive {
            &&& after == (Rig { error: after.error, ..self.stopped() })
            &&& after.error is Some
            &&& after.error->0@ == "音訊執行緒已停止（裝置被拔除或驅動錯誤）"@
        } else {
            after == *self
        }
    }

    /// Looks after the stream.
    pub fn watch(&mut self, alive: bool)
        ensures
            old(self).watched(alive, *final(self)),
    {
        if self.running() && !alive {
            self.error = Some("音訊執行緒已停止（裝置被拔除或驅動錯誤）".to_owned());
            self.stop();
        }
    }

    /// `after` is the rig once it has shown a peak at the time `now`, `dt` seconds
    /// after the last.
    pub open spec fn peak_shown<F: Arith>(&self, peak: u32, dt: u32, now: u64, after: Self) -> bool {
        &&& shown_is::<F>(self.disp_db, peak, dt, after.disp_db)
        &&& after == (Rig {
            disp_db: after.disp_db,
            clip_until: if at_least(peak, CLIP_PEAK) {
                Some((now + CLIP_MS) as u64)
            } else {
                self.clip_until
            },
            ..*self
        })
    }

    /// Shows a peak at the time `now`, `dt` seconds after the last.
    pub fn show<F: Arith>(&mut self, peak: u32, dt: u32, now: u64)
        requires
            now + CLIP_MS <= u64::MAX,
        ensures
            old(self).peak_shown::<F>(peak, dt, now, *final(self)),
    {
        self.disp_db = fallen::<F>(self.disp_db, peak, dt);
        if ge(peak, CLIP_PEAK) {
            self.clip_until = Some(now + CLIP_MS);
        }
    }

    /// Whether the lamp for clipping is on.
    pub fn clipping(&self, now: u64) -> (r: bool)
        ensures
            r == (self.clip_until is Some && now < self.clip_until->0),
    {
        match self.clip_until {
            Some(t) => now < t,
            None => false,
        }
    }

    /// One look at the rig, `dt` seconds after the last: the stream is looked
    /// after, and the peak shown while it runs.
    pub fn look<F: Arith>(&mut self, dt: u32, now: u64)
        requires
            now + CLIP_MS <= u64::MAX,
        ensures
            match old(self).stream {
                None => *final(self) == *old(self),
                Some(s) => {
                    ||| found(s, false) && old(self).watched(false, *final(self))
                    ||| found(s, true) && exists|peak: u32| #[trigger]
                        old(self).peak_shown::<F>(peak, dt, now, *final(self)) && taken_is(
                            old(self).meter,
                            peak,
                        )
                },
            },
    {
        let alive: bool = match &self.stream {
            Some(s) => s.is_alive(),
            None => true,
        };
        self.watch(alive);
        if self.running() {
            let peak: u32 = take(&self.meter);
            self.show::<F>(peak, dt, now);
            assert(old(self).peak_shown::<F>(peak, dt, now, *self));
        }
    }

    /// How many milliseconds may pass until the next look.
    pub fn patience(&self) -> (ms: u64)
        ensures
            ms == if self.runs() {
                33int
            } else {
                250
            },
    {
        if self.running() {
            33
        } else {
            250
        }
    }

    /// What is said of the state.
    pub fn status(&self) -> (r: &'static str)
        ensures
            r@ == if self.runs() {
                "運轉中"@
            } else {
                "待機"@
            },
    {
        if self.running() {
            "運轉中"
        } else {
            "待機"
        }
    }

    /// What is said below the big button.
    pub fn hint(&self) -> (r: &'static str)
        ensures
            r@ == if self.runs() {
                "直通中 — 彈彈看"@
            } else {
                "點擊啟動引擎"@
            },
    {
        if self.running() {
            "直通中 — 彈彈看"
        } else {
            "點擊啟動引擎"
        }
    }

    /// What is said of the impulse response: its file, or that there is none.
    pub fn ir_label(&self) -> (r: String)
        ensures
            r@ == match self.ir_name {
                Some(name) => name@,
                None => "未載入（CAB 不作用）"@,
            },
    {
        match &self.ir_name {
            Some(name) => name.clone(),
            None => "未載入（CAB 不作用）".to_owned(),
        }
    }
}

/// A switch as a parameter.
pub fn switch(on: bool) -> (r: u32)
    ensures
        r == switched(on),
{
    if on {
        ONE
    } else {
        ZERO
    }
}

/// Whether two names are the same, or both absent.
pub fn is_same_name(a: &Option<String>, b: &Option<String>) -> (r: bool)
    ensures
        r == same_name(*a, *b),
{
    match a {
        None => b.is_none(),
        Some(x) => match b {
            None => false,
            Some(y) => *y == *x,
        },
    }
}

/// `r` is a result of the level of a peak, rest where there is next to none.
pub open spec fn peak_level_is<F: Arith>(peak: u32, r: u32) -> bool {
    if below(SILENT_PEAK, peak) {
        level_is::<F>(peak, r)
    } else {
        r == METER_REST
    }
}

/// `r` is a result of what the meter shows: it rises to the peak at once, and
/// falls by `30 * dt` otherwise.
pub open spec fn shown_is<F: Arith>(disp_db: u32, peak: u32, dt: u32, r: u32) -> bool {
    exists|peak_db: u32, fall: u32, fallen: u32|
        #![trigger peak_level_is::<F>(peak, peak_db), product_is::<F>(METER_FALL, lesser(dt, LONGEST_STEP), fall), difference_is::<F>(disp_db, fall, fallen)]
        peak_level_is::<F>(peak, peak_db) && product_is::<F>(
            METER_FALL,
            lesser(dt, LONGEST_STEP),
            fall,
        ) && difference_is::<F>(disp_db, fall, fallen) && r == larger(fallen, peak_db)
}

/// What the meter shows.
pub fn fallen<F: Arith>(disp_db: u32, peak: u32, dt: u32) -> (r: u32)
    ensures
        shown_is::<F>(disp_db, peak, dt, r),
{
    let peak_db: u32 = if lt(SILENT_PEAK, peak) {
        level::<F>(peak)
    } else {
        METER_REST
    };
    let fall: u32 = F::times(METER_FALL, min(dt, LONGEST_STEP));
    let fallen: u32 = F::minus(disp_db, fall);
    assert(peak_level_is::<F>(peak, peak_db) && product_is::<F>(
        METER_FALL,
        lesser(dt, LONGEST_STEP),
        fall,
    ) && difference_is::<F>(disp_db, fall, fallen));
    max(fallen, peak_db)
}

/// The meter never shows less than the peak.
pub proof fn meter_covers_the_peak<F: Arith>(disp_db: u32, peak: u32, dt: u32, r: u32)
    requires
        shown_is::<F>(disp_db, peak, dt, r),
    ensures
        exists|peak_db: u32| #[trigger] peak_level_is::<F>(peak, peak_db) && !below(r, peak_db),
{
    let (peak_db, fall, fallen) = choose|peak_db: u32, fall: u32, fallen: u32|
        #![trigger peak_level_is::<F>(peak, peak_db), product_is::<F>(METER_FALL, lesser(dt, LONGEST_STEP), fall), difference_is::<F>(disp_db, fall, fallen)]
        peak_level_is::<F>(peak, peak_db) && product_is::<F>(
            METER_FALL,
            lesser(dt, LONGEST_STEP),
            fall,
        ) && difference_is::<F>(disp_db, fall, fallen) && r == larger(fallen, peak_db);
    assert(peak_level_is::<F>(peak, peak_db));
}

/// The lamp for clipping is on for a second after a peak that clips.
pub proof fn clipping_is_held<S: RunningStream>(rig: Rig<S>, seen: u64, now: u64)
    requires
        rig.clip_until == Some((seen + CLIP_MS) as u64),
        seen + CLIP_MS <= u64::MAX,
    ensures
        (rig.clip_until is Some && now < rig.clip_until->0) <==> now < seen + CLIP_MS,
{
}

/// A chain without an impulse response has no cabinet; one with it has it between
/// drive and reverb. The noise gate comes first, the volume and the meter last.
pub proof fn stages_stand_in_order<S: RunningStream, F: Arith, C: Convolver>(
    rig: Rig<S>,
    stages: Seq<Stage<F, C>>,
)
    requires
        rig.wired(stages),
    ensures
        forall|i: int| 0 <= i < stages.len() ==> ((#[trigger] stages[i] is Cab) <==> (rig.ir is Some
            && i == 2)),
        stages[0] is Gate,
        stages[1] is Drive,
        stages[stages.len() - 3] is Reverb,
        stages[stages.len() - 2] is Gain,
        stages[stages.len() - 1] is Meter,
{
}

/// Powers of ten over a decade: from one for nothing to ten for one, and within.
pub open spec fn spans_a_decade<F: Arith>() -> bool {
    forall|e: u32, r: u32|
        finite(e) && 0 <= units(e) <= one() && #[trigger] exp10_is::<F>(e, r) ==> {
            &&& finite(r) && one() <= units(r) <= 10 * one()
            &&& units(e) == 0 ==> units(r) == one()
            &&& units(e) == one() ==> units(r) == 10 * one()
        }
}

/// The tone control goes from 800 Hz at its lower end to 8 kHz at its upper one, and by
/// powers of ten between them.
pub proof fn tone_control_spans_a_decade<F: Arith>(norm: u32, r: u32)
    requires
        faithful::<F>(),
        spans_a_decade::<F>(),
        tone_is::<F>(norm, r),
        !not_a_number(norm),
    ensures
        finite(r),
        800 * one() <= units(r) <= 8000 * one(),
        at_least(ZERO, norm) ==> units(r) == 800 * one(),
        at_least(norm, ONE) ==> units(r) == 8000 * one(),
        at_least(norm, ZERO) && at_least(ONE, norm) ==> exists|p: u32| #[trigger]
            exp10_is::<F>(norm, p) && rounds(800 * units(p), 1, r),
{
    units_of_one();
    let e = clamped(norm, ZERO, ONE);
    between_is_finite(ZERO, e, ONE);
    units_follow_the_order(e, ZERO);
    units_follow_the_order(e, ONE);
    let p = choose|p: u32| #[trigger] exp10_is::<F>(e, p) && product_is::<F>(TONE_BOTTOM, p, r);
    whole_numbers_are_numbers(800);
    whole_numbers_are_numbers(8000);
    assert(whole(800) == TONE_BOTTOM) by {
        reveal_with_fuel(whole, 24);
    }
    let (u, o) = (units(p), one());
    assert((800 * o) * u == (800 * u) * o) by (nonlinear_arith);
    rounds_scales(800 * u, 1, o, r);
    rounds_above(800 * u, 1, r, whole(800));
    rounds_below(800 * u, 1, r, whole(8000));
    between_is_finite(whole(800), r, whole(8000));
    if units(e) == 0 {
        exact_results_are_hit(800 * u, 1, r, whole(800));
    }
    if units(e) == o {
        exact_results_are_hit(800 * u, 1, r, whole(8000));
    }
}

/// While nothing is heard, what the meter shows falls by 30 dB a second, down to its rest
/// at -80 dB, and never rises.
pub proof fn meter_falls_to_its_rest<F: Arith>(disp_db: u32, peak: u32, dt: u32, r: u32)
    requires
        faithful::<F>(),
        shown_is::<F>(disp_db, peak, dt, r),
        at_least(SILENT_PEAK, peak),
        finite(disp_db),
        finite(dt) && 0 <= units(dt),
        at_least(LONGEST_STEP, dt),
    ensures
        units(r) >= -80 * one(),
        units(r) <= units(disp_db) || units(r) == -80 * one(),
        exists|fall: u32|
            #![trigger rounds(30 * units(dt), 1, fall)]
            rounds(30 * units(dt), 1, fall) && (rounds(units(disp_db) - units(fall), 1, r) || units(
                r,
            ) == -80 * one()),
{
    units_of_one();
    let (peak_db, fall, fallen) = choose|peak_db: u32, fall: u32, fallen: u32|
        #![trigger peak_level_is::<F>(peak, peak_db), product_is::<F>(METER_FALL, lesser(dt, LONGEST_STEP), fall), difference_is::<F>(disp_db, fall, fallen)]
        peak_level_is::<F>(peak, peak_db) && product_is::<F>(
            METER_FALL,
            lesser(dt, LONGEST_STEP),
            fall,
        ) && difference_is::<F>(disp_db, fall, fallen) && r == larger(fallen, peak_db);
    assert(lesser(dt, LONGEST_STEP) == dt);
    assert(peak_db == METER_REST);
    whole_numbers_are_numbers(30);
    whole_numbers_are_numbers(80);
    assert(whole(30) == METER_FALL && negated(whole(80)) == METER_REST) by {
        reveal_with_fuel(whole, 24);
    }
    units_of_negated(whole(80));
    let (u, o) = (units(dt), one());
    assert((30 * o) * u == (30 * u) * o) by (nonlinear_arith);
    rounds_scales(30 * u, 1, o, fall);
    units_follow_the_order(dt, LONGEST_STEP);
    units_follow_the_order(LONGEST_STEP, ONE);
    rounds_above(30 * u, 1, fall, ZERO);
    rounds_below(30 * u, 1, fall, whole(30));
    between_is_finite(ZERO, fall, whole(30));
    rounds_below(units(disp_db) - units(fall), 1, fallen, disp_db);
    units_follow_the_order(fallen, METER_REST);
}

/// A longer step of the meter counts as one of a tenth of a second.
pub proof fn meter_takes_short_steps<F: Arith>(disp_db: u32, peak: u32, dt: u32, r: u32)
    requires
        shown_is::<F>(disp_db, peak, dt, r),
        at_least(dt, LONGEST_STEP),
    ensures
        exists|step: u32| #[trigger]
            rounds(one(), 10, step) && shown_is::<F>(disp_db, peak, step, r),
{
    assert(lesser(dt, LONGEST_STEP) == LONGEST_STEP);
    assert(lesser(LONGEST_STEP, LONGEST_STEP) == LONGEST_STEP);
    vstd::arithmetic::power2::lemma2_to64();
    constants_round(0x3dcc_cccd, 1, 10, 123, 0x4ccccd, 16);
    assert(rounds(one(), 10, LONGEST_STEP));
    assert(shown_is::<F>(disp_db, peak, LONGEST_STEP, r));
}

/// The rig shows the peak that it is told of: no less than its level while it is heard,
/// falling while it is not, and a lamp for a second where it clips.
pub proof fn rig_shows_the_peak<F: Arith, S: RunningStream>(
    rig: Rig<S>,
    peak: u32,
    dt: u32,
    now: u64,
    after: Rig<S>,
)
    requires
        faithful::<F>(),
        rig.peak_shown::<F>(peak, dt, now, after),
        finite(rig.disp_db),
        finite(dt) && 0 <= units(dt),
        at_least(LONGEST_STEP, dt),
        now + 1000 <= u64::MAX,
    ensures
        exists|peak_db: u32| #[trigger]
            peak_level_is::<F>(peak, peak_db) && !below(after.disp_db, peak_db),
        at_least(SILENT_PEAK, peak) ==> units(after.disp_db) >= -80 * one() && (units(after.disp_db)
            <= units(rig.disp_db) || units(after.disp_db) == -80 * one()),
        at_least(peak, ONE) ==> after.clip_until == Some((now + 1000) as u64),
        at_least(SILENT_PEAK, peak) ==> after.clip_until == rig.clip_until,
        after.stream == rig.stream && after.vol_lin == rig.vol_lin,
{
    meter_covers_the_peak::<F>(rig.disp_db, peak, dt, after.disp_db);
    if at_least(SILENT_PEAK, peak) {
        meter_falls_to_its_rest::<F>(rig.disp_db, peak, dt, after.disp_db);
    }
}

} // verus!
