use mooloop_dsp::bitcrush::{
    BitcrushEffect, BitcrushParams, BitcrushStyle, BITCRUSH_PARAM_BITS, BITCRUSH_PARAM_MIX,
    BITCRUSH_PARAM_STYLE,
};
use mooloop_dsp::bus::StereoBus;
use mooloop_dsp::bus_comp::{BusCompEffect, BusSection};
use mooloop_dsp::curves::Curves;
use mooloop_dsp::drive::{
    DriveCurve, DriveEffect, DriveParams, Saturator, SoftClip, DRIVE_PARAM_CURVE,
    DRIVE_PARAM_DRIVE, DRIVE_PARAM_MIX, DRIVE_PARAM_OUTPUT,
};
use mooloop_dsp::dynamics::{CompressorEffect, CompressorParams};
use mooloop_dsp::event::{Event, EventList, TimedEvent};
use mooloop_dsp::filter::{soft_ceiling, OnePoleLp};
use mooloop_dsp::filter_effect::{
    FilterEffect, FilterMode, FilterParams, FilterSlope, SvfCascade, FILTER_PARAM_CUTOFF_HZ,
};
use mooloop_dsp::hosted_source::PluginSlotId;
use mooloop_dsp::level::DynamicsFrame;
use mooloop_dsp::node::{Discontinuity, ProcessContext};
use mooloop_dsp::num::{Sample, Wide};
use mooloop_dsp::placeholder::{ContainerEffect, PluginPlaceholder};
use mooloop_dsp::preamp::{
    HarmonicStage, PreampEffect, PreampParams, PreampVoicing, PREAMP_PARAM_DRIVE_DB,
    PREAMP_PARAM_OUTPUT_DB,
};
use mooloop_dsp::smooth::Smoothed;
use mooloop_dsp::split::RangeProcessor;

#[derive(Clone, Copy, Debug, PartialEq, PartialOrd)]
struct F(f32);

impl Sample for F {
    fn add(self, other: Self) -> Self {
        F(self.0 + other.0)
    }
    fn sub(self, other: Self) -> Self {
        F(self.0 - other.0)
    }
    fn mul(self, other: Self) -> Self {
        F(self.0 * other.0)
    }
    fn div(self, other: Self) -> Self {
        F(self.0 / other.0)
    }
    fn neg(self) -> Self {
        F(-self.0)
    }
    fn abs(self) -> Self {
        F(self.0.abs())
    }
    fn of(count: usize) -> Self {
        F(count as f32)
    }
    fn whole(self) -> usize {
        self.0 as usize
    }
    fn round(self) -> Self {
        F(self.0.round())
    }
    fn ceil(self) -> Self {
        F(self.0.ceil())
    }
    fn lt(self, other: Self) -> bool {
        self.0 < other.0
    }
    fn le(self, other: Self) -> bool {
        self.0 <= other.0
    }
    fn equals(self, other: Self) -> bool {
        self.0 == other.0
    }
    fn same(self, other: Self) -> bool {
        self.0.to_bits() == other.0.to_bits()
    }
    fn is_finite(self) -> bool {
        self.0.is_finite()
    }
}

impl Curves for F {
    fn pi() -> Self {
        F(core::f32::consts::PI)
    }
    fn sqrt(self) -> Self {
        F(self.0.sqrt())
    }
    fn sin(self) -> Self {
        F(self.0.sin())
    }
    fn cos(self) -> Self {
        F(self.0.cos())
    }
    fn tan(self) -> Self {
        F(self.0.tan())
    }
    fn tanh(self) -> Self {
        F(self.0.tanh())
    }
    fn exp(self) -> Self {
        F(self.0.exp())
    }
    fn exp2(self) -> Self {
        F(self.0.exp2())
    }
    fn ln(self) -> Self {
        F(self.0.ln())
    }
    fn log2(self) -> Self {
        F(self.0.log2())
    }
    fn log10(self) -> Self {
        F(self.0.log10())
    }
    fn powf(self, exponent: Self) -> Self {
        F(self.0.powf(exponent.0))
    }
}

impl Wide<F> for F {
    fn widen(value: F) -> Self {
        value
    }
    fn narrow(self) -> F {
        self
    }
}

type Events = EventList<F, ()>;

fn context(frames: usize) -> ProcessContext {
    ProcessContext { sample_rate: 48_000, frames }
}

/// A bus with the same samples on both sides.
fn bus_of(samples: &[f32]) -> StereoBus<F> {
    let mut bus = StereoBus::with_capacity(samples.len());
    for (i, &x) in samples.iter().enumerate() {
        bus.l[i] = F(x);
        bus.r[i] = F(x);
    }
    bus
}

fn left(bus: &StereoBus<F>) -> Vec<f32> {
    bus.l.iter().map(|x| x.0).collect()
}

fn right(bus: &StereoBus<F>) -> Vec<f32> {
    bus.r.iter().map(|x| x.0).collect()
}

/// One parameter event, at an offset.
fn param_at(offset: usize, id: u32, value: f32) -> Events {
    let mut events = EventList::empty();
    assert!(events.push(TimedEvent {
        offset: offset as u32,
        event: Event::ParamValue { id, value: F(value) },
    }));
    events
}

fn sine(frames: usize, freq: f32, amplitude: f32) -> Vec<f32> {
    (0..frames)
        .map(|i| (i as f32 / 48_000.0 * freq * core::f32::consts::TAU).sin() * amplitude)
        .collect()
}

fn rms(samples: &[f32]) -> f32 {
    let sum: f64 = samples.iter().map(|&x| x as f64 * x as f64).sum();
    (sum / samples.len() as f64).sqrt() as f32
}

fn peak(samples: &[f32]) -> f32 {
    samples.iter().fold(0.0_f32, |worst, x| worst.max(x.abs()))
}

fn max_step(samples: &[f32]) -> f32 {
    samples.windows(2).map(|w| (w[1] - w[0]).abs()).fold(0.0, f32::max)
}

fn db(ratio: f32) -> f32 {
    20.0 * ratio.max(1.0e-12).log10()
}

fn distinct(samples: &[f32]) -> usize {
    let mut seen: Vec<f32> = Vec::new();
    for v in samples {
        if !seen.iter().any(|s| (s - v).abs() < 1e-6) {
            seen.push(*v);
        }
    }
    seen.len()
}

/// The worst step just past the middle of a block against the worst before it.
fn assert_no_click(out: &[f32]) {
    let frames = out.len();
    let step = |i: usize| (out[i] - out[i - 1]).abs();
    let steady_state = (frames / 4..frames / 2 - 1).map(step).fold(0.0f32, f32::max);
    let at_boundary = (frames / 2..frames / 2 + 32).map(step).fold(0.0f32, f32::max);
    assert!(
        at_boundary < steady_state * 3.0 + 0.02,
        "mix change left a discontinuity of {at_boundary} vs steady-state {steady_state}"
    );
}

fn ramp(frames: usize) -> Vec<f32> {
    (0..frames).map(|i| i as f32 / frames as f32 * 2.0 - 1.0).collect()
}

fn clean_crush() -> BitcrushParams<F> {
    BitcrushParams { bits: F(16.0), downsample: F(1.0), mix: F(1.0), style: BitcrushStyle::Crush }
}

fn crushed(params: BitcrushParams<F>, input: &[f32], events: &Events) -> Vec<f32> {
    let mut bus = bus_of(input);
    let mut effect = BitcrushEffect::new(params);
    effect.process(&context(input.len()), &mut bus, events);
    left(&bus)
}

#[test]
fn defaults_are_effectively_transparent() {
    let frames = 1_024;
    let reference = ramp(frames);
    let out = crushed(clean_crush(), &reference, &EventList::empty());
    for (i, expected) in reference.iter().enumerate() {
        // 16 bits of quantization, no decimation: within one LSB.
        assert!(
            (out[i] - expected).abs() <= 2.0 / 65_536.0 + 1e-6,
            "at {i}: {} vs {expected}",
            out[i],
        );
    }
}

#[test]
fn low_bit_depth_collapses_onto_few_levels() {
    let out = crushed(
        BitcrushParams { bits: F(2.0), ..clean_crush() },
        &ramp(4_096),
        &EventList::empty(),
    );
    // 2 bits over [-1, 1] with a step of 0.5 gives at most 5 reachable levels:
    // -1, -0.5, 0, 0.5, 1.
    let levels = distinct(&out);
    assert!(levels <= 5, "expected at most 5 quantization levels, found {levels}");
}

#[test]
fn decimation_holds_samples_for_the_requested_span() {
    let frames = 64;
    let out = crushed(
        BitcrushParams { bits: F(16.0), downsample: F(4.0), ..clean_crush() },
        &ramp(frames),
        &EventList::empty(),
    );
    // Every run of four consecutive outputs should be one held value.
    for start in (0..frames - 4).step_by(4) {
        let first = out[start];
        for offset in 1..4 {
            assert!(
                (out[start + offset] - first).abs() < 1e-5,
                "sample {} broke the hold starting at {start}",
                start + offset
            );
        }
    }
}

#[test]
fn fractional_decimation_averages_to_the_requested_rate() {
    let frames = 1_000;
    let out = crushed(
        BitcrushParams { bits: F(16.0), downsample: F(2.5), ..clean_crush() },
        &ramp(frames),
        &EventList::empty(),
    );
    // Count value changes: a hold of 2.5 should latch about frames/2.5 times.
    let latches = (1..frames).filter(|&i| (out[i] - out[i - 1]).abs() > 1e-9).count();
    let expected = frames as f32 / 2.5;
    assert!(
        (latches as f32 - expected).abs() < expected * 0.05,
        "expected about {expected} latches, counted {latches}"
    );
}

#[test]
fn bitcrush_zero_mix_leaves_the_signal_alone() {
    let reference = ramp(512);
    let out = crushed(
        BitcrushParams { bits: F(1.0), downsample: F(32.0), mix: F(0.0), ..clean_crush() },
        &reference,
        &EventList::empty(),
    );
    for (i, expected) in reference.iter().enumerate() {
        assert!((out[i] - expected).abs() < 1e-6, "dry path altered at {i}");
    }
}

#[test]
fn bitcrush_param_events_take_effect_mid_block() {
    let frames = 2_048;
    let out = crushed(
        clean_crush(),
        &ramp(frames),
        &param_at(frames / 2, BITCRUSH_PARAM_BITS, 2.0),
    );
    let before = distinct(&out[..frames / 2]);
    let after = distinct(&out[frames / 2..]);
    assert!(
        after < 6 && before > 100,
        "bit depth drop did not take: {before} levels then {after}"
    );
}

#[test]
fn bitcrush_mix_change_mid_block_does_not_click() {
    let frames = 4_096;
    let out = crushed(
        BitcrushParams { bits: F(8.0), downsample: F(1.0), mix: F(0.0), ..clean_crush() },
        &ramp(frames),
        &param_at(frames / 2, BITCRUSH_PARAM_MIX, 1.0),
    );
    assert_no_click(&out);
}

#[test]
fn every_style_stays_finite_and_bounded_under_heavy_crush() {
    for style in [
        BitcrushStyle::Crush,
        BitcrushStyle::Dither,
        BitcrushStyle::Mu,
        BitcrushStyle::Glide,
    ] {
        let out = crushed(
            BitcrushParams { bits: F(1.0), downsample: F(32.0), style, ..clean_crush() },
            &sine(2_048, 110.0, 1.0),
            &EventList::empty(),
        );
        for (i, x) in out.iter().enumerate() {
            assert!(x.is_finite() && x.abs() < 4.0, "{style:?} produced {x} at {i}");
        }
    }
}

#[test]
fn dither_breaks_up_a_signal_that_crush_freezes() {
    // DC at 0.3 with 2 bits: plain rounding lands on one grid point and
    // freezes; dithered rounding wanders across the grid instead.
    let run = |style: BitcrushStyle| {
        crushed(
            BitcrushParams { bits: F(2.0), style, ..clean_crush() },
            &[0.3; 512],
            &EventList::empty(),
        )
    };
    assert_eq!(distinct(&run(BitcrushStyle::Crush)), 1, "crush should freeze DC");
    assert!(distinct(&run(BitcrushStyle::Dither)) > 1, "dither should modulate DC");
}

#[test]
fn style_param_event_switches_the_math_mid_block() {
    let frames = 1_024;
    let out = crushed(
        BitcrushParams { bits: F(2.0), ..clean_crush() },
        &vec![0.3; frames],
        &param_at(frames / 2, BITCRUSH_PARAM_STYLE, BitcrushStyle::Dither.to_index() as f32),
    );
    assert_eq!(
        distinct(&out[1..frames / 2]),
        1,
        "pre-event output should be the frozen crush"
    );
    assert!(
        distinct(&out[frames / 2..]) > 1,
        "post-event output should be dithered noise"
    );
}

#[test]
fn mu_keeps_quiet_material_that_crush_mutes() {
    // A sine at 5% full scale through 2 bits: nearest-rounding snaps every
    // sample to zero. The companded quantizer spends its levels around silence
    // instead, so a low-level replica survives.
    let quiet = sine(4_096, 220.0, 0.05);
    let run = |style: BitcrushStyle| {
        let out = crushed(
            BitcrushParams { bits: F(2.0), style, ..clean_crush() },
            &quiet,
            &EventList::empty(),
        );
        let max_error = out.iter().zip(&quiet).map(|(a, b)| (a - b).abs()).fold(0.0, f32::max);
        (peak(&out), max_error)
    };
    let (crush_peak, _) = run(BitcrushStyle::Crush);
    let (mu_peak, mu_error) = run(BitcrushStyle::Mu);
    assert!(
        crush_peak < 1e-6,
        "2-bit crush should mute a 0.05 sine entirely, peak {crush_peak}"
    );
    assert!(
        mu_peak > 0.03,
        "companding should keep a quiet replica alive, peak {mu_peak}"
    );
    assert!(
        mu_error <= 0.05,
        "companded replica should stay within the crush step, error {mu_error}"
    );
}

#[test]
fn glide_interpolates_instead_of_holding_flat() {
    // 3_100 Hz, not a frequency that divides neatly into the hold.
    let frames = 512;
    let run = |style: BitcrushStyle| {
        crushed(
            BitcrushParams { bits: F(16.0), downsample: F(8.0), style, ..clean_crush() },
            &sine(frames, 3_100.0, 1.0),
            &EventList::empty(),
        )
    };
    let hard = run(BitcrushStyle::Crush);
    let glided = run(BitcrushStyle::Glide);
    assert!(
        glided.iter().zip(hard.iter()).any(|(g, c)| (g - c).abs() > 1e-4),
        "glide never diverged from the hard hold"
    );
    // And it must not be just another staircase.
    let moves_within_span = (0..frames - 8)
        .step_by(8)
        .any(|start| (0..7).any(|o| (glided[start + o + 1] - glided[start + o]).abs() > 1e-5));
    assert!(moves_within_span, "glide output was still a staircase");
}

#[test]
fn a_crusher_set_wholesale_jumps_to_its_mix() {
    let mut effect = BitcrushEffect::new(BitcrushParams { mix: F(0.0), ..clean_crush() });
    effect.set_params(BitcrushParams { bits: F(1.0), mix: F(1.0), ..clean_crush() });
    assert_eq!(effect.params().bits, F(1.0));
    let mut bus = bus_of(&[0.7, 0.7]);
    effect.process(&context(2), &mut bus, &Events::empty());
    assert_eq!(left(&bus), [1.0, 1.0]);
}

#[test]
fn skipping_moves_the_hold_as_silence_would() {
    let params = BitcrushParams { downsample: F(7.0), ..clean_crush() };
    let mut slept = BitcrushEffect::new(params);
    let mut ran = BitcrushEffect::new(params);
    slept.skip_block(&context(100));
    ran.process(&context(100), &mut bus_of(&[0.0; 100]), &Events::empty());
    let mut a = bus_of(&sine(64, 1_000.0, 0.5));
    let mut b = bus_of(&sine(64, 1_000.0, 0.5));
    slept.process(&context(64), &mut a, &Events::empty());
    ran.process(&context(64), &mut b, &Events::empty());
    assert_eq!(left(&a), left(&b));
}

/// The operating level: twelve decibels under full scale.
const REFERENCE: f32 = 0.251_188_64;

/// Taps of a half-band filter at twice the rate.
const TAPS: usize = 31;

/// A shaper at twice the rate: a half-band filter up, the curve, and the same
/// filter down, each fifteen samples late at the doubled rate.
struct Oversampled {
    up: [f32; TAPS],
    down: [f32; TAPS],
}

fn half_band(history: &[f32; TAPS]) -> f32 {
    let middle = (TAPS / 2) as f64;
    let mut sum = 0.0_f64;
    for (i, &x) in history.iter().enumerate() {
        let t = i as f64 - middle;
        let sinc = if t == 0.0 {
            0.5
        } else {
            (core::f64::consts::PI * t / 2.0).sin() / (core::f64::consts::PI * t)
        };
        let window = 0.5 + 0.5 * (core::f64::consts::PI * t / (middle + 1.0)).cos();
        sum += x as f64 * sinc * window;
    }
    sum as f32
}

fn remember(history: &mut [f32; TAPS], x: f32) {
    history.copy_within(1.., 0);
    history[TAPS - 1] = x;
}

fn curve(kind: DriveCurve, x: f32) -> f32 {
    match kind {
        DriveCurve::Soft => x.tanh(),
        DriveCurve::Hard => x.clamp(-1.0, 1.0),
        DriveCurve::Fold => (x * core::f32::consts::FRAC_PI_2).sin(),
        DriveCurve::Tape => {
            if x < 0.0 {
                x.tanh()
            } else {
                x / (1.0 + x)
            }
        }
    }
}

impl Saturator<F> for Oversampled {
    fn make() -> Self {
        Oversampled { up: [0.0; TAPS], down: [0.0; TAPS] }
    }

    fn latency() -> usize {
        15
    }

    fn process(&mut self, input: F, kind: DriveCurve, drive: F) -> F {
        let mut out = 0.0;
        for x in [input.0, 0.0] {
            remember(&mut self.up, 2.0 * x);
            let shaped = curve(kind, half_band(&self.up) * drive.0);
            remember(&mut self.down, shaped);
            if x == input.0 {
                out = half_band(&self.down);
            }
        }
        F(out)
    }

    /// Against the most the curve makes of a signal at the operating level.
    fn makeup(kind: DriveCurve, drive: F) -> F {
        let most = (1..=64)
            .flat_map(|i| [1.0, -1.0].map(|sign| sign * i as f32 / 64.0))
            .map(|share| curve(kind, REFERENCE * drive.0 * share).abs())
            .fold(0.0, f32::max);
        F(REFERENCE / most)
    }
}

type Drive = DriveEffect<F, Oversampled>;

fn plain_drive() -> DriveParams<F> {
    DriveParams {
        drive: F(2.0),
        curve: DriveCurve::Soft,
        tone: F(0.0),
        mix: F(1.0),
        output: F(1.0),
    }
}

fn driven(params: DriveParams<F>, input: &[f32], events: &Events) -> Vec<f32> {
    let mut bus = bus_of(input);
    Drive::new(params, 48_000).process(&context(input.len()), &mut bus, events);
    left(&bus)
}

const CURVES: [DriveCurve; 4] =
    [DriveCurve::Soft, DriveCurve::Hard, DriveCurve::Fold, DriveCurve::Tape];

#[test]
fn hard_clipping_flattens_peaks() {
    let out = driven(
        DriveParams { drive: F(8.0), curve: DriveCurve::Hard, ..plain_drive() },
        &sine(4_096, 220.0, 1.0),
        &EventList::empty(),
    );
    // A hard-clipped sine approaches a square wave: its RMS climbs toward its
    // peak instead of sitting at peak/sqrt(2).
    let settled = &out[1_024..];
    assert!(
        rms(settled) > peak(settled) * 0.85,
        "expected a near-square wave, got rms {} vs peak {}",
        rms(settled),
        peak(settled)
    );
}

#[test]
fn zero_mix_preserves_the_signal_at_the_declared_latency() {
    let frames = 2_048;
    let reference = sine(frames, 440.0, 0.5);
    let mut bus = bus_of(&reference);
    let mut effect =
        Drive::new(DriveParams { drive: F(32.0), mix: F(0.0), ..plain_drive() }, 48_000);
    effect.process(&context(frames), &mut bus, &Events::empty());
    let latency = Oversampled::latency();
    assert_eq!(effect.latency_frames(), latency);
    let out = left(&bus);
    assert!(out[..latency].iter().all(|sample| sample.abs() < 1e-6));
    for i in latency..frames {
        let expected = reference[i - latency];
        assert!(
            (out[i] - expected).abs() < 1e-6,
            "dry path altered at {i}: {} vs {expected}",
            out[i],
        );
    }
}

#[test]
fn tone_tilts_the_balance_without_changing_at_zero() {
    let frames = 8_192;
    // Sum of a low and a high tone; the tilt should move their ratio.
    let input: Vec<f32> = sine(frames, 150.0, 0.3)
        .iter()
        .zip(sine(frames, 9_000.0, 0.3))
        .map(|(a, b)| a + b)
        .collect();
    let run = |tone: f32| {
        let out = driven(
            DriveParams { drive: F(1.0), tone: F(tone), ..plain_drive() },
            &input,
            &EventList::empty(),
        );
        rms(&out[2_048..])
    };
    let dark = run(-1.0);
    let flat = run(0.0);
    let bright = run(1.0);
    assert!(
        dark < flat && flat < bright,
        "tilt did not order: dark {dark}, flat {flat}, bright {bright}"
    );
}

#[test]
fn drive_param_events_take_effect_mid_block() {
    let frames = 8_192;
    let out = driven(
        DriveParams { drive: F(1.0), curve: DriveCurve::Hard, ..plain_drive() },
        &sine(frames, 300.0, 0.2),
        &param_at(frames / 2, DRIVE_PARAM_DRIVE, 64.0),
    );
    // Measured as character rather than level: a hard-clipped sine squares
    // off, so its RMS climbs from peak/sqrt(2) toward its peak.
    let squareness = |samples: &[f32]| rms(samples) / peak(samples);
    let before = squareness(&out[frames / 4..frames / 2]);
    let after = squareness(&out[3 * frames / 4..frames]);
    assert!(
        before < 0.75 && after > 0.9,
        "drive rise had no effect: rms/peak {before} then {after}"
    );
}

#[test]
fn every_curve_stays_finite_and_bounded_under_extreme_drive() {
    for curve in CURVES {
        let out = driven(
            DriveParams { drive: F(64.0), curve, ..plain_drive() },
            &sine(2_048, 110.0, 1.0),
            &EventList::empty(),
        );
        for (i, x) in out.iter().enumerate() {
            assert!(x.is_finite() && x.abs() < 8.0, "{curve:?} produced {x} at {i}");
        }
    }
}

#[test]
fn drive_holds_a_reference_level_peak_on_every_curve() {
    let frames = 9_600;
    for curve in CURVES {
        for drive in [1.0_f32, 2.0, 4.0, 8.0, 32.0, 64.0] {
            let out = driven(
                DriveParams { drive: F(drive), curve, ..plain_drive() },
                &sine(frames, 220.0, REFERENCE),
                &EventList::empty(),
            );
            let change_db = 20.0 * (peak(&out[frames / 2..]) / REFERENCE).log10();
            assert!(
                change_db.abs() <= 1.0,
                "{curve:?} at drive {drive} moved a reference-level peak by {change_db:+.2} dB"
            );
        }
    }
}

#[test]
fn a_cached_compensation_is_bit_identical_to_one_per_frame() {
    let frames = 4_096;
    let moves = [
        (700u32, DRIVE_PARAM_DRIVE, 24.0f32),
        (1_900, DRIVE_PARAM_CURVE, 3.0),
        (2_500, DRIVE_PARAM_DRIVE, 3.0),
        (3_300, DRIVE_PARAM_CURVE, 0.0),
    ];
    for curve in CURVES {
        let params = DriveParams {
            drive: F(6.0),
            curve,
            tone: F(0.3),
            mix: F(0.8),
            ..plain_drive()
        };
        let input = sine(frames, 330.0, 0.4);
        let mut events = Events::empty();
        for (offset, id, value) in moves {
            assert!(events.push(TimedEvent {
                offset,
                event: Event::ParamValue { id, value: F(value) },
            }));
        }
        let out = driven(params, &input, &events);

        // The same arithmetic, one frame at a time, with the compensation
        // worked out on each.
        let time = F(0.005);
        let mut drive = Smoothed::new(params.drive, time, 48_000);
        let mut tone = Smoothed::new(params.tone, time, 48_000);
        let mut kind = curve;
        let mut shaper = Oversampled::make();
        let mut low = OnePoleLp::new();
        low.set_cutoff(F(1_500.0), 48_000);
        let latency = Oversampled::latency();
        for (i, &x) in input.iter().enumerate() {
            for &(_, id, value) in moves.iter().filter(|m| m.0 as usize == i) {
                if id == DRIVE_PARAM_DRIVE {
                    drive.set_target(F(value));
                } else {
                    kind = DriveCurve::from_index(value as usize);
                }
            }
            let level = drive.advance();
            let tilt = tone.advance().0;
            let wet = shaper.process(F(x), kind, level).mul(Oversampled::makeup(kind, level));
            let under = low.next_sample(wet).0;
            let wet = under + (wet.0 - under) * (1.0 + tilt * 3.0);
            let aligned = if i < latency { 0.0 } else { input[i - latency] };
            let expected = aligned + (wet - aligned) * 0.8;
            assert_eq!(
                out[i].to_bits(),
                expected.to_bits(),
                "{curve:?} at frame {i}: {} against {expected}",
                out[i]
            );
        }
    }
}

#[test]
fn drive_mix_change_mid_block_does_not_click() {
    let frames = 8_192;
    let out = driven(
        DriveParams { drive: F(4.0), mix: F(0.0), ..plain_drive() },
        &sine(frames, 200.0, 0.5),
        &param_at(frames / 2, DRIVE_PARAM_MIX, 1.0),
    );
    assert_no_click(&out);
}

#[test]
fn a_drive_with_a_moving_knob_stays_awake() {
    let mut effect = Drive::new(plain_drive(), 48_000);
    assert_eq!(effect.tail_frames(), 48_000 / 50 + 15);
    let mut bus = bus_of(&[0.0; 8]);
    effect.process(&context(8), &mut bus, &param_at(0, DRIVE_PARAM_OUTPUT, 5.0));
    assert_eq!(effect.params().output, F(2.0));
    assert_eq!(effect.tail_frames(), u32::MAX);
    effect.set_params(plain_drive());
    assert_eq!(effect.tail_frames(), 48_000 / 50 + 15);
}

/// A shaper in the library's own terms: one frame late, a soft clip.
#[test]
fn a_soft_clip_holds_its_last_frame() {
    let mut clip: SoftClip<F> = SoftClip::make();
    assert_eq!(clip.process(F(0.5), DriveCurve::Soft, F(2.0)), F(0.0));
    assert_eq!(clip.process(F(0.0), DriveCurve::Soft, F(2.0)), F(1.0_f32.tanh()));
    let makeup: F = <SoftClip<F> as Saturator<F>>::makeup(DriveCurve::Soft, F(4.0));
    assert_eq!(makeup, F(0.25 / 1.0_f32.tanh()));
}

fn plain_preamp() -> PreampParams<F> {
    PreampParams {
        drive_db: F(0.0),
        voicing: PreampVoicing::Moo,
        mix: F(1.0),
        output_db: F(0.0),
    }
}

type Preamp = PreampEffect<F, HarmonicStage<F>>;

/// A 220 Hz sine at the operating level.
fn operating_tone(frames: usize) -> Vec<f32> {
    sine(frames, 220.0, REFERENCE)
}

fn preamped(params: PreampParams<F>, input: &[f32], events: &Events) -> Vec<f32> {
    let mut bus = bus_of(input);
    Preamp::new(params, 48_000).process(&context(input.len()), &mut bus, events);
    assert_eq!(left(&bus), right(&bus));
    left(&bus)
}

#[test]
fn moo_at_unity_is_bit_identical_to_no_device() {
    let reference = operating_tone(512);
    let out = preamped(plain_preamp(), &reference, &EventList::empty());
    for i in 0..512 {
        assert_eq!(out[i], reference[i], "Moo altered sample {i}");
    }
}

#[test]
fn moo_still_carries_its_trims() {
    let out = preamped(
        PreampParams { output_db: F(-6.0), ..plain_preamp() },
        &operating_tone(512),
        &EventList::empty(),
    );
    let peak = peak(&out);
    let expected = 10.0_f32.powf(-18.0 / 20.0);
    assert!(
        (peak - expected).abs() < 1e-3,
        "peaked at {peak}, expected about {expected}"
    );
}

#[test]
fn an_output_event_takes_effect_at_its_own_offset() {
    let frames = 8192;
    let out = preamped(
        plain_preamp(),
        &operating_tone(frames),
        &param_at(frames / 2, PREAMP_PARAM_OUTPUT_DB, -24.0),
    );
    let before = peak(&out[..frames / 2]);
    assert!((before - REFERENCE).abs() < 1e-3, "peaked at {before} before the event");

    // 50 ms past the event, which is ten times the smoother's own time.
    let settled = frames / 2 + 48_000 / 20;
    let after = peak(&out[settled..]);
    let expected = REFERENCE * 10.0_f32.powf(-24.0 / 20.0);
    assert!(
        (after - expected).abs() < expected * 0.05,
        "after the event the peak was {after}, expected about {expected}"
    );
}

#[test]
fn every_voicing_but_moo_changes_the_signal() {
    let reference = operating_tone(2048);
    for voicing in [
        PreampVoicing::Moo,
        PreampVoicing::Grip,
        PreampVoicing::Punch,
        PreampVoicing::Iron,
    ] {
        let out = preamped(
            PreampParams { voicing, ..plain_preamp() },
            &reference,
            &EventList::empty(),
        );
        let difference =
            (1024..2048).map(|i| (out[i] - reference[i]).abs()).fold(0.0f32, f32::max);
        match voicing {
            PreampVoicing::Moo => assert_eq!(difference, 0.0, "Moo coloured the signal"),
            _ => assert!(
                difference > 1e-5,
                "{voicing:?} did not reach the audio: {difference:e}"
            ),
        }
    }
}

#[test]
fn mix_at_zero_is_the_dry_signal() {
    let reference = operating_tone(1024);
    let out = preamped(
        PreampParams {
            voicing: PreampVoicing::Iron,
            drive_db: F(18.0),
            mix: F(0.0),
            ..plain_preamp()
        },
        &reference,
        &EventList::empty(),
    );
    for i in 0..1024 {
        assert_eq!(out[i], reference[i], "a dry mix coloured sample {i}");
    }
}

#[test]
fn a_preamp_rests_by_its_voicing() {
    let mut effect = Preamp::new(plain_preamp(), 48_000);
    assert!(effect.is_at_rest());
    assert_eq!((effect.tail_frames(), effect.latency_frames()), (0, 0));
    effect.set_params(PreampParams { voicing: PreampVoicing::Iron, ..plain_preamp() });
    assert_eq!(effect.params().voicing, PreampVoicing::Iron);
    assert!(!effect.is_at_rest());
    assert_eq!(effect.tail_frames(), 48_000);
    let mut bus = bus_of(&[0.0; 4]);
    effect.process(&context(4), &mut bus, &param_at(0, PREAMP_PARAM_DRIVE_DB, 99.0));
    assert_eq!(effect.params().drive_db, F(24.0));
    assert_eq!(effect.tail_frames(), u32::MAX);
}

fn open_filter() -> FilterParams<F> {
    FilterParams {
        cutoff_hz: F(1_000.0),
        resonance: F(0.0),
        mode: FilterMode::LowPass,
        slope: FilterSlope::Db12,
        drive: F(0.0),
    }
}

fn filtered(params: FilterParams<F>, input: &[f32], events: &Events) -> Vec<f32> {
    let mut bus = bus_of(input);
    let mut effect = FilterEffect::new(params, 48_000, F(REFERENCE));
    effect.process(&context(input.len()), &mut bus, events);
    left(&bus)
}

/// Settled RMS of the filter's output for a steady sine input.
fn filtered_sine_rms(freq_hz: f32, params: FilterParams<F>) -> f32 {
    let frames = 24_000;
    let out = filtered(params, &sine(frames, freq_hz, 1.0), &EventList::empty());
    rms(&out[frames / 2..])
}

#[test]
fn low_pass_attenuates_high_frequencies() {
    let low = filtered_sine_rms(200.0, open_filter());
    let high = filtered_sine_rms(8_000.0, open_filter());
    assert!(low > high * 4.0, "low {low} should pass far more than high {high}");
}

#[test]
fn high_pass_attenuates_low_frequencies() {
    let params = FilterParams { mode: FilterMode::HighPass, ..open_filter() };
    let low = filtered_sine_rms(200.0, params);
    let high = filtered_sine_rms(8_000.0, params);
    assert!(high > low * 4.0, "high {high} should pass far more than low {low}");
}

#[test]
fn band_pass_attenuates_both_sides_of_the_cutoff() {
    let params = FilterParams { mode: FilterMode::BandPass, ..open_filter() };
    let low = filtered_sine_rms(100.0, params);
    let center = filtered_sine_rms(1_000.0, params);
    let high = filtered_sine_rms(8_000.0, params);

    assert!(low < center * 0.2, "low {low}, center {center}");
    assert!(high < center * 0.25, "high {high}, center {center}");
}

#[test]
fn twenty_four_db_slope_attenuates_more_than_twelve_db() {
    let shallow = filtered_sine_rms(8_000.0, open_filter());
    let steep =
        filtered_sine_rms(8_000.0, FilterParams { slope: FilterSlope::Db24, ..open_filter() });

    assert!(steep < shallow * 0.2, "12 dB {shallow}, 24 dB {steep}");
}

#[test]
fn param_value_events_change_cutoff_mid_block() {
    let frames = 24_000;
    // Start fully open, close to 100 Hz halfway through the block.
    let out = filtered(
        FilterParams { cutoff_hz: F(20_000.0), ..open_filter() },
        &sine(frames, 8_000.0, 1.0),
        &param_at(frames / 2, FILTER_PARAM_CUTOFF_HZ, 100.0),
    );
    let before = rms(&out[frames / 4..frames / 2]);
    let after = rms(&out[3 * frames / 4..]);
    assert!(
        before > after * 4.0,
        "open half {before} should pass far more than closed half {after}"
    );
}

#[test]
fn cutoff_change_mid_block_does_not_click() {
    let frames = 24_000;
    let out = filtered(
        FilterParams { cutoff_hz: F(20_000.0), ..open_filter() },
        &sine(frames, 200.0, 1.0),
        &param_at(frames / 2, FILTER_PARAM_CUTOFF_HZ, 100.0),
    );
    let max_step = max_step(&out);
    assert!(max_step < 0.1, "cutoff change left a discontinuity of {max_step}");
}

const MODES: [FilterMode; 3] = [FilterMode::LowPass, FilterMode::BandPass, FilterMode::HighPass];

const SLOPES: [FilterSlope; 2] = [FilterSlope::Db12, FilterSlope::Db24];

#[test]
fn a_nan_in_the_input_is_gone_within_a_block() {
    const BLOCK: usize = 512;
    for mode in MODES {
        for slope in SLOPES {
            let params = FilterParams {
                cutoff_hz: F(1_000.0),
                resonance: F(0.9),
                mode,
                slope,
                drive: F(0.3),
            };
            let mut effect = FilterEffect::new(params, 48_000, F(REFERENCE));
            let input = sine(4 * BLOCK, 440.0, 0.25);
            for block in 0..4 {
                let mut bus = bus_of(&input[block * BLOCK..(block + 1) * BLOCK]);
                if block == 1 {
                    bus.l[100] = F(f32::NAN);
                    bus.r[100] = F(f32::NAN);
                }
                effect.process(&context(BLOCK), &mut bus, &Events::empty());
                if block >= 2 {
                    assert!(
                        left(&bus).iter().chain(&right(&bus)).all(|x| x.is_finite()),
                        "{mode:?} {slope:?}: block {block} still carries the NaN"
                    );
                    assert!(peak(&left(&bus)) > 0.0);
                }
            }
        }
    }
}

#[test]
fn no_mode_slope_or_resonance_peaks_past_its_bound() {
    let frames = 24_000;
    let peak_through = |params: FilterParams<F>, freq: f32, level: f32| -> f32 {
        let out = filtered(params, &sine(frames, freq, level), &EventList::empty());
        peak(&out[frames / 2..])
    };
    const LEVEL: f32 = 0.25;
    // Past this nothing leaves a voice.
    const VOICE_CEILING: f32 = 2.5;
    for mode in MODES {
        for slope in SLOPES {
            for resonance in [0.0_f32, 0.7, 1.0] {
                let params = FilterParams {
                    cutoff_hz: F(1_000.0),
                    resonance: F(resonance),
                    mode,
                    slope,
                    drive: F(0.0),
                };
                for step in -6..=6 {
                    let freq = 1_000.0 * 2.0_f32.powf(step as f32 / 12.0);
                    let gain = db(peak_through(params, freq, LEVEL) / LEVEL);
                    assert!(
                        gain <= 21.0,
                        "{mode:?} {slope:?} resonance {resonance} at {freq:.0} Hz: +{gain:.1} dB"
                    );
                }
                let hot = peak_through(params, 1_000.0, 1.0);
                assert!(
                    hot <= VOICE_CEILING,
                    "{mode:?} {slope:?} resonance {resonance}: a full-scale sine left at {hot}"
                );
            }
        }
    }
}

#[test]
fn coefficient_lerp_matches_the_old_path_at_a_static_cutoff() {
    let frames = 24_000;
    let params = FilterParams {
        cutoff_hz: F(1_500.0),
        resonance: F(0.4),
        mode: FilterMode::LowPass,
        slope: FilterSlope::Db24,
        drive: F(0.0),
    };

    // A chirp, so the comparison covers the whole passband and stopband.
    let input: Vec<f32> = (0..frames)
        .map(|i| {
            let t = i as f32 / 48_000.0;
            let freq = 80.0 + (12_000.0 - 80.0) * (i as f32 / frames as f32);
            (t * freq * core::f32::consts::TAU).sin()
        })
        .collect();

    // The coefficients derived afresh every sample from a held cutoff.
    let mut cascade = SvfCascade::new();
    let fresh: Vec<f32> = input
        .iter()
        .map(|&x| {
            let coeffs = SvfCascade::coeffs(
                params.mode,
                params.slope,
                params.cutoff_hz,
                params.resonance,
                48_000,
            );
            soft_ceiling(cascade.tick_with(F(x), &coeffs, params.mode, params.slope)).0
        })
        .collect();

    let out = filtered(params, &input, &EventList::empty());
    let mut error_energy = 0.0f64;
    let mut signal_energy = 0.0f64;
    for (&sample, &reference) in out.iter().zip(fresh.iter()) {
        let diff = (sample - reference) as f64;
        error_energy += diff * diff;
        signal_energy += (reference as f64) * (reference as f64);
    }
    let ratio_db = 10.0 * (error_energy / signal_energy.max(1.0e-30)).log10();
    assert!(
        ratio_db < -80.0,
        "the ramped coefficients differ from fresh ones by {ratio_db:.1} dB RMS"
    );
}

#[test]
fn envelope_sweep_leaves_no_discontinuity() {
    const TICK: usize = 32;
    let frames = 200 * TICK;
    let mut events = Events::empty();
    // A fast "envelope": sweep from 300 Hz to 4 kHz and back, one step per
    // control tick.
    let mut offset = 0u32;
    while (offset as usize) < frames {
        let phase = offset as f32 / frames as f32;
        let sweep = (phase * core::f32::consts::PI).sin();
        assert!(events.push(TimedEvent {
            offset,
            event: Event::ParamValue {
                id: FILTER_PARAM_CUTOFF_HZ,
                value: F(300.0 + 3_700.0 * sweep),
            },
        }));
        offset += TICK as u32;
    }
    let out = filtered(
        FilterParams { cutoff_hz: F(500.0), resonance: F(0.3), ..open_filter() },
        &sine(frames, 220.0, 1.0),
        &events,
    );
    let max_step = max_step(&out);
    assert!(max_step < 0.5, "envelope sweep left a discontinuity of {max_step}");
}

#[test]
fn a_silent_filter_is_at_rest() {
    let mut effect = FilterEffect::new(open_filter(), 48_000, F(REFERENCE));
    assert!(effect.is_at_rest(F(1.0e-6)));
    let mut bus = bus_of(&sine(64, 500.0, 0.5));
    effect.process(&context(64), &mut bus, &Events::empty());
    assert!(!effect.is_at_rest(F(1.0e-6)));
    effect.set_params(FilterParams { resonance: F(0.5), ..open_filter() });
    assert_eq!(effect.params().resonance, F(0.5));
}

#[test]
fn a_plain_placeholder_adds_no_latency() {
    let slot = PluginSlotId { raw: 1 };
    assert_eq!(PluginPlaceholder::<F>::new(slot).latency_frames(), 0);
    assert_eq!(PluginPlaceholder::<F>::with_latency(slot, 0).latency_frames(), 0);
}

#[test]
fn a_restarts_placeholder_is_the_plugins_latency_late_and_otherwise_dry() {
    let mut placeholder = PluginPlaceholder::with_latency(PluginSlotId { raw: 1 }, 3);
    assert_eq!(placeholder.latency_frames(), 3);
    let mut bus = StereoBus::with_capacity(6);
    for (i, (l, r)) in [(1.0, -1.0), (0.5, 0.0)].iter().enumerate() {
        bus.l[i] = F(*l);
        bus.r[i] = F(*r);
    }
    placeholder.process(&context(6), &mut bus);
    assert_eq!(left(&bus), [0.0, 0.0, 0.0, 1.0, 0.5, 0.0]);
    assert_eq!(right(&bus), [0.0, 0.0, 0.0, -1.0, 0.0, 0.0]);
}

#[test]
fn a_seek_empties_a_placeholder_and_a_fold_does_not() {
    for (kind, kept) in [(Discontinuity::LoopFold, 1.0), (Discontinuity::Seek, 0.0)] {
        let mut placeholder = PluginPlaceholder::with_latency(PluginSlotId { raw: 1 }, 2);
        placeholder.process(&context(1), &mut bus_of(&[1.0]));
        placeholder.on_discontinuity(kind);
        let mut bus = bus_of(&[0.0, 0.0]);
        placeholder.process(&context(2), &mut bus);
        assert_eq!(left(&bus), [0.0, kept]);
    }
}

#[derive(Clone, Copy)]
struct ContainerParams {
    mix: f32,
}

#[test]
fn a_container_is_transparent_at_every_mix() {
    for mix in [0.0, 0.25, 0.5, 1.0] {
        let mut node = ContainerEffect::new(ContainerParams { mix });
        let mut bus = StereoBus::with_capacity(64);
        for frame in 0..64 {
            bus.l[frame] = F(frame as f32 / 64.0);
            bus.r[frame] = F(-(frame as f32) / 64.0);
        }
        let before = (bus.l.clone(), bus.r.clone());
        node.process(&context(64), &mut bus);
        assert_eq!((bus.l, bus.r), before, "a container moved the signal at mix {mix}");
        assert_eq!(node.params().mix, mix);
        assert!(node.is_at_rest());
    }
}

const BLOCK: usize = 256;

/// A kick-like burst every quarter second over a steady low tone.
fn drums(from: usize) -> Vec<f32> {
    (from..from + BLOCK)
        .map(|frame| {
            let t = frame as f32 / 48_000.0;
            let beat = (frame % 12_000) as f32 / 48_000.0;
            let kick = (-beat * 30.0).exp() * (core::f32::consts::TAU * 60.0 * beat).sin();
            0.8 * kick + 0.2 * (core::f32::consts::TAU * 110.0 * t).sin()
        })
        .collect()
}

fn two_buses(from: usize) -> (StereoBus<F>, StereoBus<F>) {
    let make = || {
        let mut bus = bus_of(&drums(from));
        for x in bus.r.iter_mut() {
            x.0 *= 0.9;
        }
        bus
    };
    (make(), make())
}

fn bus_comp_params() -> CompressorParams<F> {
    CompressorParams {
        threshold_db: F(-24.0),
        ratio: F(4.0),
        attack_ms: F(10.0),
        release_ms: F(100.0),
        knee_db: F(6.0),
        makeup_db: F(3.0),
        mix: F(0.8),
    }
}

type Insert = BusCompEffect<CompressorEffect<F>>;

#[test]
fn the_insert_is_the_master_section_to_the_bit() {
    let mut insert = Insert::new(bus_comp_params(), 48_000, 0, 7);
    let mut master = CompressorEffect::new(bus_comp_params(), 48_000);
    let mut reduced = 0.0f32;
    for block in 0..(48_000 / BLOCK) {
        let (mut a, mut b) = two_buses(block * BLOCK);
        insert.process(&context(BLOCK), &mut a, &Events::empty());
        master.process(&context(BLOCK), &mut b, &Events::empty());
        assert_eq!(a.l, b.l, "block {block}");
        assert_eq!(a.r, b.r, "block {block}");
        let frame = insert.dynamics_frame::<F>().unwrap();
        assert_eq!(Some(frame.reduction_db), master.dynamics_frame().map(|f| f.reduction_db));
        reduced = reduced.max(frame.reduction_db.0.abs());
    }
    assert!(reduced > 3.0, "never compressed: {reduced} dB");
}

/// A section that keeps what it was told under which id.
struct Told {
    at: usize,
    params: Vec<(usize, u32, f32)>,
    resets: usize,
    rate: u32,
}

impl RangeProcessor<F> for Told {
    fn process_range(&mut self, _bus: &mut StereoBus<F>, _start: usize, end: usize) {
        self.at = end;
    }

    fn apply_param(&mut self, id: u32, value: F) {
        self.params.push((self.at, id, value.0));
    }
}

impl BusSection<F> for Told {
    type Params = ();

    fn make(_params: (), sample_rate: u32) -> Self {
        Told { at: 0, params: Vec::new(), resets: 0, rate: sample_rate }
    }

    fn begin_block(&mut self) {
        self.at = 0;
    }

    fn set_sample_rate(&mut self, sample_rate: u32) {
        self.rate = sample_rate;
    }

    fn reset(&mut self) {
        self.resets += 1;
    }

    fn is_at_rest(&self) -> bool {
        self.resets > 0
    }

    fn dynamics_frame(&self) -> Option<DynamicsFrame<F>> {
        None
    }
}

#[test]
fn a_parameter_event_lands_on_its_frame_under_the_masters_id() {
    let mut insert: BusCompEffect<Told> = BusCompEffect::new::<F>((), 44_100, 40, 16);
    let mut events = Events::empty();
    for (offset, id, value) in [(40, 2, -35.0), (90, 5, 0.0), (120, 16, 1.0), (200, 0, 2.0)] {
        events.push(TimedEvent { offset, event: Event::ParamValue { id, value: F(value) } });
    }
    let (mut bus, _) = two_buses(0);
    insert.process(&context(BLOCK), &mut bus, &events);
    assert_eq!(insert.comp.params, vec![(40, 42, -35.0), (90, 45, 0.0), (200, 40, 2.0)]);
    assert_eq!(insert.comp.at, BLOCK);
    assert_eq!(insert.comp.rate, 48_000);
    assert_eq!(insert.latency_frames(), 0);
}

#[test]
fn a_non_finite_block_is_scrubbed_and_forgotten() {
    let mut insert = Insert::new(bus_comp_params(), 48_000, 0, 7);
    let mut poisoned = bus_of(&[0.0; BLOCK]);
    poisoned.l[3] = F(f32::NAN);
    insert.process(&context(BLOCK), &mut poisoned, &Events::empty());
    assert!(poisoned.l.iter().chain(&poisoned.r).all(|x| x.0.is_finite()));
    let mut fresh = Insert::new(bus_comp_params(), 48_000, 0, 7);
    let (mut a, mut b) = two_buses(0);
    insert.process(&context(BLOCK), &mut a, &Events::empty());
    fresh.process(&context(BLOCK), &mut b, &Events::empty());
    assert_eq!(a.l, b.l);
}

#[test]
fn silence_comes_to_rest() {
    let mut insert = Insert::new(bus_comp_params(), 48_000, 0, 7);
    let mut loud = bus_of(&[0.9; BLOCK]);
    insert.process(&context(BLOCK), &mut loud, &Events::empty());
    assert!(!insert.is_at_rest::<F>(), "a reduction in flight is not rest");
    for _ in 0..(48_000 * 20 / BLOCK) {
        let mut quiet = bus_of(&[0.0; BLOCK]);
        insert.process(&context(BLOCK), &mut quiet, &Events::empty());
    }
    assert!(insert.is_at_rest::<F>(), "twenty seconds of silence did not settle it");
}
