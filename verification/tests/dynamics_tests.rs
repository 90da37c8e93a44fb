use mooloop_dsp::bus::StereoBus;
use mooloop_dsp::curves::Curves;
use mooloop_dsp::dynamics::{
    CompressorEffect, CompressorParams, GateEffect, GateParams, COMP_PARAM_MAKEUP_DB,
    COMP_PARAM_RATIO, COMP_PARAM_THRESHOLD_DB,
};
use mooloop_dsp::event::{Event, EventList, TimedEvent};
use mooloop_dsp::level::{
    compressor_gain_db, db_to_linear_unfloored, linear_to_db_unfloored, linked_peak, time_coeff,
    DynamicsFrame, EnvelopeFollower,
};
use mooloop_dsp::limiter::{LimiterEffect, LimiterParams, LIMITER_PARAM_GAIN_DB};
use mooloop_dsp::lookahead::SlidingMin;
use mooloop_dsp::node::{Discontinuity, ProcessContext};
use mooloop_dsp::num::{Sample, Wide};

#[derive(Clone, Copy, Debug, PartialEq, PartialOrd)]
struct F(f32);

impl Sample for F {
    fn add(self, other: Self) -> Self {
        F(self.0 + other.0)
    }
    fn sub(self, other: Self) -> Self {
        F(self.0 - other.0)
    }
    fn mul(self, other: Self) -> Self {
        F(self.0 * other.0)
    }
    fn div(self, other: Self) -> Self {
        F(self.0 / other.0)
    }
    fn neg(self) -> Self {
        F(-self.0)
    }
    fn abs(self) -> Self {
        F(self.0.abs())
    }
    fn of(count: usize) -> Self {
        F(count as f32)
    }
    fn whole(self) -> usize {
        self.0 as usize
    }
    fn round(self) -> Self {
        F(self.0.round())
    }
    fn ceil(self) -> Self {
        F(self.0.ceil())
    }
    fn lt(self, other: Self) -> bool {
        self.0 < other.0
    }
    fn le(self, other: Self) -> bool {
        self.0 <= other.0
    }
    fn equals(self, other: Self) -> bool {
        self.0 == other.0
    }
    fn same(self, other: Self) -> bool {
        self.0.to_bits() == other.0.to_bits()
    }
    fn is_finite(self) -> bool {
        self.0.is_finite()
    }
}

impl Curves for F {
    fn pi() -> Self {
        F(core::f32::consts::PI)
    }
    fn sqrt(self) -> Self {
        F(self.0.sqrt())
    }
    fn sin(self) -> Self {
        F(self.0.sin())
    }
    fn cos(self) -> Self {
        F(self.0.cos())
    }
    fn tan(self) -> Self {
        F(self.0.tan())
    }
    fn tanh(self) -> Self {
        F(self.0.tanh())
    }
    fn exp(self) -> Self {
        F(self.0.exp())
    }
    fn exp2(self) -> Self {
        F(self.0.exp2())
    }
    fn ln(self) -> Self {
        F(self.0.ln())
    }
    fn log2(self) -> Self {
        F(self.0.log2())
    }
    fn log10(self) -> Self {
        F(self.0.log10())
    }
    fn powf(self, exponent: Self) -> Self {
        F(self.0.powf(exponent.0))
    }
}

#[derive(Clone, Copy, Debug, PartialEq, PartialOrd)]
struct F64(f64);

impl Sample for F64 {
    fn add(self, other: Self) -> Self {
        F64(self.0 + other.0)
    }
    fn sub(self, other: Self) -> Self {
        F64(self.0 - other.0)
    }
    fn mul(self, other: Self) -> Self {
        F64(self.0 * other.0)
    }
    fn div(self, other: Self) -> Self {
        F64(self.0 / other.0)
    }
    fn neg(self) -> Self {
        F64(-self.0)
    }
    fn abs(self) -> Self {
        F64(self.0.abs())
    }
    fn of(count: usize) -> Self {
        F64(count as f64)
    }
    fn whole(self) -> usize {
        self.0 as usize
    }
    fn round(self) -> Self {
        F64(self.0.round())
    }
    fn ceil(self) -> Self {
        F64(self.0.ceil())
    }
    fn lt(self, other: Self) -> bool {
        self.0 < other.0
    }
    fn le(self, other: Self) -> bool {
        self.0 <= other.0
    }
    fn equals(self, other: Self) -> bool {
        self.0 == other.0
    }
    fn same(self, other: Self) -> bool {
        self.0.to_bits() == other.0.to_bits()
    }
    fn is_finite(self) -> bool {
        self.0.is_finite()
    }
}

impl Curves for F64 {
    fn pi() -> Self {
        F64(core::f64::consts::PI)
    }
    fn sqrt(self) -> Self {
        F64(self.0.sqrt())
    }
    fn sin(self) -> Self {
        F64(self.0.sin())
    }
    fn cos(self) -> Self {
        F64(self.0.cos())
    }
    fn tan(self) -> Self {
        F64(self.0.tan())
    }
    fn tanh(self) -> Self {
        F64(self.0.tanh())
    }
    fn exp(self) -> Self {
        F64(self.0.exp())
    }
    fn exp2(self) -> Self {
        F64(self.0.exp2())
    }
    fn ln(self) -> Self {
        F64(self.0.ln())
    }
    fn log2(self) -> Self {
        F64(self.0.log2())
    }
    fn log10(self) -> Self {
        F64(self.0.log10())
    }
    fn powf(self, exponent: Self) -> Self {
        F64(self.0.powf(exponent.0))
    }
}

impl Wide<F> for F64 {
    fn widen(value: F) -> Self {
        F64(value.0 as f64)
    }
    fn narrow(self) -> F {
        F(self.0 as f32)
    }
}

type Events = EventList<F, ()>;

fn context(frames: usize) -> ProcessContext {
    ProcessContext { sample_rate: 48_000, frames }
}

/// A bus with the same samples on both sides.
fn bus_of(samples: &[f32]) -> StereoBus<F> {
    let mut bus = StereoBus::with_capacity(samples.len());
    for (i, &x) in samples.iter().enumerate() {
        bus.l[i] = F(x);
        bus.r[i] = F(x);
    }
    bus
}

fn left(bus: &StereoBus<F>) -> Vec<f32> {
    bus.l.iter().map(|x| x.0).collect()
}

fn right(bus: &StereoBus<F>) -> Vec<f32> {
    bus.r.iter().map(|x| x.0).collect()
}

/// One parameter event, at an offset.
fn param_at(offset: usize, id: u32, value: f32) -> Events {
    let mut events = EventList::empty();
    assert!(events.push(TimedEvent {
        offset: offset as u32,
        event: Event::ParamValue { id, value: F(value) },
    }));
    events
}

fn sine(frames: usize, freq: f32, amplitude: f32) -> Vec<f32> {
    (0..frames)
        .map(|i| (i as f32 / 48_000.0 * freq * core::f32::consts::TAU).sin() * amplitude)
        .collect()
}

const SR: u32 = 48_000;

const RATES: [u32; 4] = [44_100, 48_000, 96_000, 192_000];

/// The latency the limiters here declare.
const LATENCY: usize = 96;

type Limiter = LimiterEffect<F, F64>;

fn peak(samples: &[f32]) -> f32 {
    samples.iter().fold(0.0_f32, |worst, x| worst.max(x.abs()))
}

fn max_step(samples: &[f32]) -> f32 {
    samples.windows(2).map(|w| (w[1] - w[0]).abs()).fold(0.0, f32::max)
}

fn to_db(x: f32) -> f32 {
    linear_to_db_unfloored(F(x)).0
}

fn to_linear(db: f32) -> f32 {
    db_to_linear_unfloored(F(db)).0
}

fn tone(frames: usize, amplitude: f32) -> Vec<f32> {
    sine(frames, 220.0, amplitude)
}

fn plain_gate() -> GateParams<F> {
    GateParams {
        threshold_db: F(-40.0),
        attack_ms: F(1.0),
        hold_ms: F(50.0),
        release_ms: F(100.0),
        range_db: F(-60.0),
    }
}

fn gated(params: GateParams<F>, input: &[f32]) -> Vec<f32> {
    let mut bus = bus_of(input);
    GateEffect::new(params, SR).process(&context(input.len()), &mut bus, &Events::empty());
    left(&bus)
}

#[test]
fn the_gate_passes_signal_above_its_threshold() {
    let frames = 24_000;
    let out = gated(
        GateParams { threshold_db: F(-40.0), attack_ms: F(0.5), ..plain_gate() },
        &tone(frames, 0.5),
    );
    // Past the opening ramp the signal should be essentially untouched.
    let heard = peak(&out[frames / 2..]);
    assert!(heard > 0.49, "gate did not open: {heard}");
}

#[test]
fn the_gate_shuts_on_signal_below_its_threshold() {
    let frames = 48_000;
    let out = gated(
        GateParams {
            threshold_db: F(-40.0),
            release_ms: F(5.0),
            hold_ms: F(0.0),
            range_db: F(-80.0),
            ..plain_gate()
        },
        &tone(frames, 0.001),
    );
    let heard = peak(&out[frames / 2..]);
    assert!(heard < 1e-5, "gate did not shut: {heard}");
}

#[test]
fn the_gate_hold_keeps_it_open_through_a_brief_dip() {
    let frames = 24_000;
    let dip_start = 8_000;
    // 50 ms: longer than the level detector takes to fall 40 dB, so without a
    // hold the device has shut before the dip ends.
    let dip_len = 2_400;
    let build = |hold_ms: f32| {
        let mut input = tone(frames, 0.5);
        input[dip_start..dip_start + dip_len].fill(0.0);
        let out = gated(
            GateParams {
                threshold_db: F(-40.0),
                attack_ms: F(0.5),
                release_ms: F(5.0),
                hold_ms: F(hold_ms),
                range_db: F(-80.0),
            },
            &input,
        );
        // Level immediately after the dip, before a slow attack could have
        // re-opened it.
        peak(&out[dip_start + dip_len..dip_start + dip_len + 32])
    };
    let without_hold = build(0.0);
    let with_hold = build(100.0);
    assert!(
        with_hold > without_hold * 2.0,
        "the hold did not keep it open: {with_hold} vs {without_hold}"
    );
}

/// A compressor with no knee and no makeup.
fn hard_comp() -> CompressorParams<F> {
    CompressorParams {
        threshold_db: F(-18.0),
        ratio: F(4.0),
        attack_ms: F(1.0),
        release_ms: F(50.0),
        knee_db: F(0.0),
        makeup_db: F(0.0),
        mix: F(1.0),
    }
}

fn compressed(params: CompressorParams<F>, input: &[f32], events: &Events) -> Vec<f32> {
    let mut bus = bus_of(input);
    CompressorEffect::new(params, SR).process(&context(input.len()), &mut bus, events);
    left(&bus)
}

fn compressed_peak(params: CompressorParams<F>, amplitude: f32) -> f32 {
    let frames = 48_000;
    let out = compressed(params, &tone(frames, amplitude), &EventList::empty());
    peak(&out[frames / 2..])
}

#[test]
fn the_compressor_reduces_gain_above_the_threshold() {
    let quiet_in = 0.02; // about -34 dB, below threshold
    let loud_in = 0.5; // about -6 dB, above threshold
    let quiet_out = compressed_peak(hard_comp(), quiet_in);
    let loud_out = compressed_peak(hard_comp(), loud_in);
    // Below the threshold: untouched.
    assert!(
        (quiet_out / quiet_in - 1.0).abs() < 0.02,
        "quiet signal was altered: {quiet_in} -> {quiet_out}"
    );
    // Above it: 12 dB over at 4:1 should come out about 9 dB down.
    let reduction_db = to_db(loud_out) - to_db(loud_in);
    assert!((reduction_db + 9.0).abs() < 1.5, "expected about -9 dB, got {reduction_db}");
}

#[test]
fn compressor_makeup_restores_level() {
    let run = |makeup_db: f32| {
        compressed_peak(CompressorParams { makeup_db: F(makeup_db), ..hard_comp() }, 0.5)
    };
    let lift_db = to_db(run(9.0)) - to_db(run(0.0));
    assert!((lift_db - 9.0).abs() < 0.5, "makeup should add 9 dB, added {lift_db}");
}

#[test]
fn a_higher_ratio_compresses_harder() {
    let run =
        |ratio: f32| compressed_peak(CompressorParams { ratio: F(ratio), ..hard_comp() }, 0.5);
    let gentle = run(2.0);
    let hard = run(20.0);
    assert!(hard < gentle, "20:1 {hard} should beat 2:1 {gentle}");
    // 1:1 is a bypass.
    let unity = run(1.0);
    assert!((unity - 0.5).abs() < 0.02, "1:1 altered the signal: {unity}");
}

fn limiter_params(ceiling_db: f32, release_ms: f32, gain_db: f32) -> LimiterParams<F> {
    LimiterParams { ceiling_db: F(ceiling_db), release_ms: F(release_ms), gain_db: F(gain_db) }
}

fn limited(params: LimiterParams<F>, input: &[f32], events: &Events) -> (Vec<f32>, Limiter) {
    let mut bus = bus_of(input);
    let mut effect = Limiter::new(params, SR, LATENCY);
    effect.process(&context(input.len()), &mut bus, events);
    (left(&bus), effect)
}

#[test]
fn the_limiter_holds_the_ceiling() {
    for ceiling_db in [-0.3f32, -6.0, -12.0] {
        let frames = 48_000;
        let (out, _) = limited(
            limiter_params(ceiling_db, 50.0, 18.0),
            &tone(frames, 0.9),
            &EventList::empty(),
        );
        let ceiling = to_linear(ceiling_db);
        assert!(
            peak(&out) <= ceiling + 1e-4,
            "ceiling {ceiling_db} dB breached: {} > {ceiling}",
            peak(&out)
        );
        // And it should actually be working the signal, not just muting.
        assert!(
            peak(&out[frames / 2..]) > ceiling * 0.5,
            "limiter over-attenuated at {ceiling_db} dB"
        );
    }
}

#[test]
fn the_limiter_leaves_quiet_signal_alone() {
    let frames = 24_000;
    let reference = tone(frames, 0.1);
    let (out, _) = limited(limiter_params(0.0, 50.0, 0.0), &reference, &EventList::empty());
    // Late by the lookahead the limiter declares, and otherwise the signal
    // exactly.
    assert!(out[..LATENCY].iter().all(|sample| *sample == 0.0));
    for (i, expected) in reference[..frames - LATENCY].iter().enumerate() {
        assert_eq!(out[i + LATENCY], *expected, "quiet signal altered at {i}");
    }
}

#[test]
fn dynamics_param_events_take_effect_mid_block() {
    let frames = 48_000;
    let mut events = Events::empty();
    for (id, value) in [(COMP_PARAM_THRESHOLD_DB, -30.0f32), (COMP_PARAM_RATIO, 20.0f32)] {
        assert!(events.push(TimedEvent {
            offset: (frames / 2) as u32,
            event: Event::ParamValue { id, value: F(value) },
        }));
    }
    let out = compressed(
        CompressorParams {
            threshold_db: F(0.0),
            ratio: F(1.0),
            release_ms: F(20.0),
            ..hard_comp()
        },
        &tone(frames, 0.5),
        &events,
    );
    let before = peak(&out[frames / 4..frames / 2]);
    let after = peak(&out[3 * frames / 4..]);
    assert!(after < before * 0.5, "compression did not engage: {before} then {after}");
}

#[test]
fn compressor_makeup_change_mid_block_does_not_click() {
    let frames = 24_000;
    let out = compressed(
        CompressorParams {
            threshold_db: F(0.0),
            ratio: F(1.0),
            release_ms: F(20.0),
            ..hard_comp()
        },
        &tone(frames, 0.2),
        &param_at(frames / 2, COMP_PARAM_MAKEUP_DB, 18.0),
    );
    let max_step = max_step(&out);
    assert!(max_step < 0.1, "makeup change left a discontinuity of {max_step}");
}

#[test]
fn limiter_gain_change_mid_block_does_not_click() {
    let frames = 24_000;
    let (out, _) = limited(
        limiter_params(0.0, 20.0, 0.0),
        &tone(frames, 0.1),
        &param_at(frames / 2, LIMITER_PARAM_GAIN_DB, 18.0),
    );
    let max_step = max_step(&out);
    assert!(max_step < 0.1, "gain change left a discontinuity of {max_step}");
}

#[test]
fn the_compressors_reported_frame_matches_the_gain_it_applied() {
    let frames = 48_000;
    let amplitude = 0.5; // about -6 dB, 12 dB over the threshold
    let mut bus = bus_of(&tone(frames, amplitude));
    let mut effect = CompressorEffect::new(hard_comp(), SR);
    effect.process(&context(frames), &mut bus, &Events::empty());
    let frame = effect.dynamics_frame().expect("a compressor reduces gain");
    let (detector_db, reduction_db) = (frame.detector_db.0, frame.reduction_db.0);

    assert!(
        (detector_db - to_db(amplitude)).abs() < 1.0,
        "detector read {detector_db} for a {} dB tone",
        to_db(amplitude)
    );
    // 12 dB over at 4:1 is 9 dB of reduction, which is also what the audio
    // lost.
    assert!(
        (reduction_db + 9.0).abs() < 1.5,
        "reported {reduction_db} dB of reduction"
    );
    let measured_db = to_db(peak(&left(&bus)[frames / 2..])) - to_db(amplitude);
    assert!(
        (reduction_db - measured_db).abs() < 1.0,
        "reported {reduction_db} dB but the audio lost {measured_db} dB"
    );
}

#[test]
fn a_reported_frame_covers_the_whole_block_not_just_its_last_sample() {
    // One loud burst at the top of the block, silence for the rest.
    let mut input = vec![0.0; 4_096];
    input[..64].fill(0.9);
    let (_, effect) = limited(limiter_params(-12.0, 500.0, 0.0), &input, &EventList::empty());
    let frame = effect.dynamics_frame().expect("a limiter reduces gain");
    assert!(
        frame.reduction_db.0 < -6.0,
        "a burst 11 dB over the ceiling reported only {} dB",
        frame.reduction_db.0
    );
    assert!(
        frame.detector_db.0 > -3.0,
        "detector missed the burst, reading {}",
        frame.detector_db.0
    );
}

#[test]
fn a_limiters_reported_level_is_referred_to_its_input() {
    let run = |gain_db: f32| {
        let (_, effect) = limited(
            limiter_params(-1.0, 50.0, gain_db),
            &tone(8_192, 0.1),
            &EventList::empty(),
        );
        effect.dynamics_frame().expect("a limiter reduces gain").detector_db.0
    };
    let plain = run(0.0);
    let driven = run(12.0);
    assert!(
        (plain - driven).abs() < 0.5,
        "input gain moved the reported level from {plain} to {driven}"
    );
}

/// What each of the three makes of silence, and what it reports of it.
fn silence_through_each() -> Vec<(Vec<f32>, Option<DynamicsFrame<F>>)> {
    let frames = 4_096;
    let ctx = context(frames);
    let silent = vec![0.0; frames];
    let mut gate = GateEffect::new(plain_gate(), SR);
    let mut comp = CompressorEffect::new(hard_comp(), SR);
    let mut limiter = Limiter::new(limiter_params(-0.3, 100.0, 0.0), SR, LATENCY);
    let mut bus = [bus_of(&silent), bus_of(&silent), bus_of(&silent)];
    gate.process(&ctx, &mut bus[0], &Events::empty());
    comp.process(&ctx, &mut bus[1], &Events::empty());
    limiter.process(&ctx, &mut bus[2], &Events::empty());
    vec![
        (left(&bus[0]), gate.dynamics_frame()),
        (left(&bus[1]), comp.dynamics_frame()),
        (left(&bus[2]), limiter.dynamics_frame()),
    ]
}

#[test]
fn every_dynamics_effect_reports_a_resting_frame_for_silence() {
    for (_, frame) in silence_through_each() {
        let frame = frame.expect("all three reduce gain");
        assert!(
            frame.detector_db.0 <= -100.0,
            "silence detected at {}",
            frame.detector_db.0
        );
        assert!(
            frame.reduction_db.0 <= 0.0,
            "reported a gain increase: {}",
            frame.reduction_db.0
        );
    }
}

#[test]
fn every_dynamics_effect_leaves_silence_silent() {
    for (out, _) in silence_through_each() {
        for (i, x) in out.iter().enumerate() {
            assert!(x.abs() < 1e-9 && x.is_finite(), "silence became {x} at {i}");
        }
    }
}

/// The largest magnitude of `samples` reconstructed at four times the rate,
/// with a long windowed sinc of its own: the measurement, deliberately not the
/// limiter's detector.
fn true_peak_4x(samples: &[f32]) -> f32 {
    const HALF: isize = 32;
    let kernels: Vec<Vec<f64>> = (1..4)
        .map(|phase| {
            (-HALF + 1..=HALF)
                .map(|offset| {
                    let d = phase as f64 / 4.0 - offset as f64;
                    let x = core::f64::consts::PI * d;
                    let w = d / HALF as f64;
                    let window = 0.42
                        + 0.5 * (core::f64::consts::PI * w).cos()
                        + 0.08 * (2.0 * core::f64::consts::PI * w).cos();
                    x.sin() / x * window
                })
                .collect()
        })
        .collect();
    let mut peak = peak(samples);
    for k in 0..samples.len() as isize - 1 {
        for kernel in &kernels {
            let mut value = 0.0f64;
            for (tap, weight) in kernel.iter().enumerate() {
                let j = k - HALF + 1 + tap as isize;
                if j >= 0 && j < samples.len() as isize {
                    value += f64::from(samples[j as usize]) * weight;
                }
            }
            peak = peak.max(value.abs() as f32);
        }
    }
    peak
}

#[test]
fn a_transient_comes_out_under_the_ceiling_between_samples_too_without_the_clamp() {
    for sr in RATES {
        let frames = sr as usize / 2;
        let mut bus = StereoBus::with_capacity(frames);
        // Quiet programme, then a full-scale burst with its energy near a
        // quarter of the rate, where samples straddle the crests and the true
        // peak sits well above the sample peak.
        let burst_at = frames / 3;
        for i in 0..frames {
            let t = i as f32 / sr as f32;
            let quiet = 0.05 * (t * 220.0 * core::f32::consts::TAU).sin();
            let burst = if (burst_at..burst_at + 400).contains(&i) {
                let phase = (i - burst_at) as f32;
                0.95 * (phase * core::f32::consts::FRAC_PI_2 + 0.785).sin()
                    + 0.4 * (phase * 0.37).sin()
            } else {
                0.0
            };
            bus.l[i] = F(quiet + burst);
            bus.r[i] = F(quiet - burst * 0.5);
        }
        for ceiling_db in [-0.3f32, -3.0, -12.0] {
            let mut run = StereoBus::with_capacity(frames);
            run.l.copy_from_slice(&bus.l);
            run.r.copy_from_slice(&bus.r);
            let mut limiter = Limiter::new(limiter_params(ceiling_db, 50.0, 6.0), sr, LATENCY);
            limiter.set_backstop(false);
            limiter.process(
                &ProcessContext { sample_rate: sr, frames },
                &mut run,
                &Events::empty(),
            );
            let ceiling = to_linear(ceiling_db);
            for (side, samples) in [("left", left(&run)), ("right", right(&run))] {
                let over = true_peak_4x(&samples);
                assert!(
                    over <= ceiling * 1.005,
                    "{sr} Hz, ceiling {ceiling_db} dB: the {side} side's true peak is {:.2} dB",
                    20.0 * over.log10()
                );
            }
        }
    }
}

#[test]
fn material_sitting_on_the_threshold_does_not_make_the_gate_chatter() {
    let frames = SR as usize * 2;
    let threshold_db = -30.0f32;
    let input: Vec<f32> = (0..frames)
        .map(|i| {
            let t = i as f32 / SR as f32;
            // A decibel either side of the threshold, four times a second.
            let level_db = threshold_db + (t * 4.0 * core::f32::consts::TAU).sin();
            (t * 220.0 * core::f32::consts::TAU).sin() * to_linear(level_db)
        })
        .collect();
    let mut gate = GateEffect::new(
        GateParams {
            threshold_db: F(threshold_db),
            attack_ms: F(0.5),
            hold_ms: F(0.0),
            release_ms: F(5.0),
            range_db: F(-80.0),
        },
        SR,
    );
    let mut openings = 0usize;
    let mut was_open = false;
    for block in input.chunks(32) {
        let mut chunk = bus_of(block);
        gate.process(&context(block.len()), &mut chunk, &Events::empty());
        if gate.open != was_open {
            if gate.open {
                openings += 1;
            }
            was_open = gate.open;
        }
    }
    assert_eq!(openings, 1, "it chattered, opening {openings} times");
    assert!(was_open, "and it should have stayed open");
}

#[test]
fn the_compressor_mix_is_a_linear_parallel_balance() {
    let frames = 48_000;
    let dry = tone(frames, 0.5);
    let run = |mix: f32| {
        compressed(
            CompressorParams {
                threshold_db: F(-40.0),
                ratio: F(20.0),
                mix: F(mix),
                ..hard_comp()
            },
            &dry,
            &EventList::empty(),
        )
    };
    assert_eq!(run(0.0), dry, "a mix of zero is the input exactly");
    let wet = run(1.0);
    let half = run(0.5);
    for i in frames / 2..frames {
        let expected = 0.5 * dry[i] + 0.5 * wet[i];
        assert!(
            (half[i] - expected).abs() < 1e-4,
            "at {i}: {} where half of each is {expected}",
            half[i]
        );
    }
}

/// Needs that rise for longer than the window: each entry outlives the ones
/// before it, and the front is still the oldest that has not expired.
#[test]
fn a_long_rise_leaves_the_oldest_need_in_the_window_in_front() {
    let window = 5;
    let needs: Vec<f32> = (0..40).map(|i| i as f32 / 100.0).collect();
    let mut least = SlidingMin::new(window);
    for (i, &need) in needs.iter().enumerate() {
        let found = least.sliding_min(F(need)).0;
        let from = (i + 1).saturating_sub(window);
        let expected = needs[from..=i].iter().copied().fold(1.0, f32::min);
        assert_eq!(found, expected, "at {i}");
    }
}

#[test]
fn levels_convert_both_ways() {
    assert_eq!(to_linear(0.0), 1.0);
    assert_eq!(to_db(1.0), 0.0);
    assert!((to_linear(-6.0) - 0.501_187_2).abs() < 1e-6);
    assert!((to_db(0.5) + 6.020_6).abs() < 1e-4);
}

#[test]
fn a_follower_rises_at_once_and_falls_by_its_release() {
    let mut follower = EnvelopeFollower::new();
    follower.set_times(F(0.0), F(10.0), SR);
    assert_eq!(follower.process(F(0.5)), F(0.5));
    let next = follower.process(F(0.0)).0;
    assert!((next / 0.5 - time_coeff(F(10.0), SR).0).abs() < 1e-6);
    // What is not a number is heard as silence.
    assert!(follower.process(F(f32::NAN)).0.is_finite());
    assert_eq!(linked_peak(F(-0.5), F(0.25)), F(0.5));
}

#[test]
fn the_static_curves_are_what_the_ratio_says() {
    let over = compressor_gain_db(F(-6.0), F(-18.0), F(4.0), F(0.0)).0;
    assert!((over + 9.0).abs() < 1e-4);
    assert_eq!(compressor_gain_db(F(-20.0), F(-18.0), F(4.0), F(0.0)), F(0.0));
    // In the middle of a knee, an eighth of its width times the slope.
    let knee = compressor_gain_db(F(-18.0), F(-18.0), F(4.0), F(8.0)).0;
    assert!((knee + 0.75).abs() < 1e-4, "{knee}");
}

#[test]
fn an_empty_limiter_rests_and_a_fold_does_not_empty_it() {
    let mut limiter = Limiter::new(limiter_params(-1.0, 50.0, 0.0), SR, LATENCY);
    assert!(limiter.is_at_rest());
    assert_eq!(limiter.latency_frames(), LATENCY);
    let mut bus = bus_of(&tone(64, 0.5));
    limiter.process(&context(64), &mut bus, &Events::empty());
    assert!(!limiter.is_at_rest());
    limiter.on_discontinuity(Discontinuity::LoopFold);
    assert!(!limiter.is_at_rest());
    limiter.on_discontinuity(Discontinuity::Seek);
    let mut after = bus_of(&[0.0; 256]);
    limiter.process(&context(256), &mut after, &Events::empty());
    assert!(left(&after).iter().all(|&x| x == 0.0));
}
