use mooloop_dsp::bus::StereoBus;
use mooloop_dsp::curves::Curves;
use mooloop_dsp::env::{segment_rate, shape, shape_norm, Adsr, Ahd, AhdShape, ExpDecay};
use mooloop_dsp::event::{Event, EventList, TimedEvent};
use mooloop_dsp::glide::Glide;
use mooloop_dsp::harmonics::{
    grip, iron, moo, punch, reference_amplitude, solve_at, DcBlocker, HarmonicProfile,
    HarmonicShaper,
};
use mooloop_dsp::hosted_source::{DeviceKind, GeneratorParams, HostedSource, PluginSlotId};
use mooloop_dsp::node::ProcessContext;
use mooloop_dsp::num::{Sample, Wide};

#[derive(Clone, Copy, Debug, PartialEq, PartialOrd)]
struct F(f32);

impl Sample for F {
    fn add(self, other: Self) -> Self {
        F(self.0 + other.0)
    }
    fn sub(self, other: Self) -> Self {
        F(self.0 - other.0)
    }
    fn mul(self, other: Self) -> Self {
        F(self.0 * other.0)
    }
    fn div(self, other: Self) -> Self {
        F(self.0 / other.0)
    }
    fn neg(self) -> Self {
        F(-self.0)
    }
    fn abs(self) -> Self {
        F(self.0.abs())
    }
    fn of(count: usize) -> Self {
        F(count as f32)
    }
    fn whole(self) -> usize {
        self.0 as usize
    }
    fn round(self) -> Self {
        F(self.0.round())
    }
    fn ceil(self) -> Self {
        F(self.0.ceil())
    }
    fn lt(self, other: Self) -> bool {
        self.0 < other.0
    }
    fn le(self, other: Self) -> bool {
        self.0 <= other.0
    }
    fn equals(self, other: Self) -> bool {
        self.0 == other.0
    }
    fn same(self, other: Self) -> bool {
        self.0.to_bits() == other.0.to_bits()
    }
    fn is_finite(self) -> bool {
        self.0.is_finite()
    }
}

impl Curves for F {
    fn pi() -> Self {
        F(core::f32::consts::PI)
    }
    fn sqrt(self) -> Self {
        F(self.0.sqrt())
    }
    fn sin(self) -> Self {
        F(self.0.sin())
    }
    fn cos(self) -> Self {
        F(self.0.cos())
    }
    fn tan(self) -> Self {
        F(self.0.tan())
    }
    fn tanh(self) -> Self {
        F(self.0.tanh())
    }
    fn exp(self) -> Self {
        F(self.0.exp())
    }
    fn exp2(self) -> Self {
        F(self.0.exp2())
    }
    fn ln(self) -> Self {
        F(self.0.ln())
    }
    fn log2(self) -> Self {
        F(self.0.log2())
    }
    fn log10(self) -> Self {
        F(self.0.log10())
    }
    fn powf(self, exponent: Self) -> Self {
        F(self.0.powf(exponent.0))
    }
}

#[derive(Clone, Copy, Debug, PartialEq, PartialOrd)]
struct F64(f64);

impl Sample for F64 {
    fn add(self, other: Self) -> Self {
        F64(self.0 + other.0)
    }
    fn sub(self, other: Self) -> Self {
        F64(self.0 - other.0)
    }
    fn mul(self, other: Self) -> Self {
        F64(self.0 * other.0)
    }
    fn div(self, other: Self) -> Self {
        F64(self.0 / other.0)
    }
    fn neg(self) -> Self {
        F64(-self.0)
    }
    fn abs(self) -> Self {
        F64(self.0.abs())
    }
    fn of(count: usize) -> Self {
        F64(count as f64)
    }
    fn whole(self) -> usize {
        self.0 as usize
    }
    fn round(self) -> Self {
        F64(self.0.round())
    }
    fn ceil(self) -> Self {
        F64(self.0.ceil())
    }
    fn lt(self, other: Self) -> bool {
        self.0 < other.0
    }
    fn le(self, other: Self) -> bool {
        self.0 <= other.0
    }
    fn equals(self, other: Self) -> bool {
        self.0 == other.0
    }
    fn same(self, other: Self) -> bool {
        self.0.to_bits() == other.0.to_bits()
    }
    fn is_finite(self) -> bool {
        self.0.is_finite()
    }
}

impl Curves for F64 {
    fn pi() -> Self {
        F64(core::f64::consts::PI)
    }
    fn sqrt(self) -> Self {
        F64(self.0.sqrt())
    }
    fn sin(self) -> Self {
        F64(self.0.sin())
    }
    fn cos(self) -> Self {
        F64(self.0.cos())
    }
    fn tan(self) -> Self {
        F64(self.0.tan())
    }
    fn tanh(self) -> Self {
        F64(self.0.tanh())
    }
    fn exp(self) -> Self {
        F64(self.0.exp())
    }
    fn exp2(self) -> Self {
        F64(self.0.exp2())
    }
    fn ln(self) -> Self {
        F64(self.0.ln())
    }
    fn log2(self) -> Self {
        F64(self.0.log2())
    }
    fn log10(self) -> Self {
        F64(self.0.log10())
    }
    fn powf(self, exponent: Self) -> Self {
        F64(self.0.powf(exponent.0))
    }
}

impl Wide<F> for F64 {
    fn widen(value: F) -> Self {
        F64(value.0 as f64)
    }
    fn narrow(self) -> F {
        F(self.0 as f32)
    }
}

const SR: u32 = 48_000;

const RATES: [u32; 4] = [44_100, 48_000, 96_000, 192_000];

/// Time constants for a level of one to fall under a ten thousandth.
const DECAY_TAIL_CONSTANTS: f32 = 9.210_34;

fn cents(a: f32, b: f32) -> f32 {
    1_200.0 * (a / b).log2()
}

#[test]
fn adsr_runs_full_cycle() {
    let sr = 48_000;
    let mut env = Adsr::new(sr);
    env.configure(F(0.001), F(0.01), F(0.5), F(0.01));
    env.note_on();
    for _ in 0..(0.001 * sr as f32) as usize + 1 {
        env.advance();
    }
    assert!((env.level().0 - 1.0).abs() < 1e-3);
    // Decay to sustain.
    for _ in 0..(0.01 * sr as f32) as usize + 1 {
        env.advance();
    }
    assert!((env.level().0 - 0.5).abs() < 1e-3);
    let held = env.level();
    for _ in 0..100 {
        env.advance();
    }
    assert_eq!(held, env.level());
    // Release to idle.
    env.release();
    assert!(env.is_releasing());
    for _ in 0..(0.01 * sr as f32) as usize + 1 {
        env.advance();
    }
    assert!(env.is_idle());
    assert_eq!(env.level(), F(0.0));
}

#[test]
fn release_with_overrides_release_time() {
    let mut env = Adsr::new(48_000);
    env.configure(F(0.001), F(0.01), F(1.0), F(10.0));
    env.note_on();
    for _ in 0..100 {
        env.advance();
    }
    env.release_with(F(0.001));
    for _ in 0..48 + 1 {
        env.advance();
    }
    assert!(env.is_idle());
}

#[test]
fn exp_decay_falls_and_terminates() {
    let sr = 48_000;
    let mut env = ExpDecay::new();
    env.set_time(F(0.01), sr);
    env.trigger();
    assert_eq!(env.level(), F(1.0));
    // The seconds are the time to become inaudible, so running for slightly
    // longer than that should reach idle.
    for _ in 0..(0.012 * sr as f32) as usize {
        env.advance();
    }
    assert!(env.is_idle());
}

#[test]
fn exp_decay_is_exponential() {
    let sr = 48_000;
    let mut env = ExpDecay::new();
    env.set_time(F(0.1), sr);
    env.trigger();
    let tau_samples = (0.1 / DECAY_TAIL_CONSTANTS) * sr as f32;
    for _ in 0..tau_samples as usize {
        env.advance();
    }
    // After exactly one time constant the level should be about 1/e.
    assert!((env.level().0 - (-1.0_f32).exp()).abs() < 0.02);
}

#[test]
fn the_exponential_curve_is_normalized() {
    let derived = 1.0 / (DECAY_TAIL_CONSTANTS.exp() - 1.0);
    assert!((shape_norm::<F>().0 - derived).abs() < 1.0e-9);
    // Just past the middle the exponential is what its normalization makes it.
    let middle = ((DECAY_TAIL_CONSTANTS * 0.5).exp() - 1.0) * derived;
    assert!((shape(F(0.5), F(0.0)).0 - middle).abs() < 1.0e-6);
    for curve in [-1.0, -0.5, 0.0, 0.5, 1.0] {
        assert!(shape(F(0.0), F(curve)).0.abs() < 1.0e-6, "curve {curve} is not 0 at 0");
        assert!(
            (shape(F(1.0), F(curve)).0 - 1.0).abs() < 1.0e-6,
            "curve {curve} is not 1 at 1"
        );
    }
}

#[test]
fn curve_zero_is_the_exponential_decay_law() {
    let decay_s = 0.25;
    let mut shaped = Ahd::new();
    shaped.trigger(AhdShape { decay_s: F(decay_s), ..AhdShape::default() }, SR);
    let mut v1 = ExpDecay::new();
    v1.set_time(F(decay_s), SR);
    v1.trigger();

    let mut worst = 0.0_f32;
    for _ in 0..(decay_s * SR as f32) as usize {
        worst = worst.max((shaped.tick().0 - v1.level().0).abs());
        v1.advance();
    }
    assert!(worst < 2.0e-3, "the shaped decay is {worst} away from the exponential");
}

#[test]
fn the_curve_control_reaches_three_different_decays() {
    let at_half = |curve: f32| {
        let mut env = Ahd::new();
        env.trigger(
            AhdShape { decay_s: F(0.25), curve: F(curve), ..AhdShape::default() },
            SR,
        );
        for _ in 0..(0.125 * SR as f32) as usize {
            env.tick();
        }
        env.level().0
    };
    let logarithmic = at_half(-1.0);
    let exponential = at_half(0.0);
    let linear = at_half(1.0);
    assert!(logarithmic > 0.9, "logarithmic fell to {logarithmic}");
    assert!(
        (exponential - 0.01).abs() < 0.005,
        "exponential is {exponential}, want about 0.01"
    );
    assert!((linear - 0.5).abs() < 0.01, "linear is {linear}");
}

#[test]
fn a_zero_length_segment_costs_no_samples() {
    let mut env: Ahd<F> = Ahd::new();
    env.trigger(AhdShape::default(), SR);
    assert_eq!(env.tick(), F(1.0));

    // And an attack that is asked for still rises rather than jumping.
    let mut ramped = Ahd::new();
    ramped.trigger(AhdShape { attack_s: F(0.01), ..AhdShape::default() }, SR);
    assert_eq!(ramped.tick(), F(0.0));
    let mut peak = 0.0_f32;
    for _ in 0..(0.01 * SR as f32) as usize {
        peak = peak.max(ramped.tick().0);
    }
    assert!((peak - 1.0).abs() < 1.0e-3, "the attack reached {peak}");
}

#[test]
fn hold_is_flat_at_the_peak_for_its_stated_length() {
    let flat_samples = |hold_s: f32| {
        let mut env = Ahd::new();
        env.trigger(
            AhdShape { hold_s: F(hold_s), decay_s: F(0.25), ..AhdShape::default() },
            SR,
        );
        let mut flat = 0;
        while env.tick().0 == 1.0 {
            flat += 1;
            assert!(flat < SR as usize, "the hold never ended");
        }
        flat
    };
    assert_eq!(flat_samples(0.0), 1);
    assert_eq!(flat_samples(0.02), (0.02 * SR as f32) as usize + 1);
}

#[test]
fn a_gated_envelope_holds_at_sustain_and_releases() {
    let mut env = Ahd::new();
    env.trigger(
        AhdShape {
            decay_s: F(0.05),
            sustain: F(0.5),
            release_s: F(0.05),
            gate: true,
            ..AhdShape::default()
        },
        SR,
    );
    for _ in 0..(0.2 * SR as f32) as usize {
        env.tick();
    }
    assert!(env.is_sustaining());
    assert!(env.is_gated());
    assert!((env.level().0 - 0.5).abs() < 1.0e-4);

    env.release();
    for _ in 0..(0.1 * SR as f32) as usize {
        env.tick();
    }
    assert!(env.is_idle(), "a released envelope kept going");
}

#[test]
fn a_one_shot_envelope_ignores_release() {
    let mut env = Ahd::new();
    env.trigger(
        AhdShape { decay_s: F(0.5), sustain: F(0.8), ..AhdShape::default() },
        SR,
    );
    for _ in 0..1_000 {
        env.tick();
    }
    let before = env.level();
    env.release();
    assert_eq!(env.level(), before);
    assert!(!env.is_idle());

    // A choke is not a note-off, and reaches it anyway.
    env.release_over(F(0.005), SR);
    for _ in 0..(0.01 * SR as f32) as usize {
        env.tick();
    }
    assert!(env.is_idle());
}

#[test]
fn every_shape_without_a_held_gate_terminates() {
    for attack_s in [0.0, 0.01, 0.5] {
        for hold_s in [0.0, 0.02] {
            for decay_s in [0.002, 0.25] {
                for curve in [-1.0, 0.0, 1.0] {
                    for (gate, sustain) in [(false, 0.0), (false, 0.9), (true, 0.0)] {
                        let mut env = Ahd::new();
                        let shape = AhdShape {
                            attack_s: F(attack_s),
                            hold_s: F(hold_s),
                            decay_s: F(decay_s),
                            curve: F(curve),
                            sustain: F(sustain),
                            release_s: F(0.05),
                            gate,
                        };
                        env.trigger(shape, SR);
                        for _ in 0..(2.0 * SR as f32) as usize {
                            let level = env.tick().0;
                            assert!(level.is_finite() && (0.0..=1.0).contains(&level));
                        }
                        assert!(env.is_idle(), "{shape:?} never ended");
                    }
                }
            }
        }
    }
}

#[test]
fn resetting_an_envelope_makes_it_idle() {
    let mut env = Ahd::new();
    env.trigger(AhdShape { decay_s: F(1.0), ..AhdShape::default() }, SR);
    env.tick();
    assert!(!env.is_idle());
    env.reset();
    assert!(env.is_idle());
    assert_eq!(env.tick(), F(0.0));
}

#[test]
fn a_segment_rate_is_one_over_its_samples() {
    assert_eq!(segment_rate(F(0.5), 1_000), F(1.0 / 500.0));
}

fn slide(from_hz: f32, to_hz: f32, time_s: f32, sample_rate: u32, frames: usize) -> Vec<f32> {
    let mut glide = Glide::new(F(from_hz));
    glide.slide_to(F(to_hz), F(time_s), sample_rate);
    (0..frames).map(|_| glide.advance().0).collect()
}

#[test]
fn an_octave_up_and_an_octave_down_are_mirror_images() {
    for sr in RATES {
        let frames = (0.1 * sr as f32) as usize + 10;
        let up = slide(220.0, 440.0, 0.1, sr, frames);
        let down = slide(440.0, 220.0, 0.1, sr, frames);
        for (index, (u, d)) in up.iter().zip(&down).enumerate() {
            let risen = cents(*u, 220.0);
            let fallen = cents(440.0, *d);
            assert!(
                (risen - fallen).abs() < 0.01,
                "{sr} Hz, sample {index}: up {risen} cents, down {fallen} cents"
            );
        }
    }
}

#[test]
fn a_100_ms_glide_arrives_in_100_ms() {
    for sr in RATES {
        let arrive = (0.1 * sr as f32).round() as usize;
        let pitches = slide(110.0, 880.0, 0.1, sr, arrive + 100);
        let late = cents(pitches[arrive - 2], 880.0);
        assert!(late.abs() > 0.1, "{sr} Hz: already arrived a sample early ({late} cents)");
        for (index, pitch) in pitches.iter().enumerate().skip(arrive - 1) {
            assert!(
                cents(*pitch, 880.0).abs() < 0.01,
                "{sr} Hz: {pitch} Hz at sample {index}, after the glide time"
            );
        }
    }
}

#[test]
fn the_slide_is_linear_in_pitch() {
    let sr = 48_000;
    for (from, to) in [(100.0_f32, 1_600.0_f32), (1_000.0, 950.0), (300.0, 75.0)] {
        let pitches = slide(from, to, 0.2, sr, 9_600);
        let halfway = pitches[4_799];
        let expected = cents(to, from) / 2.0;
        assert!(
            (cents(halfway, from) - expected).abs() < 0.05,
            "{from} -> {to}: halfway at {} cents, wanted {expected}",
            cents(halfway, from)
        );
    }
}

#[test]
fn a_new_slide_mid_slide_starts_where_the_last_one_had_got_to() {
    let sr = 48_000;
    let mut glide = Glide::new(F(220.0));
    glide.slide_to(F(880.0), F(0.1), sr);
    let mut last = 0.0;
    for _ in 0..2_000 {
        last = glide.advance().0;
    }
    glide.slide_to(F(110.0), F(0.1), sr);
    let first = glide.advance().0;
    assert!(cents(first, last).abs() < 5.0, "stepped {last} -> {first} Hz");
    assert!(first < last);
}

#[test]
fn follow_slides_on_a_new_target_only() {
    let sr = 48_000;
    let mut glide = Glide::new(F(220.0));
    assert_eq!(glide.follow(F(220.0), F(0.1), sr), F(220.0));
    let first = glide.follow(F(440.0), F(0.1), sr).0;
    assert!(first > 220.0 && first < 230.0, "{first}");
    for _ in 0..4_799 {
        glide.follow(F(440.0), F(0.1), sr);
    }
    assert!(cents(glide.hz().0, 440.0).abs() < 0.01);
    glide.jump_to(F(110.0));
    assert_eq!(glide.follow(F(110.0), F(0.1), sr), F(110.0));
    assert_eq!(glide.target_hz(), F(110.0));
}

#[test]
fn a_slide_shorter_than_a_sample_is_a_jump() {
    let mut glide = Glide::new(F(220.0));
    glide.slide_to(F(330.0), F(0.75), 1);
    assert_eq!(glide.hz(), F(330.0));
    assert!(!glide.is_sliding());
    glide.slide_to(F(220.0), F(1.25), 1);
    assert!(glide.is_sliding());
    glide.advance();
    assert!(!glide.is_sliding());
}

#[test]
fn a_zero_glide_is_a_jump_and_skip_matches_walking() {
    let sr = 48_000;
    let mut glide = Glide::new(F(220.0));
    glide.slide_to(F(330.0), F(0.0), sr);
    assert_eq!(glide.hz(), F(330.0));
    assert!(!glide.is_sliding());

    let mut walked = Glide::new(F(220.0));
    walked.slide_to(F(660.0), F(0.05), sr);
    let mut skipped = walked;
    for _ in 0..777 {
        walked.advance();
    }
    skipped.skip(777);
    assert_eq!(walked.hz(), skipped.hz());
    skipped.skip(10_000);
    assert_eq!(skipped.hz(), F((660.0_f32).log2().exp2()));
    assert!(!skipped.is_sliding());
}

const SAMPLE_RATE: f32 = 48_000.0;

/// 4800 samples at 100 Hz is exactly ten cycles, so every harmonic lands on an
/// integer bin and the measurement needs no window.
const FRAMES: usize = 4800;

const FUNDAMENTAL_HZ: f32 = 100.0;

/// Amplitude of harmonic `n` in `samples`, by direct correlation.
fn harmonic_amplitude(samples: &[f32], n: usize) -> f32 {
    let step = std::f32::consts::TAU * FUNDAMENTAL_HZ * n as f32 / SAMPLE_RATE;
    let (mut sin_sum, mut cos_sum) = (0.0f64, 0.0f64);
    for (index, sample) in samples.iter().enumerate() {
        let phase = step * index as f32;
        sin_sum += (*sample * phase.sin()) as f64;
        cos_sum += (*sample * phase.cos()) as f64;
    }
    let scale = 2.0 / samples.len() as f64;
    (((sin_sum * scale).powi(2) + (cos_sum * scale).powi(2)).sqrt()) as f32
}

fn shaped_sine(profile: HarmonicProfile<F>, amplitude: f32) -> Vec<f32> {
    let shaper = HarmonicShaper::new::<F64>(profile);
    let step = std::f32::consts::TAU * FUNDAMENTAL_HZ / SAMPLE_RATE;
    (0..FRAMES)
        .map(|index| shaper.shape(F(amplitude * (step * index as f32).sin())).0)
        .collect()
}

fn db(ratio: f32) -> f32 {
    20.0 * ratio.max(1e-12).log10()
}

fn voicings() -> [(&'static str, HarmonicProfile<F>); 3] {
    [("Grip", grip()), ("Punch", punch()), ("Iron", iron())]
}

fn harmonics_db(profile: HarmonicProfile<F>) -> [f32; 2] {
    [profile.second.0, profile.third.0]
}

#[test]
fn harmonics_hit_their_stated_target_at_the_operating_level() {
    let amplitude = reference_amplitude::<F>().0;
    for (name, profile) in voicings() {
        let samples = shaped_sine(profile, amplitude);
        let fundamental = harmonic_amplitude(&samples, 1);
        for (index, target_db) in harmonics_db(profile).iter().enumerate() {
            let n = index + 2;
            let measured = db(harmonic_amplitude(&samples, n) / fundamental);
            assert!(
                (measured - target_db).abs() < 0.5,
                "{name} harmonic {n} measured {measured:.2} dB against a target of \
                 {target_db:.1} dB"
            );
        }
    }
}

#[test]
fn the_stage_is_unity_at_the_operating_level() {
    let amplitude = reference_amplitude::<F>().0;
    for (name, profile) in voicings() {
        let samples = shaped_sine(profile, amplitude);
        let gain = db(harmonic_amplitude(&samples, 1) / amplitude);
        assert!(gain.abs() < 0.1, "{name} moved the fundamental by {gain:+.2} dB");
    }

    // And stays near unity below it, where the makeup is no longer exact.
    for (name, profile) in voicings() {
        for quieter in [amplitude * 0.5, amplitude * 0.1, amplitude * 0.01] {
            let samples = shaped_sine(profile, quieter);
            let gain = db(harmonic_amplitude(&samples, 1) / quieter);
            assert!(
                gain.abs() < 0.3,
                "{name} at amplitude {quieter:.4} has gain {gain:+.2} dB"
            );
        }
    }
}

#[test]
fn the_profile_thins_as_the_signal_quietens() {
    let reference = reference_amplitude::<F>().0;
    for (name, profile) in voicings() {
        for n in 2..=3 {
            let mut previous = f32::INFINITY;
            for step in [1.0, 0.5, 0.25, 0.125] {
                let amplitude = reference * step;
                let samples = shaped_sine(profile, amplitude);
                let ratio = db(harmonic_amplitude(&samples, n) / harmonic_amplitude(&samples, 1));
                assert!(
                    ratio < previous - 1.0,
                    "{name} harmonic {n} did not recede at amplitude {amplitude}: \
                     {ratio:.2} dB against {previous:.2} dB"
                );
                previous = ratio;
            }
        }
    }
}

#[test]
fn the_level_law_is_the_polynomials_and_not_the_references() {
    let reference = reference_amplitude::<F>().0;
    let slope = |profile: HarmonicProfile<F>, n: usize| {
        let at = |amplitude: f32| {
            let samples = shaped_sine(profile, amplitude);
            db(harmonic_amplitude(&samples, n) / harmonic_amplitude(&samples, 1))
        };
        // Six dB of level, taken below the reference so the clamp is nowhere
        // near it.
        (at(reference) - at(reference * 0.5)) / 6.0
    };
    for (name, profile) in voicings() {
        for (n, expected) in [(2usize, 1.0f32), (3, 2.0)] {
            let measured = slope(profile, n);
            assert!(
                (measured - expected).abs() < 0.1,
                "{name} harmonic {n} rises {measured:.3} dB/dB, not {expected}"
            );
        }
    }
}

#[test]
fn full_scale_solves_to_the_coefficients_themselves() {
    for (name, profile) in voicings() {
        let (second, third, fundamental) = solve_at::<F, F64>(profile, F(1.0));
        assert!(
            (fundamental.0 - 1.0).abs() < 1e-6,
            "{name} needs makeup at full scale: {fundamental:?}"
        );
        for (coefficient, db_target) in [second.0, third.0].iter().zip(harmonics_db(profile)) {
            let expected = 10.0f32.powf(db_target / 20.0);
            assert!(
                (coefficient - expected).abs() < 1e-6,
                "{name}: solved {coefficient} against the identity's {expected}"
            );
        }
    }
}

#[test]
fn the_house_voicing_is_the_identity() {
    let shaper = HarmonicShaper::new::<F64>(moo());
    assert!(shaper.is_transparent());
    for step in -1000..=1000 {
        let x = step as f32 / 500.0;
        assert_eq!(shaper.shape(F(x)), F(x), "Moo altered {x}");
    }
}

#[test]
fn a_hot_sample_saturates_instead_of_exploding() {
    for (name, profile) in voicings() {
        let shaper = HarmonicShaper::new::<F64>(profile);
        assert_eq!(shaper.shape(F(4.0)), shaper.shape(F(1.0)), "{name}");
        assert_eq!(shaper.shape(F(-4.0)), shaper.shape(F(-1.0)), "{name}");
        let peak = shaper.shape(F(1.0)).0.abs();
        assert!(peak < 1.7, "{name} peaks at {peak}");
    }
}

#[test]
fn the_blocker_removes_the_offset_that_moves_with_level() {
    let samples = shaped_sine(iron(), 0.5);
    let mean = samples.iter().sum::<f32>() / samples.len() as f32;
    assert!(
        mean.abs() > 1e-4,
        "the fixture has no offset to remove ({mean:.2e}); this test proves nothing"
    );

    let mut blocker = DcBlocker::new(SAMPLE_RATE as u32, F(5.0));
    // Settle the one-pole before measuring, so the mean is the steady state
    // rather than the transient.
    let blocked: Vec<f32> = std::iter::repeat_n(samples.iter(), 4)
        .flatten()
        .map(|s| blocker.process(F(*s)).0)
        .skip(samples.len() * 3)
        .collect();
    let blocked_mean = blocked.iter().sum::<f32>() / blocked.len() as f32;
    assert!(
        blocked_mean.abs() < mean.abs() * 0.02,
        "offset {mean:.3e} was only reduced to {blocked_mean:.3e}"
    );
    // And the fundamental survived it.
    let before = harmonic_amplitude(&samples, 1);
    let after = harmonic_amplitude(&blocked, 1);
    assert!(
        (db(after / before)).abs() < 0.05,
        "the blocker moved 100 Hz by {:.3} dB",
        db(after / before)
    );
    blocker.reset();
    assert_eq!(blocker.process(F(0.25)), F(0.25));
}

#[test]
fn a_profile_of_absent_harmonics_is_transparent() {
    assert!(HarmonicProfile::<F>::transparent().is_transparent());
    assert!(HarmonicProfile::new(F(-120.0), F(-200.0)).is_transparent());
    assert!(!HarmonicProfile::new(F(-120.0), F(-119.0)).is_transparent());
    assert!(!HarmonicShaper::at_amplitude::<F64>(grip(), F(0.5)).is_transparent());
}

fn ctx(frames: usize) -> ProcessContext {
    ProcessContext { sample_rate: 48_000, frames }
}

/// What a source may be handed: something that renders a block.
trait Render {
    fn render(&mut self, bus: &mut StereoBus<F>, events: &EventList<F, ()>, frames: usize);
}

/// Writes one from each note-on's frame to the end of the block, adding to
/// what the bus held, so a test sees both the clear and the timing.
struct Step;

impl Render for Step {
    fn render(&mut self, bus: &mut StereoBus<F>, events: &EventList<F, ()>, frames: usize) {
        for event in events.iter() {
            if let Event::NoteOn { .. } = event.event {
                for frame in event.offset as usize..frames {
                    bus.l[frame].0 += 1.0;
                    bus.r[frame].0 += 1.0;
                }
            }
        }
    }
}

/// Writes a constant one, notes or not: a drone, so a fade is the only thing
/// that moves the output.
struct Drone;

impl Render for Drone {
    fn render(&mut self, bus: &mut StereoBus<F>, _events: &EventList<F, ()>, frames: usize) {
        bus.l[..frames].fill(F(1.0));
        bus.r[..frames].fill(F(1.0));
    }
}

type Source<N> = HostedSource<N, F>;

fn process_source<N: Render>(
    source: &mut Source<N>,
    frames: usize,
    bus: &mut StereoBus<F>,
    events: &EventList<F, ()>,
) {
    let frames = source.begin_block(&ctx(frames), bus);
    if let Some(node) = &mut source.node {
        node.render(bus, events, frames);
    }
    source.apply_fade(bus, frames);
}

fn note_at(offset: u32) -> EventList<F, ()> {
    let mut events = EventList::empty();
    assert!(events.push_ordered(TimedEvent {
        offset,
        event: Event::NoteOn { id: 1, note: 60, velocity: 100 },
    }));
    events
}

fn slot(raw: u32) -> PluginSlotId {
    PluginSlotId { raw }
}

#[test]
fn without_a_processor_it_is_silent_and_at_rest() {
    let mut source = Source::<Step>::new(slot(2));
    let mut bus = StereoBus::with_capacity(8);
    bus.l[..8].fill(F(0.5));
    bus.r[..8].fill(F(0.5));
    process_source(&mut source, 8, &mut bus, &note_at(0));
    assert!(bus.l[..8].iter().chain(&bus.r[..8]).all(|&s| s.0 == 0.0));
    // What a node that has not opted into either would answer.
    assert!(source.is_at_rest(false));
    assert_eq!(source.tail_frames(u32::MAX), 0);
    assert_eq!(source.kind(), DeviceKind::Plugin);
    assert_eq!(source.generator_params(), GeneratorParams::Plugin(slot(2)));
    assert!(!source.is_hosted());
    assert_eq!(source.slot(), slot(2));
}

#[test]
fn a_processor_plays_notes_at_their_frame_on_a_cleared_bus() {
    let mut source = Source::with_processor(slot(2), Step);
    let mut bus = StereoBus::with_capacity(8);
    bus.l[..8].fill(F(0.5));
    process_source(&mut source, 8, &mut bus, &note_at(3));
    let heard: Vec<f32> = bus.l[..8].iter().map(|s| s.0).collect();
    assert_eq!(heard, [0.0, 0.0, 0.0, 1.0, 1.0, 1.0, 1.0, 1.0]);
    assert!(!source.is_at_rest(false), "a node that has not opted in is never at rest");
    assert_eq!(source.tail_frames(7), 7);
}

#[test]
fn a_processor_goes_only_into_its_own_slot_and_comes_back_out() {
    let mut source = Source::new(slot(2));
    let refused = source.host_processor(slot(3), Some(Step));
    assert!(matches!(refused, Err(Some(_))), "another slot's processor is handed back");
    let displaced = source.host_processor(slot(2), Some(Step));
    assert!(matches!(displaced, Ok(None)));
    assert!(source.is_hosted());
    let pulled = source.host_processor(slot(2), None);
    assert!(matches!(pulled, Ok(Some(_))), "a pull-back hands the processor back");
    assert!(!source.is_hosted());
}

fn block(source: &mut Source<Drone>, frames: usize) -> Vec<f32> {
    let mut bus = StereoBus::with_capacity(frames);
    process_source(source, frames, &mut bus, &EventList::empty());
    bus.l[..frames].iter().map(|s| s.0).collect()
}

const SWAP_FADE_S: f32 = 0.035;

const SWAP_MAX_WAIT_S: f32 = 0.1;

#[test]
fn a_swap_under_a_sounding_processor_fades_out_and_the_next_fades_in() {
    let slot = slot(2);
    let mut source = Source::with_processor(slot, Drone);
    let block_frames = 64;
    assert!(block(&mut source, block_frames).iter().all(|&s| s == 1.0));
    let fade = (SWAP_FADE_S * 48_000.0) as usize;
    let mut out = Vec::new();
    let mut asks = 0;
    while !source.ready_for_processor_swap(slot, block_frames) {
        asks += 1;
        out.extend(block(&mut source, block_frames));
    }
    let heard = asks * block_frames;
    assert!(
        heard >= fade && heard < fade + 2 * block_frames,
        "the swap waited {heard} frames for a {fade}-frame fade"
    );
    assert_eq!(*out.last().unwrap(), 0.0, "the swap lands on silence");
    assert!(source.host_processor(slot, Some(Drone)).is_ok());
    for _ in 0..(fade / block_frames + 2) {
        out.extend(block(&mut source, block_frames));
    }
    assert_eq!(*out.last().unwrap(), 1.0, "the incoming processor is back at full level");
    let largest = out.windows(2).map(|w| (w[1] - w[0]).abs()).fold(0.0, f32::max);
    assert!(largest <= 1.5 / fade as f32, "a step of {largest}");
}

#[test]
fn a_swap_with_nothing_sounding_goes_at_once_and_fades_nothing() {
    let own = slot(2);
    let mut source = Source::new(own);
    assert!(source.ready_for_processor_swap(own, 64), "no processor: nothing to fade");
    assert!(source.host_processor(own, Some(Drone)).is_ok());
    assert!(
        source.ready_for_processor_swap(slot(3), 64),
        "another slot's swap is refused anyway, so it fades nothing"
    );
    assert!(block(&mut source, 64).iter().all(|&s| s == 1.0));
}

#[test]
fn a_processor_arriving_after_a_pull_out_fades_in_however_late() {
    let slot = slot(2);
    let mut source = Source::with_processor(slot, Drone);
    block(&mut source, 64);
    while !source.ready_for_processor_swap(slot, 64) {
        block(&mut source, 64);
    }
    assert!(matches!(source.host_processor(slot, None), Ok(Some(_))));
    for _ in 0..100 {
        assert!(block(&mut source, 64).iter().all(|&s| s == 0.0));
    }
    assert!(source.host_processor(slot, Some(Drone)).is_ok());
    assert!(block(&mut source, 64)[0] < 0.01, "the late processor fades in");
}

#[test]
fn a_swap_that_is_not_rendered_goes_after_the_longest_wait() {
    let slot = slot(2);
    let mut source = Source::with_processor(slot, Drone);
    block(&mut source, 64);
    let limit = (SWAP_MAX_WAIT_S * 48_000.0) as usize;
    let mut waited = 0;
    while !source.ready_for_processor_swap(slot, 64) {
        waited += 64;
        assert!(waited <= limit + 64, "held past the longest wait");
    }
    assert!(waited + 64 >= limit);
    assert!(source.host_processor(slot, Some(Drone)).is_ok());
    assert!(block(&mut source, 64)[0] < 0.01, "the incoming processor fades in");
}

#[test]
fn a_source_built_from_its_kind_takes_the_first_slot_it_is_given_and_no_other() {
    let mut source = Source::<Drone>::new(slot(0));
    assert!(!slot(0).is_assigned());
    assert!(source.host_processor(slot(0), None).is_err());
    assert!(source.set_generator_params(&GeneratorParams::Plugin(slot(4))));
    assert_eq!(source.slot(), slot(4));
    assert!(source.set_generator_params(&GeneratorParams::Plugin(slot(4))));
    assert!(!source.set_generator_params(&GeneratorParams::Plugin(slot(5))));
    assert!(!source.set_generator_params(&GeneratorParams::Native));
}
