use std::sync::atomic::{AtomicUsize, Ordering};

use mooloop_dsp::biquad::{Biquad, EqBandKind, EqQProfile};
use mooloop_dsp::bus::StereoBus;
use mooloop_dsp::curves::Curves;
use mooloop_dsp::eq::{
    design_eq_bank, eq_band_of, eq_band_param, eq_pass_of, eq_pass_param, eq_plot_frequency,
    eq_response_db, EqBand, EqEffect, EqParams, EqPass, EqSlope, EQ_BAND_GAIN, EQ_BAND_ON,
    EQ_BAND_Q, EQ_DESCRIPTOR_COUNT, EQ_HIGH_PASS, EQ_MAX_BANDS, EQ_PASS_FREQ, PASS_STAGES,
    STAGES,
};
use mooloop_dsp::event::{Event, EventList, TimedEvent};
use mooloop_dsp::node::ProcessContext;
use mooloop_dsp::num::Sample;
use mooloop_dsp::split::ControlCurve;

/// Sines taken so far: a stage's design takes some.
static SINES: AtomicUsize = AtomicUsize::new(0);

#[derive(Clone, Copy, Debug, PartialEq, PartialOrd)]
struct F(f32);

impl Sample for F {
    fn add(self, other: Self) -> Self {
        F(self.0 + other.0)
    }
    fn sub(self, other: Self) -> Self {
        F(self.0 - other.0)
    }
    fn mul(self, other: Self) -> Self {
        F(self.0 * other.0)
    }
    fn div(self, other: Self) -> Self {
        F(self.0 / other.0)
    }
    fn neg(self) -> Self {
        F(-self.0)
    }
    fn abs(self) -> Self {
        F(self.0.abs())
    }
    fn of(count: usize) -> Self {
        F(count as f32)
    }
    fn whole(self) -> usize {
        self.0 as usize
    }
    fn round(self) -> Self {
        F(self.0.round())
    }
    fn ceil(self) -> Self {
        F(self.0.ceil())
    }
    fn lt(self, other: Self) -> bool {
        self.0 < other.0
    }
    fn le(self, other: Self) -> bool {
        self.0 <= other.0
    }
    fn equals(self, other: Self) -> bool {
        self.0 == other.0
    }
    fn same(self, other: Self) -> bool {
        self.0.to_bits() == other.0.to_bits()
    }
    fn is_finite(self) -> bool {
        self.0.is_finite()
    }
}

impl Curves for F {
    fn pi() -> Self {
        F(core::f32::consts::PI)
    }
    fn sqrt(self) -> Self {
        F(self.0.sqrt())
    }
    fn sin(self) -> Self {
        SINES.fetch_add(1, Ordering::SeqCst);
        F(self.0.sin())
    }
    fn cos(self) -> Self {
        F(self.0.cos())
    }
    fn tan(self) -> Self {
        F(self.0.tan())
    }
    fn tanh(self) -> Self {
        F(self.0.tanh())
    }
    fn exp(self) -> Self {
        F(self.0.exp())
    }
    fn exp2(self) -> Self {
        F(self.0.exp2())
    }
    fn ln(self) -> Self {
        F(self.0.ln())
    }
    fn log2(self) -> Self {
        F(self.0.log2())
    }
    fn log10(self) -> Self {
        F(self.0.log10())
    }
    fn powf(self, exponent: Self) -> Self {
        F(self.0.powf(exponent.0))
    }
}

type Events = EventList<F, ()>;

fn context(frames: usize) -> ProcessContext {
    ProcessContext { sample_rate: 48_000, frames }
}

/// A bus with the same samples on both sides.
fn bus_of(samples: &[f32]) -> StereoBus<F> {
    let mut bus = StereoBus::with_capacity(samples.len());
    for (i, &x) in samples.iter().enumerate() {
        bus.l[i] = F(x);
        bus.r[i] = F(x);
    }
    bus
}

fn left(bus: &StereoBus<F>) -> Vec<f32> {
    bus.l.iter().map(|x| x.0).collect()
}

fn right(bus: &StereoBus<F>) -> Vec<f32> {
    bus.r.iter().map(|x| x.0).collect()
}

/// One parameter event, at an offset.
fn param_at(offset: usize, id: u32, value: f32) -> Events {
    let mut events = EventList::empty();
    assert!(events.push(TimedEvent {
        offset: offset as u32,
        event: Event::ParamValue { id, value: F(value) },
    }));
    events
}

fn sine(frames: usize, freq: f32, amplitude: f32) -> Vec<f32> {
    (0..frames)
        .map(|i| (i as f32 / 48_000.0 * freq * core::f32::consts::TAU).sin() * amplitude)
        .collect()
}

const SR: u32 = 48_000;

const MAX_TICKS: usize = 256;

/// A noise-ish input, deterministic so two runs compare exactly.
fn signal(frames: usize) -> StereoBus<F> {
    let mut bus = StereoBus::with_capacity(frames);
    let mut x = 0x1234_5678u32;
    for index in 0..frames {
        x = x.wrapping_mul(1_664_525).wrapping_add(1_013_904_223);
        let sample = (x >> 8) as f32 / (1 << 23) as f32 - 1.0;
        bus.l[index] = F(sample * 0.5);
        bus.r[index] = F(sample * 0.4);
    }
    bus
}

const BAND_HZ: [f32; EQ_MAX_BANDS] = [60.0, 150.0, 400.0, 1_000.0, 2_500.0, 6_000.0, 12_000.0];

fn band(frequency_hz: f32) -> EqBand<F> {
    EqBand {
        enabled: true,
        kind: EqBandKind::Bell,
        frequency_hz: F(frequency_hz),
        gain_db: F(0.0),
        q: F(1.0),
        q_profile: EqQProfile::Constant,
    }
}

fn pass(frequency_hz: f32, slope: EqSlope) -> EqPass<F> {
    EqPass { enabled: true, frequency_hz: F(frequency_hz), q: F(0.707), slope }
}

/// Every stage in.
fn all_on() -> EqParams<F> {
    EqParams {
        bands: BAND_HZ.map(band),
        high_pass: pass(20.0, EqSlope::Db36),
        low_pass: pass(20_000.0, EqSlope::Db36),
    }
}

/// Every stage off: a test about exactness has to start from a bank it
/// controls entirely.
fn all_off() -> EqParams<F> {
    let mut params = all_on();
    for band in &mut params.bands {
        band.enabled = false;
    }
    params.high_pass.enabled = false;
    params.low_pass.enabled = false;
    params
}

fn render(params: EqParams<F>, frames: usize) -> (Vec<f32>, Vec<f32>) {
    let mut effect = EqEffect::new(params, SR, MAX_TICKS);
    let mut bus = signal(frames);
    effect.process(&context(frames), &mut bus, &Events::empty());
    (left(&bus), right(&bus))
}

/// How many sines one stage's design takes, on both sides.
fn sines_of_a_design() -> usize {
    let before = SINES.load(Ordering::SeqCst);
    Biquad::<F>::identity().pass(F(1_000.0), F(0.707), true, SR);
    2 * (SINES.load(Ordering::SeqCst) - before)
}

/// A leading coefficient that no design gives.
const UNTOUCHED: F = F(12_345.0);

/// Resolve the bank, and say how often each stage was designed: a stage that
/// keeps a coefficient of no design was not, and the sines taken are those of
/// one design for each of the others.
fn rebuilds(effect: &mut EqEffect<F>) -> [u32; STAGES] {
    for stage in 0..STAGES {
        effect.bank.left[stage].b0 = UNTOUCHED;
        effect.bank.right[stage].b0 = UNTOUCHED;
    }
    let each = sines_of_a_design();
    let before = SINES.load(Ordering::SeqCst);
    effect.bank.resolve_dirty();
    let designs = (SINES.load(Ordering::SeqCst) - before) / each;
    let mut counts = [0; STAGES];
    for (stage, count) in counts.iter_mut().enumerate() {
        let left = effect.bank.left[stage].b0 != UNTOUCHED;
        assert_eq!(left, effect.bank.right[stage].b0 != UNTOUCHED, "stage {stage}");
        *count = left as u32;
    }
    assert_eq!(designs, counts.iter().sum::<u32>() as usize, "a stage was designed twice");
    counts
}

#[test]
fn construction_designs_every_stage_exactly_once() {
    let each = sines_of_a_design();
    let before = SINES.load(Ordering::SeqCst);
    let mut effect = EqEffect::new(all_on(), SR, MAX_TICKS);
    assert_eq!((SINES.load(Ordering::SeqCst) - before) / each, STAGES);
    // Each stage holds its own design: sorted by frequency, no two alike.
    let mut whole = [Biquad::identity(); STAGES];
    design_eq_bank(&all_on(), SR, &mut whole);
    for stage in 0..STAGES {
        assert_eq!(effect.bank.left[stage].b0, whole[stage].b0, "stage {stage}");
        assert_eq!(effect.bank.right[stage].a1, whole[stage].a1, "stage {stage}");
    }
    assert_eq!(rebuilds(&mut effect), [0; STAGES]);
}

#[test]
fn changing_one_band_only_redesigns_that_band() {
    let mut effect = EqEffect::new(all_on(), SR, MAX_TICKS);
    let before = SINES.load(Ordering::SeqCst);
    effect.apply_param(eq_band_param(2, EQ_BAND_GAIN), F(6.0));
    assert_eq!(
        SINES.load(Ordering::SeqCst),
        before,
        "apply_param alone must not have redesigned anything yet"
    );
    for (index, count) in rebuilds(&mut effect).iter().enumerate() {
        if index == 2 {
            assert_eq!(*count, 1, "band 2 should have been redesigned once more");
        } else {
            assert_eq!(
                *count, 0,
                "stage {index} was redesigned though only band 2's own parameter changed"
            );
        }
    }
}

#[test]
fn changing_the_high_pass_does_not_redesign_the_low_pass_or_any_band() {
    let mut effect = EqEffect::new(all_on(), SR, MAX_TICKS);
    effect.apply_param(eq_pass_param(EQ_HIGH_PASS, EQ_PASS_FREQ), F(120.0));
    let high_pass_start = EQ_MAX_BANDS;
    let low_pass_start = EQ_MAX_BANDS + PASS_STAGES;
    for (index, count) in rebuilds(&mut effect).iter().enumerate() {
        if (high_pass_start..low_pass_start).contains(&index) {
            assert_eq!(*count, 1, "high-pass stage {index} should have been redesigned");
        } else {
            assert_eq!(
                *count, 0,
                "stage {index} was redesigned though only the high-pass changed"
            );
        }
    }
}

#[test]
fn two_params_changing_at_one_tick_coalesce_into_one_resolve() {
    let mut effect = EqEffect::new(all_on(), SR, MAX_TICKS);
    effect.apply_param(eq_band_param(0, EQ_BAND_GAIN), F(3.0));
    effect.apply_param(eq_band_param(0, EQ_BAND_Q), F(2.0));
    let counts = rebuilds(&mut effect);
    assert_eq!(
        counts[0], 1,
        "band 0 should have been redesigned once for the tick, not once per parameter"
    );
    assert_eq!(counts[1..], [0; STAGES - 1]);
}

#[test]
fn the_curve_path_and_the_event_path_agree() {
    let frames = 128usize;
    let gain_id = eq_band_param(0, EQ_BAND_GAIN);

    let mut via_events = EqEffect::new(all_on(), SR, MAX_TICKS);
    let mut events = Events::empty();
    for (offset, value) in [(0, 6.0), (32, 9.0)] {
        events.push_ordered(TimedEvent {
            offset,
            event: Event::ParamValue { id: gain_id, value: F(value) },
        });
    }
    let mut bus_events = signal(frames);
    via_events.process(&context(frames), &mut bus_events, &events);

    let mut via_curves = EqEffect::new(all_on(), SR, MAX_TICKS);
    let values = [F(6.0), F(9.0), F(9.0), F(9.0)];
    via_curves.apply_curves(&[ControlCurve { id: gain_id, values: &values }]);
    let mut bus_curves = signal(frames);
    via_curves.process(&context(frames), &mut bus_curves, &Events::empty());

    assert_eq!(bus_events.l, bus_curves.l);
    assert_eq!(bus_events.r, bus_curves.r);
}

#[test]
fn a_disabled_band_is_bit_identical_to_not_having_it() {
    let frames = 4_096;
    let mut one = all_off();
    one.bands[1].enabled = true;
    one.bands[1].gain_db = F(9.0);
    one.bands[1].frequency_hz = F(900.0);

    // The same working band, with the other six switched off around it and
    // carrying settings that would be very audible if they ran.
    let mut padded = one;
    for index in [0, 2, 3, 4, 5, 6] {
        padded.bands[index].enabled = false;
        padded.bands[index].gain_db = F(18.0);
        padded.bands[index].frequency_hz = F(40.0 * (index as f32 + 1.0));
    }

    let (left, right) = render(one, frames);
    let (padded_left, padded_right) = render(padded, frames);
    assert_eq!(left, padded_left, "a disabled band moved the left channel");
    assert_eq!(right, padded_right, "a disabled band moved the right channel");
    assert!(left.iter().any(|s| s.abs() > 0.01), "the comparison ran on silence");
}

#[test]
fn an_eq_with_nothing_enabled_passes_the_signal_through_untouched() {
    let frames = 1_024;
    let (out_l, out_r) = render(all_off(), frames);
    let source = signal(frames);
    assert_eq!(out_l, left(&source));
    assert_eq!(out_r, right(&source));
}

#[test]
fn disabling_a_band_mid_block_stops_it_from_that_sample() {
    let frames = 2_048;
    let mut params = all_off();
    params.bands[0].enabled = true;
    params.bands[0].gain_db = F(18.0);
    params.bands[0].frequency_hz = F(500.0);

    // Switch band 0 off half way through.
    let events = param_at(frames / 2, eq_band_param(0, EQ_BAND_ON), 0.0);
    let mut effect = EqEffect::new(params, SR, MAX_TICKS);
    let mut bus = signal(frames);
    effect.process(&context(frames), &mut bus, &events);
    let source = signal(frames);

    assert!(
        (0..frames / 2).any(|i| (bus.l[i].0 - source.l[i].0).abs() > 1e-4),
        "the band was not audible before it was switched off"
    );
    for index in frames / 2..frames {
        assert_eq!(
            bus.l[index], source.l[index],
            "frame {index} was still filtered after the band was switched off"
        );
    }
}

#[test]
fn the_plotted_curve_is_what_a_sine_measures_through_the_bank() {
    let mut params = all_off();
    params.bands[0] = EqBand {
        enabled: true,
        kind: EqBandKind::LowShelf,
        frequency_hz: F(200.0),
        gain_db: F(6.0),
        q: F(1.2),
        q_profile: EqQProfile::Constant,
    };
    params.bands[1] = EqBand {
        enabled: true,
        kind: EqBandKind::Bell,
        frequency_hz: F(1_000.0),
        gain_db: F(-8.0),
        q: F(2.0),
        q_profile: EqQProfile::Proportional,
    };
    params.bands[2] = EqBand {
        enabled: true,
        kind: EqBandKind::HighShelf,
        frequency_hz: F(6_000.0),
        gain_db: F(9.0),
        q: F(0.6),
        q_profile: EqQProfile::Constant,
    };
    params.high_pass.enabled = true;
    params.high_pass.frequency_hz = F(80.0);
    params.high_pass.slope = EqSlope::Db18;
    params.low_pass.enabled = true;
    params.low_pass.frequency_hz = F(12_000.0);
    params.low_pass.slope = EqSlope::Db12;

    let samples = 129;
    let curve = eq_response_db(&params, SR, samples);

    // The tone is placed at the frequency a sample of the curve stands for.
    for index in [8, 24, 40, 56, 72, 88, 104, 120] {
        let hz = eq_plot_frequency(F(index as f32 / (samples - 1) as f32)).0;
        let drawn = curve[index].0;

        let frames = SR as usize;
        let mut effect = EqEffect::new(params, SR, MAX_TICKS);
        let mut bus = bus_of(&sine(frames, hz, 1.0));
        effect.process(&context(frames), &mut bus, &Events::empty());

        // A whole number of cycles at the end of the render.
        let period = SR as f32 / hz;
        let span = ((frames as f32 / 2.0 / period).floor() * period).round() as usize;
        let out = left(&bus);
        let tail = &out[frames - span..frames];
        let rms = (tail.iter().map(|s| s * s).sum::<f32>() / tail.len() as f32).sqrt();
        let measured = 20.0 * (rms * core::f32::consts::SQRT_2).log10();

        assert!(
            (drawn - measured).abs() < 0.1,
            "at {hz} Hz the plot draws {drawn} dB and the bank does {measured} dB"
        );
    }
}

#[test]
fn a_bank_with_nothing_on_draws_a_flat_line() {
    for value in eq_response_db(&all_off(), 48_000, 64) {
        assert!(value.0.abs() < 1e-4, "an empty bank drew {} dB", value.0);
    }
}

#[test]
fn eq_boosts_the_selected_peak_frequency() {
    const BAND: usize = 3;
    let tone_hz = BAND_HZ[BAND];
    let mut params = all_off();
    params.bands[BAND].enabled = true;
    params.bands[BAND].gain_db = F(12.0);
    let mut effect = EqEffect::new(params, SR, MAX_TICKS);
    let frames = SR as usize / 2;
    let mut bus = bus_of(&sine(frames, tone_hz, 1.0));
    effect.process(&context(frames), &mut bus, &Events::empty());
    let out = left(&bus);
    let rms =
        (out[frames / 2..].iter().map(|s| s * s).sum::<f32>() / (frames / 2) as f32).sqrt();
    assert!(rms > 1.1, "boosted sine RMS {rms}");
}

#[test]
fn a_parameter_has_one_place() {
    for id in 0..EQ_DESCRIPTOR_COUNT {
        match (eq_band_of(id), eq_pass_of(id)) {
            (Some((band, field)), None) => assert_eq!(eq_band_param(band, field), id),
            (None, Some((pass, field))) => assert_eq!(eq_pass_param(pass, field), id),
            other => panic!("{id}: {other:?}"),
        }
    }
    assert_eq!(eq_band_of(EQ_DESCRIPTOR_COUNT), None);
    assert_eq!(eq_pass_of(EQ_DESCRIPTOR_COUNT), None);
    let mut params = all_off();
    assert!(params.set(eq_pass_param(EQ_HIGH_PASS, EQ_PASS_FREQ), F(90.0)));
    assert_eq!(params.high_pass.frequency_hz, F(90.0));
    assert!(!params.set(EQ_DESCRIPTOR_COUNT, F(1.0)));
}

#[test]
fn an_eq_is_at_rest_when_its_stages_are() {
    let mut effect = EqEffect::new(all_on(), SR, MAX_TICKS);
    assert!(effect.is_at_rest(F(1.0e-6)));
    effect.process(&context(8), &mut signal(8), &Events::empty());
    assert!(!effect.is_at_rest(F(1.0e-6)));
}

#[test]
fn a_designed_bank_is_flat_where_nothing_is_in() {
    let mut bank = [Biquad::identity(); STAGES];
    bank[0].pass(F(1_000.0), F(0.707), true, SR);
    let live = design_eq_bank(&all_off(), SR, &mut bank);
    assert_eq!(live, [false; STAGES]);
    assert!(bank.iter().all(|stage| stage.b0 == F(1.0) && stage.a1 == F(0.0)));
    let live = design_eq_bank(&all_on(), SR, &mut bank);
    assert_eq!(live, [true; STAGES]);
}
