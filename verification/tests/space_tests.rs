use std::sync::atomic::{AtomicUsize, Ordering};

use mooloop_dsp::bus::StereoBus;
use mooloop_dsp::curves::Curves;
use mooloop_dsp::delay::{
    DelayEffect, DelayMode, DelayParams, DelayTimeDivision, DELAY_PARAM_FEEDBACK,
    DELAY_PARAM_MIX, DELAY_PARAM_TIME_MS,
};
use mooloop_dsp::event::{Event, EventList, TimedEvent};
use mooloop_dsp::filter::OnePoleLp;
use mooloop_dsp::hall::{hadamard, Line, LINES};
use mooloop_dsp::node::{Discontinuity, ProcessContext};
use mooloop_dsp::num::{Fixed, Sample};
use mooloop_dsp::plate::{
    comb_tuning, predelay_samples, Comb, PlateEffect, PlateParams, SchroederAllpass,
    PLATE_PARAM_PREDELAY_MS, PLATE_PARAM_SIZE,
};
use mooloop_dsp::reverb::{
    ReverbEffect, ReverbParams, REVERB_PARAM_DAMPING, REVERB_PARAM_DECAY_S,
    REVERB_PARAM_DIFFUSION, REVERB_PARAM_LOW_CUT_HZ, REVERB_PARAM_MODULATION,
    REVERB_PARAM_PREDELAY_MS, REVERB_PARAM_SIZE, REVERB_PARAM_WIDTH,
};
use mooloop_dsp::ring::Diffuser;
use mooloop_dsp::smooth::Smoothed;
use mooloop_dsp::split::RangeProcessor;

/// Powers taken so far: retuning the reverb takes some.
static POWERS: AtomicUsize = AtomicUsize::new(0);

#[derive(Clone, Copy, Debug, PartialEq, PartialOrd)]
struct F(f32);

impl Sample for F {
    fn add(self, other: Self) -> Self {
        F(self.0 + other.0)
    }
    fn sub(self, other: Self) -> Self {
        F(self.0 - other.0)
    }
    fn mul(self, other: Self) -> Self {
        F(self.0 * other.0)
    }
    fn div(self, other: Self) -> Self {
        F(self.0 / other.0)
    }
    fn neg(self) -> Self {
        F(-self.0)
    }
    fn abs(self) -> Self {
        F(self.0.abs())
    }
    fn of(count: usize) -> Self {
        F(count as f32)
    }
    fn whole(self) -> usize {
        self.0 as usize
    }
    fn round(self) -> Self {
        F(self.0.round())
    }
    fn ceil(self) -> Self {
        F(self.0.ceil())
    }
    fn lt(self, other: Self) -> bool {
        self.0 < other.0
    }
    fn le(self, other: Self) -> bool {
        self.0 <= other.0
    }
    fn equals(self, other: Self) -> bool {
        self.0 == other.0
    }
    fn same(self, other: Self) -> bool {
        self.0.to_bits() == other.0.to_bits()
    }
    fn is_finite(self) -> bool {
        self.0.is_finite()
    }
}

impl Curves for F {
    fn pi() -> Self {
        F(core::f32::consts::PI)
    }
    fn sqrt(self) -> Self {
        F(self.0.sqrt())
    }
    fn sin(self) -> Self {
        F(self.0.sin())
    }
    fn cos(self) -> Self {
        F(self.0.cos())
    }
    fn tan(self) -> Self {
        F(self.0.tan())
    }
    fn tanh(self) -> Self {
        F(self.0.tanh())
    }
    fn exp(self) -> Self {
        F(self.0.exp())
    }
    fn exp2(self) -> Self {
        F(self.0.exp2())
    }
    fn ln(self) -> Self {
        F(self.0.ln())
    }
    fn log2(self) -> Self {
        F(self.0.log2())
    }
    fn log10(self) -> Self {
        F(self.0.log10())
    }
    fn powf(self, exponent: Self) -> Self {
        POWERS.fetch_add(1, Ordering::SeqCst);
        F(self.0.powf(exponent.0))
    }
}

type Events = EventList<F, ()>;

fn context(frames: usize) -> ProcessContext {
    ProcessContext { sample_rate: 48_000, frames }
}

/// A bus with the same samples on both sides.
fn bus_of(samples: &[f32]) -> StereoBus<F> {
    let mut bus = StereoBus::with_capacity(samples.len());
    for (i, &x) in samples.iter().enumerate() {
        bus.l[i] = F(x);
        bus.r[i] = F(x);
    }
    bus
}

fn left(bus: &StereoBus<F>) -> Vec<f32> {
    bus.l.iter().map(|x| x.0).collect()
}

fn right(bus: &StereoBus<F>) -> Vec<f32> {
    bus.r.iter().map(|x| x.0).collect()
}

/// One parameter event, at an offset.
fn param_at(offset: usize, id: u32, value: f32) -> Events {
    let mut events = EventList::empty();
    assert!(events.push(TimedEvent {
        offset: offset as u32,
        event: Event::ParamValue { id, value: F(value) },
    }));
    events
}

fn sine(frames: usize, freq: f32, amplitude: f32) -> Vec<f32> {
    (0..frames)
        .map(|i| (i as f32 / 48_000.0 * freq * core::f32::consts::TAU).sin() * amplitude)
        .collect()
}

const SR: u32 = 48_000;

fn rms(samples: &[f32]) -> f32 {
    (samples.iter().map(|s| s * s).sum::<f32>() / samples.len() as f32).sqrt()
}

fn peak(samples: &[f32]) -> f32 {
    samples.iter().fold(0.0_f32, |worst, x| worst.max(x.abs()))
}

fn max_step(samples: &[f32]) -> f32 {
    samples.windows(2).map(|w| (w[1] - w[0]).abs()).fold(0.0, f32::max)
}

/// An impulse at frame 0, silence after.
fn impulse_bus(frames: usize) -> StereoBus<F> {
    let mut input = vec![0.0; frames];
    input[0] = 1.0;
    bus_of(&input)
}

/// The longest time the delays here can be set to.
const MAX_TIME_MS: f32 = 2_000.0;

fn plain_delay() -> DelayParams<F> {
    DelayParams {
        time_ms: F(350.0),
        tempo_sync: false,
        time_division: DelayTimeDivision::quarter(),
        feedback: F(0.35),
        mode: DelayMode::Digital,
        cross: F(0.0),
        tone: F(0.7),
        mix: F(0.35),
    }
}

fn delay(params: DelayParams<F>) -> DelayEffect<F> {
    DelayEffect::new(params, SR, F(MAX_TIME_MS))
}

fn delayed(params: DelayParams<F>, mut bus: StereoBus<F>, events: &Events) -> StereoBus<F> {
    let frames = bus.capacity();
    delay(params).process(&context(frames), &mut bus, events);
    bus
}

fn peak_near(samples: &[f32], center: usize) -> f32 {
    peak(&samples[center.saturating_sub(8)..(center + 8).min(samples.len())])
}

#[test]
fn an_impulse_reappears_after_the_delay_time() {
    let frames = 8_192;
    let time_ms = 100.0;
    let bus = delayed(
        DelayParams {
            time_ms: F(time_ms),
            feedback: F(0.0),
            mix: F(1.0),
            tone: F(1.0),
            ..plain_delay()
        },
        impulse_bus(frames),
        &EventList::empty(),
    );
    let out = left(&bus);
    let expected = (time_ms / 1_000.0 * SR as f32) as usize;
    let peak_at = (0..frames)
        .max_by(|a, b| out[*a].abs().partial_cmp(&out[*b].abs()).unwrap())
        .unwrap();
    assert!(
        (peak_at as i64 - expected as i64).abs() <= 4,
        "echo landed at {peak_at}, expected about {expected}"
    );
}

#[test]
fn beat_divisions_resolve_to_transport_time() {
    let ms = |division: DelayTimeDivision, bpm: f32| division.time_ms(F(bpm)).0;
    assert!((ms(DelayTimeDivision::quarter(), 120.0) - 500.0).abs() < f32::EPSILON);
    assert!((ms(DelayTimeDivision::dotted_eighth(), 120.0) - 375.0).abs() < f32::EPSILON);
    assert!((ms(DelayTimeDivision::eighth_triplet(), 120.0) - (1_000.0 / 6.0)).abs() < 0.001);
    assert!((ms(DelayTimeDivision::quarter(), 90.0) - (2_000.0 / 3.0)).abs() < 0.001);
}

#[test]
fn feedback_produces_successive_decaying_repeats() {
    let frames = 16_384;
    let time_ms = 50.0;
    let bus = delayed(
        DelayParams {
            time_ms: F(time_ms),
            feedback: F(0.7),
            mix: F(1.0),
            tone: F(1.0),
            cross: F(0.0),
            ..plain_delay()
        },
        impulse_bus(frames),
        &EventList::empty(),
    );
    let out = left(&bus);
    let spacing = (time_ms / 1_000.0 * SR as f32) as usize;
    let first = peak_near(&out, spacing);
    let second = peak_near(&out, spacing * 2);
    let third = peak_near(&out, spacing * 3);

    assert!(first > 0.5, "first repeat too quiet: {first}");
    assert!(
        second < first && second > first * 0.4,
        "second repeat {second} should decay from {first}, not vanish"
    );
    assert!(
        third < second && third > 0.05,
        "third repeat {third} should follow {second}"
    );
}

#[test]
fn delay_zero_mix_leaves_the_signal_alone() {
    let reference = sine(4_096, 220.0, 0.5);
    let bus = delayed(
        DelayParams { time_ms: F(30.0), feedback: F(0.8), mix: F(0.0), ..plain_delay() },
        bus_of(&reference),
        &EventList::empty(),
    );
    for (i, (x, expected)) in left(&bus).iter().zip(&reference).enumerate() {
        assert!((x - expected).abs() < 1e-6, "dry path altered at {i}");
    }
}

#[test]
fn cross_feedback_moves_repeats_to_the_other_channel() {
    let frames = 16_384;
    let time_ms = 40.0;
    // Impulse on the left only.
    let mut input = impulse_bus(frames);
    input.r[0] = F(0.0);
    let bus = delayed(
        DelayParams {
            time_ms: F(time_ms),
            feedback: F(0.7),
            cross: F(1.0),
            mix: F(1.0),
            tone: F(1.0),
            ..plain_delay()
        },
        input,
        &EventList::empty(),
    );
    let spacing = (time_ms / 1_000.0 * SR as f32) as usize;
    // The second repeat, having gone through the crossed feedback path,
    // arrives on the right.
    let second_left = peak_near(&left(&bus), spacing * 2);
    let second_right = peak_near(&right(&bus), spacing * 2);
    assert!(
        second_right > second_left * 4.0,
        "ping-pong did not cross: left {second_left}, right {second_right}"
    );
}

#[test]
fn tone_darkens_the_repeats() {
    let frames = 16_384;
    let run = |tone: f32| {
        let bus = delayed(
            DelayParams {
                time_ms: F(40.0),
                feedback: F(0.8),
                tone: F(tone),
                mix: F(1.0),
                ..plain_delay()
            },
            impulse_bus(frames),
            &EventList::empty(),
        );
        // Late repeats have been through the damping several times.
        rms(&left(&bus)[frames / 2..])
    };
    let dark = run(0.0);
    let bright = run(1.0);
    assert!(
        bright > dark * 2.0,
        "damping had little effect: dark {dark}, bright {bright}"
    );
}

#[test]
fn changing_time_mid_block_does_not_click() {
    let frames = 32_768;
    let bus = delayed(
        DelayParams {
            time_ms: F(200.0),
            feedback: F(0.4),
            mix: F(1.0),
            tone: F(1.0),
            ..plain_delay()
        },
        bus_of(&sine(frames, 330.0, 0.4)),
        &param_at(frames / 2, DELAY_PARAM_TIME_MS, 60.0),
    );
    let max_step = max_step(&left(&bus));
    assert!(max_step < 0.2, "time change left a discontinuity of {max_step}");
}

#[test]
fn feedback_change_mid_block_does_not_click() {
    let frames = 32_768;
    let bus = delayed(
        DelayParams {
            time_ms: F(20.0),
            feedback: F(0.0),
            mix: F(1.0),
            tone: F(1.0),
            ..plain_delay()
        },
        bus_of(&sine(frames, 330.0, 0.4)),
        &param_at(frames / 2, DELAY_PARAM_FEEDBACK, 0.9),
    );
    let max_step = max_step(&left(&bus));
    assert!(max_step < 0.2, "feedback change left a discontinuity of {max_step}");
}

#[test]
fn every_mode_decays_on_silence_at_maximum_feedback() {
    for mode in [DelayMode::Digital, DelayMode::Tape, DelayMode::Reverse] {
        let frames = 8_192;
        let mut effect = delay(DelayParams {
            time_ms: F(120.0),
            feedback: F(0.98),
            mode,
            cross: F(0.5),
            tone: F(1.0),
            mix: F(1.0),
            ..plain_delay()
        });
        let mut bus = impulse_bus(frames);
        effect.process(&context(frames), &mut bus, &Events::empty());
        let early = peak(&left(&bus));

        let mut late = 0.0f32;
        for _ in 0..24 {
            let mut silence = StereoBus::with_capacity(frames);
            effect.process(&context(frames), &mut silence, &Events::empty());
            let out = left(&silence);
            late = peak(&out);
            for (i, x) in out.iter().enumerate() {
                assert!(x.is_finite() && x.abs() < 10.0, "{mode:?} produced {x} at {i}");
            }
        }
        assert!(late < early, "{mode:?} did not decay: started {early}, ended {late}");
    }
}

#[test]
fn reverse_mode_reads_backwards() {
    // A rising ramp read backwards must fall within each window. The head
    // retreats two frames per frame, so it traverses a window in half of its
    // frames.
    let frames = 32_768;
    let ramp: Vec<f32> = (0..frames).map(|i| i as f32 / frames as f32).collect();
    let time_ms = 100.0;
    let bus = delayed(
        DelayParams {
            time_ms: F(time_ms),
            feedback: F(0.0),
            mode: DelayMode::Reverse,
            mix: F(1.0),
            tone: F(1.0),
            cross: F(0.0),
            ..plain_delay()
        },
        bus_of(&ramp),
        &EventList::empty(),
    );
    let out = left(&bus);
    let window = (time_ms / 1_000.0 * SR as f32) as usize;
    let cycle = window / 2;
    // Start a few cycles in, so the ring holds real history.
    let start = cycle * 5;
    let local_mean =
        |center: usize| out[center - 64..center + 64].iter().sum::<f32>() / 128.0;
    // Both points sit inside one cycle and clear of the wrap crossfade.
    let early = local_mean(start + cycle / 4);
    let late = local_mean(start + 3 * cycle / 4);
    assert!(
        late < early,
        "reverse output should fall as the input rises: early {early}, late {late}"
    );
}

#[test]
fn delay_param_events_take_effect_mid_block() {
    let frames = 8_192;
    let bus = delayed(
        DelayParams {
            time_ms: F(40.0),
            feedback: F(0.0),
            mix: F(0.0),
            tone: F(1.0),
            ..plain_delay()
        },
        impulse_bus(frames),
        &param_at(100, DELAY_PARAM_MIX, 1.0),
    );
    // With mix raised before the echo returns, the repeat is audible.
    let spacing = (40.0 / 1_000.0 * SR as f32) as usize;
    let echo = peak_near(&left(&bus), spacing);
    assert!(echo > 0.5, "mix change did not take: echo peak {echo}");
}

#[test]
fn a_seek_empties_a_delay_and_a_fold_does_not() {
    for (kind, heard) in [(Discontinuity::LoopFold, true), (Discontinuity::Seek, false)] {
        let mut effect = delay(DelayParams { time_ms: F(20.0), mix: F(1.0), ..plain_delay() });
        effect.process(&context(256), &mut impulse_bus(256), &Events::empty());
        effect.on_discontinuity(kind);
        let mut after = StereoBus::with_capacity(2_048);
        effect.process(&context(2_048), &mut after, &Events::empty());
        assert_eq!(peak(&left(&after)) > 1e-3, heard, "{kind:?}");
    }
}

#[test]
fn a_delays_tail_covers_its_repeats() {
    let mut effect = delay(DelayParams { time_ms: F(20.0), feedback: F(0.5), ..plain_delay() });
    let tail = effect.tail_frames() as usize;
    assert!(tail > 960 * 2, "{tail}");
    effect.process(&context(256), &mut impulse_bus(256), &Events::empty());
    let mut after = StereoBus::with_capacity(tail + 512);
    effect.process(&context(tail + 512), &mut after, &Events::empty());
    assert!(peak(&left(&after)[tail..]) <= 1.0e-7);
}

fn plain_plate() -> PlateParams<F> {
    PlateParams {
        size: F(0.5),
        decay_s: F(2.0),
        damping: F(0.4),
        width: F(1.0),
        predelay_ms: F(0.0),
    }
}

fn plate_response(params: PlateParams<F>, frames: usize) -> StereoBus<F> {
    let mut bus = impulse_bus(frames);
    PlateEffect::new(params, SR).process(&context(frames), &mut bus, &Events::empty());
    bus
}

fn energy(bus: &StereoBus<F>, range: std::ops::Range<usize>) -> f32 {
    bus.l[range.clone()].iter().chain(bus.r[range].iter()).map(|x| x.0 * x.0).sum()
}

#[test]
fn plate_impulse_produces_a_tail_that_outlasts_the_input() {
    let bus = plate_response(plain_plate(), 20_000);
    assert!(
        energy(&bus, 10_000..15_000) > 1e-8,
        "the tail should still be audible well after the single-sample impulse"
    );
}

/// Sustained material comes out of the plate within a few decibels of the level
/// it went in at.
#[test]
fn a_plate_is_level_matched_on_sustained_material() {
    let frames = 144_000;
    let mut bus = StereoBus::with_capacity(frames);
    let mut seed = 77;
    let mut low = 0.0;
    for i in 0..frames {
        low += 0.1 * (noise(&mut seed) - low);
        bus.l[i] = F(low);
        bus.r[i] = F(low);
    }
    let before = energy(&bus, 96_000..frames);
    PlateEffect::new(plain_plate(), SR).process(&context(frames), &mut bus, &Events::empty());
    let gain_db = 10.0 * (energy(&bus, 96_000..frames) / before).log10();
    assert!(gain_db.abs() < 4.0, "the plate runs at {gain_db:+.2} dB");
}

#[test]
fn plate_decay_tail_shrinks_over_time() {
    let bus = plate_response(plain_plate(), 45_000);
    let early = energy(&bus, 2_000..5_000);
    let late = energy(&bus, 40_000..43_000);
    assert!(early > late, "early {early} should exceed late {late}");
    assert!(late > 1e-9, "the tail should not have gone fully silent");
}

#[test]
fn higher_decay_param_retains_more_energy_at_a_fixed_offset() {
    let run = |decay_s: f32| {
        let bus = plate_response(PlateParams { decay_s: F(decay_s), ..plain_plate() }, 22_000);
        energy(&bus, 20_000..21_000)
    };
    let short_energy = run(0.5);
    let long_energy = run(5.0);
    assert!(
        long_energy > short_energy,
        "decay_s=5.0 ({long_energy}) should retain more energy than decay_s=0.5 \
         ({short_energy}) at the same late offset"
    );
}

#[test]
fn predelay_moves_the_wet_onset_by_the_requested_frames() {
    const PREDELAY_MS: f32 = 50.0;
    const FRAMES: usize = 16_000;
    let reference = plate_response(plain_plate(), FRAMES);
    let delayed =
        plate_response(PlateParams { predelay_ms: F(PREDELAY_MS), ..plain_plate() }, FRAMES);
    let frames = predelay_samples(F(PREDELAY_MS), SR).0 as usize;

    assert!(
        delayed.l[..frames].iter().chain(&delayed.r[..frames]).all(|sample| sample.0 == 0.0),
        "the wet path must remain silent before pre-delay elapses"
    );
    for i in 0..FRAMES - frames {
        assert_eq!(delayed.l[i + frames], reference.l[i]);
        assert_eq!(delayed.r[i + frames], reference.r[i]);
    }
}

#[test]
fn zero_predelay_bypasses_the_input_history() {
    let mut effect = PlateEffect::new(plain_plate(), SR);
    for _ in 0..effect.predelay.capacity() {
        effect.predelay.write(F(1.0));
    }
    let mut bus = StereoBus::with_capacity(512);
    effect.process(&context(512), &mut bus, &Events::empty());
    assert!(
        bus.l.iter().chain(&bus.r).all(|sample| sample.0 == 0.0),
        "0 ms must take the direct-input path, not read the ring"
    );
}

/// A deterministic noise sample in -1..1.
fn noise(seed: &mut u32) -> f32 {
    *seed = seed.wrapping_mul(1_664_525).wrapping_add(1_013_904_223);
    ((*seed >> 8) as f32 / 8_388_608.0) - 1.0
}

fn opposed_noise(frames: usize) -> StereoBus<F> {
    let mut bus = StereoBus::with_capacity(frames);
    let mut seed = 0x1234_5678u32;
    for i in 0..frames {
        let value = noise(&mut seed);
        bus.l[i] = F(value);
        bus.r[i] = F(-value);
    }
    bus
}

fn assert_bounded(bus: &StereoBus<F>) {
    for sample in bus.l.iter().chain(&bus.r) {
        assert!(sample.0.is_finite(), "output must never be NaN/Inf");
        assert!(sample.0.abs() < 20.0, "output should stay bounded: {}", sample.0);
    }
}

#[test]
fn plate_output_stays_bounded_for_extreme_params() {
    let params = PlateParams { decay_s: F(10.0), damping: F(0.0), ..plain_plate() };
    let frames = 48_000 * 3;
    let mut bus = opposed_noise(frames);
    PlateEffect::new(params, SR).process(&context(frames), &mut bus, &Events::empty());
    assert_bounded(&bus);
}

#[test]
fn size_change_preserves_delay_history() {
    let mut comb = Comb::new(comb_tuning(0), SR);
    comb.set_size(SR, F(0.5));
    comb.set_decay(SR, F(4.0));
    comb.set_damping(SR, F(0.2));
    for frame in 0..4_000 {
        comb.process(F(if frame == 0 { 1.0 } else { 0.0 }), F(1.0));
    }
    let history = |comb: &Comb<F>| -> Vec<f32> {
        (1..comb.ring.capacity()).map(|age| comb.ring.sample(age).0).collect()
    };
    let before = history(&comb);
    assert!(before.iter().any(|&x| x != 0.0));
    comb.set_size(SR, F(1.0));
    assert_eq!(history(&comb), before, "retuning must not clear or move the ring");
}

/// The worst step while one parameter takes a new value every block, as a
/// share of the peak, over a low tone.
fn swept(
    mut render: impl FnMut(&mut StereoBus<F>, &Events),
    id: u32,
    value: impl Fn(usize) -> f32,
) -> (f32, f32) {
    const BLOCK: usize = 256;
    const TONE_HZ: f32 = 80.0;
    let mut phase = 0.0f32;
    let mut tone = || {
        let mut bus = StereoBus::with_capacity(BLOCK);
        for i in 0..BLOCK {
            phase += TONE_HZ / 48_000.0;
            if phase >= 1.0 {
                phase -= 1.0;
            }
            let value = F((phase * core::f32::consts::TAU).sin());
            bus.l[i] = value;
            bus.r[i] = value;
        }
        bus
    };
    // Let the network fill and settle before anything is swept.
    for _ in 0..64 {
        render(&mut tone(), &EventList::empty());
    }
    let mut out = Vec::new();
    for step in 0..64 {
        let mut bus = tone();
        render(&mut bus, &param_at(0, id, value(step)));
        out.extend(left(&bus));
    }
    (max_step(&out), peak(&out))
}

#[test]
fn sweeping_size_does_not_click_or_silence_the_tail() {
    let mut effect = PlateEffect::new(plain_plate(), SR);
    let (worst_step, peak) = swept(
        |bus, events| effect.process(&context(256), bus, events),
        PLATE_PARAM_SIZE,
        |step| step as f32 / 63.0,
    );
    assert!(peak > 1e-4, "the tone should have excited the network");
    assert!(
        worst_step < peak * 0.1,
        "a size sweep stepped the output by {worst_step}, {:.1}% of the peak",
        100.0 * worst_step / peak,
    );
}

#[test]
fn sweeping_predelay_does_not_click_or_silence_the_tail() {
    let mut effect = PlateEffect::new(plain_plate(), SR);
    let (worst_step, peak) = swept(
        |bus, events| effect.process(&context(256), bus, events),
        PLATE_PARAM_PREDELAY_MS,
        |step| if step % 2 == 0 { 200.0 } else { 0.0 },
    );
    assert!(peak > 1e-4, "the tone should have excited the network");
    assert!(
        worst_step < peak * 0.1,
        "a pre-delay sweep stepped the output by {worst_step}, {:.1}% of the peak",
        100.0 * worst_step / peak,
    );
}

fn plain_reverb() -> ReverbParams<F> {
    ReverbParams {
        size: F(0.5),
        decay_s: F(2.4),
        damping: F(0.38),
        predelay_ms: F(12.0),
        diffusion: F(0.72),
        width: F(1.0),
        modulation: F(0.3),
        low_cut_hz: F(42.0),
    }
}

/// How often each dependency was rebuilt.
#[derive(Clone, Copy, Debug, PartialEq)]
struct Rebuilds {
    size: u32,
    feedback: u32,
    damping: u32,
    modulation: u32,
}

/// A value that no rebuild gives.
const UNTOUCHED: F = F(-12_345.0);

/// Resolve, and say which dependencies were rebuilt: one whose lines keep a
/// value of no rebuild was not. The powers taken, one for the size and one for
/// each line's feedback gain, say that none of those was twice.
fn resolved(effect: &mut ReverbEffect<F>) -> Rebuilds {
    for line in &mut effect.lines {
        line.target_len = UNTOUCHED;
        line.feedback = UNTOUCHED;
        line.damp.coeff = UNTOUCHED;
        line.mod_depth = UNTOUCHED;
    }
    let before = POWERS.load(Ordering::SeqCst);
    effect.resolve_dirty();
    let powers = POWERS.load(Ordering::SeqCst) - before;
    let rebuilt = |value: fn(&Line<F>) -> F| {
        let touched = effect.lines.iter().filter(|line| value(line) != UNTOUCHED).count();
        assert!(touched == 0 || touched == LINES, "{touched} lines of {LINES}");
        (touched / LINES) as u32
    };
    let counts = Rebuilds {
        size: rebuilt(|line| line.target_len),
        feedback: rebuilt(|line| line.feedback),
        damping: rebuilt(|line| line.damp.coeff),
        modulation: rebuilt(|line| line.mod_depth),
    };
    assert_eq!(powers, counts.size as usize + LINES * counts.feedback as usize);
    counts
}

const NOTHING: Rebuilds = Rebuilds { size: 0, feedback: 0, damping: 0, modulation: 0 };

#[test]
fn construction_resolves_every_dependency_exactly_once() {
    let before = POWERS.load(Ordering::SeqCst);
    let mut effect = ReverbEffect::new(ReverbParams { size: F(1.0), ..plain_reverb() }, SR);
    assert_eq!(POWERS.load(Ordering::SeqCst) - before, 1 + LINES);
    for (index, line) in effect.lines.iter().enumerate() {
        assert!(line.feedback.0 > 0.0 && line.feedback.0 < 1.0, "line {index}");
        assert_eq!(line.damp.coeff, F(1.0 - 0.38 * 0.45), "line {index}");
        assert_eq!(line.mod_depth, F(0.45 * 0.001 * 48_000.0 * 0.3), "line {index}");
        let longest = plain_len(LINE_TUNING[index], SR, 2.5) as f32;
        assert_eq!(line.target_len, F(longest), "line {index}");
    }
    assert_eq!(resolved(&mut effect), NOTHING);
}

#[test]
fn apply_param_alone_defers_the_rebuild() {
    let mut effect = ReverbEffect::new(plain_reverb(), SR);
    let depth = effect.lines[0].mod_depth;
    effect.apply_param(REVERB_PARAM_MODULATION, F(0.5));
    assert!(effect.lines.iter().all(|line| line.mod_depth == depth));
    assert!(effect.modulation_dirty);
    assert!(!effect.size_dirty && !effect.feedback_dirty && !effect.damping_dirty);
    assert_eq!(resolved(&mut effect), Rebuilds { modulation: 1, ..NOTHING });
}

#[test]
fn changing_damping_alone_does_not_rebuild_the_others() {
    let mut effect = ReverbEffect::new(plain_reverb(), SR);
    effect.apply_param(REVERB_PARAM_DAMPING, F(0.8));
    assert_eq!(resolved(&mut effect), Rebuilds { damping: 1, ..NOTHING });
    assert_eq!(effect.lines[3].damp.coeff, F(1.0 - 0.8 * 0.45));
    assert_eq!(resolved(&mut effect), NOTHING);
}

#[test]
fn changing_modulation_alone_does_not_rebuild_the_others() {
    let mut effect = ReverbEffect::new(plain_reverb(), SR);
    effect.apply_param(REVERB_PARAM_MODULATION, F(0.6));
    assert_eq!(resolved(&mut effect), Rebuilds { modulation: 1, ..NOTHING });
    assert_eq!(effect.lines[3].mod_depth, F(0.45 * 0.001 * 48_000.0 * 0.6));
    assert_eq!(resolved(&mut effect), NOTHING);
}

#[test]
fn size_and_decay_changing_at_one_tick_rebuild_feedback_only_once() {
    let mut effect = ReverbEffect::new(plain_reverb(), SR);
    effect.apply_param(REVERB_PARAM_SIZE, F(0.7));
    effect.apply_param(REVERB_PARAM_DECAY_S, F(6.0));
    assert_eq!(
        resolved(&mut effect),
        Rebuilds { size: 1, feedback: 1, ..NOTHING },
        "size and decay changing at the same tick should cost one feedback rebuild, not two"
    );
}

#[test]
fn smoother_only_params_never_touch_the_dirty_flagged_dependencies() {
    let mut effect = ReverbEffect::new(plain_reverb(), SR);
    effect.apply_param(REVERB_PARAM_PREDELAY_MS, F(40.0));
    effect.apply_param(REVERB_PARAM_DIFFUSION, F(0.3));
    effect.apply_param(REVERB_PARAM_WIDTH, F(0.9));
    effect.apply_param(REVERB_PARAM_LOW_CUT_HZ, F(200.0));
    assert_eq!(resolved(&mut effect), NOTHING);
}

fn reverb_response(params: ReverbParams<F>, frames: usize) -> StereoBus<F> {
    let mut bus = impulse_bus(frames);
    ReverbEffect::new(params, SR).process(&context(frames), &mut bus, &Events::empty());
    bus
}

#[test]
fn hadamard_is_orthonormal() {
    // The decay times depend on this: if the matrix changed the norm, the
    // per-line feedback gains would no longer set RT60 on their own.
    let mut values = [0.3, -1.2, 0.7, 0.1, -0.4, 0.9, -0.6, 0.2].map(F);
    let before: f32 = values.iter().map(|v| v.0 * v.0).sum();
    hadamard(&mut values);
    let after: f32 = values.iter().map(|v| v.0 * v.0).sum();
    assert!((before - after).abs() < 1e-4, "norm moved from {before} to {after}");
}

#[test]
fn reverb_impulse_produces_a_tail_that_outlasts_the_input() {
    let bus = reverb_response(plain_reverb(), 40_000);
    assert!(
        energy(&bus, 20_000..30_000) > 1e-8,
        "the tail should still be audible well after the impulse"
    );
}

#[test]
fn reverb_decay_tail_shrinks_over_time() {
    let bus = reverb_response(plain_reverb(), 96_000);
    let early = energy(&bus, 5_000..10_000);
    let late = energy(&bus, 85_000..90_000);
    assert!(early > late, "early {early} should exceed late {late}");
    assert!(late > 1e-11, "the tail should not have gone fully silent");
}

#[test]
fn longer_decay_retains_more_energy_at_a_fixed_offset() {
    let run = |decay_s: f32| {
        let bus = reverb_response(ReverbParams { decay_s: F(decay_s), ..plain_reverb() }, 96_000);
        energy(&bus, 80_000..90_000)
    };
    let short_energy = run(0.5);
    let long_energy = run(8.0);
    assert!(
        long_energy > short_energy * 100.0,
        "decay_s=8 ({long_energy}) should far outlast decay_s=0.5 ({short_energy})"
    );
}

#[test]
fn the_late_tail_is_a_continuous_wash_not_a_flutter() {
    let bus = reverb_response(plain_reverb(), 96_000);
    const FRAME: usize = 512;
    let mut frame_rms = Vec::new();
    let mut start = 24_000;
    while start + FRAME <= 72_000 {
        let e = energy(&bus, start..start + FRAME);
        frame_rms.push((e / (2 * FRAME) as f32).sqrt());
        start += FRAME;
    }
    let mean = frame_rms.iter().sum::<f32>() / frame_rms.len() as f32;
    assert!(mean > 1e-6, "the tail was silent, so this proves nothing");
    let worst_jump = max_step(&frame_rms);
    assert!(
        worst_jump < mean * 0.5,
        "adjacent tail frames jumped by {worst_jump} against a mean of {mean} \
         ({:.0}%); the tail is fluttering rather than washing",
        100.0 * worst_jump / mean
    );
}

#[test]
fn predelay_holds_off_the_onset() {
    let bus = reverb_response(ReverbParams { predelay_ms: F(50.0), ..plain_reverb() }, 48_000);
    let silent = (50.0e-3 * 48_000.0) as usize;
    assert!(
        energy(&bus, 0..silent - 100) < 1e-12,
        "wet output should be silent through the pre-delay"
    );
    assert!(
        energy(&bus, silent..silent + 4_000) > 1e-9,
        "the tail should arrive once the pre-delay elapses"
    );
}

#[test]
fn damping_darkens_the_tail() {
    let brightness = |damping: f32| {
        let bus = reverb_response(ReverbParams { damping: F(damping), ..plain_reverb() }, 48_000);
        let out = left(&bus);
        // The sample-to-sample delta carries the top of the band.
        let mut high = 0.0f32;
        let mut total = 0.0f32;
        for i in 20_000..40_000 {
            let delta = out[i] - out[i - 1];
            high += delta * delta;
            total += out[i] * out[i];
        }
        high / total.max(1e-20)
    };
    let open = brightness(0.0);
    let dark = brightness(1.0);
    assert!(
        dark < open * 0.5,
        "damping 1.0 ({dark}) should be far darker than 0.0 ({open})"
    );
}

#[test]
fn low_cut_removes_bass_from_the_tail() {
    let band_energy = |low_cut_hz: f32| {
        let bus =
            reverb_response(ReverbParams { low_cut_hz: F(low_cut_hz), ..plain_reverb() }, 48_000);
        let out = left(&bus);
        // A running sum over 64 samples is a crude lowpass; what survives it
        // is the bottom of the band.
        let mut low = 0.0f64;
        let mut total = 0.0f64;
        let mut accumulator = 0.0f32;
        for i in 10_000..40_000 {
            accumulator += out[i] - out[i - 64];
            low += (accumulator as f64) * (accumulator as f64);
            total += (out[i] as f64) * (out[i] as f64);
        }
        (low, total)
    };
    let (open_low, open_total) = band_energy(20.0);
    let (cut_low, cut_total) = band_energy(500.0);
    assert!(
        cut_low / open_low < 0.5,
        "a 500 Hz low cut should strip the tail's bass: {cut_low} vs {open_low}"
    );
    assert!(
        cut_total > open_total * 0.2,
        "it should not gut the whole tail: {cut_total} vs {open_total}"
    );
}

#[test]
fn width_zero_collapses_the_tail_to_mono() {
    let bus = reverb_response(ReverbParams { width: F(0.0), ..plain_reverb() }, 24_000);
    for i in 0..24_000 {
        assert!(
            (bus.l[i].0 - bus.r[i].0).abs() < 1e-6,
            "frame {i}: width 0 should leave the channels identical"
        );
    }
}

#[test]
fn full_width_decorrelates_the_channels() {
    let bus = reverb_response(plain_reverb(), 48_000);
    let mut dot = 0.0f64;
    let mut left = 0.0f64;
    let mut right = 0.0f64;
    for i in 10_000..40_000 {
        let (l, r) = (bus.l[i].0 as f64, bus.r[i].0 as f64);
        dot += l * r;
        left += l * l;
        right += r * r;
    }
    let correlation = dot / (left * right).sqrt().max(1e-20);
    assert!(
        correlation.abs() < 0.4,
        "the two output taps should be largely decorrelated, got {correlation}"
    );
}

#[test]
fn a_param_event_changes_the_tail_within_the_block() {
    let render = |events: &Events| {
        let mut bus = impulse_bus(48_000);
        ReverbEffect::new(plain_reverb(), SR).process(&context(48_000), &mut bus, events);
        energy(&bus, 40_000..48_000)
    };
    let unchanged = render(&EventList::empty());
    let shortened = render(&param_at(1_000, REVERB_PARAM_DECAY_S, 0.3));
    assert!(
        shortened < unchanged * 0.5,
        "a decay event should shorten the tail in the same block: {shortened} vs {unchanged}"
    );
}

#[test]
fn reverb_output_stays_bounded_for_extreme_params() {
    let params = ReverbParams {
        decay_s: F(20.0),
        size: F(1.0),
        damping: F(0.0),
        diffusion: F(1.0),
        modulation: F(1.0),
        ..plain_reverb()
    };
    let frames = 48_000 * 4;
    let mut bus = opposed_noise(frames);
    ReverbEffect::new(params, SR).process(&context(frames), &mut bus, &Events::empty());
    assert_bounded(&bus);
}

#[test]
fn sweeping_size_does_not_click() {
    let mut effect = ReverbEffect::new(plain_reverb(), SR);
    let (worst_step, peak) = swept(
        |bus, events| effect.process(&context(256), bus, events),
        REVERB_PARAM_SIZE,
        |step| step as f32 / 63.0,
    );
    assert!(peak > 1e-4, "the tone should have excited the network");
    assert!(
        worst_step < peak * 0.1,
        "a size sweep stepped the output by {worst_step}, {:.1}% of the {peak} peak",
        100.0 * worst_step / peak,
    );
}

fn song_reverbs() -> Vec<(&'static str, ReverbParams<F>)> {
    let params = |size, decay_s, damping, predelay_ms, diffusion, modulation, low_cut_hz| {
        ReverbParams {
            size: F(size),
            decay_s: F(decay_s),
            damping: F(damping),
            predelay_ms: F(predelay_ms),
            diffusion: F(diffusion),
            width: F(1.0),
            modulation: F(modulation),
            low_cut_hz: F(low_cut_hz),
        }
    };
    vec![
        ("housey", params(0.7996, 2.3905, 0.38, 12.0, 0.72, 0.3, 116.22)),
        ("ok-then a", params(0.7958, 0.3163, 0.0, 1.0, 1.0, 0.4482, 230.94)),
        ("ok-then b", params(0.5645, 3.5524, 0.38, 12.0, 0.72, 0.0504, 42.0)),
        ("deep", params(0.8455, 1.0337, 0.5974, 4.0859, 0.72, 0.3646, 42.0)),
        ("sad_house", params(0.059, 2.7889, 1.0, 1.104, 1.0, 0.2727, 42.0)),
    ]
}

/// A plain ring, written out.
struct PlainRing {
    buffer: Vec<f32>,
    write: usize,
}

impl PlainRing {
    fn new(frames: usize) -> Self {
        PlainRing { buffer: vec![0.0; frames.max(4)], write: 0 }
    }

    fn write(&mut self, value: f32) {
        self.buffer[self.write] = value;
        self.write = (self.write + 1) % self.buffer.len();
    }

    fn read(&self, delay: f32) -> f32 {
        let capacity = self.buffer.len();
        let delay = delay.clamp(1.0, capacity as f32 - 2.0);
        let base = delay.floor();
        let frac = delay - base;
        let index = (self.write + capacity - base as usize) % capacity;
        let previous = if index == 0 { capacity - 1 } else { index - 1 };
        self.buffer[index] * (1.0 - frac) + self.buffer[previous] * frac
    }
}

struct PlainDiffuser {
    ring: PlainRing,
    len: f32,
    target_len: f32,
}

fn plain_len(base: usize, sample_rate: u32, multiplier: f32) -> usize {
    ((base as f32 * multiplier * sample_rate as f32 / 48_000.0).round() as usize).max(1)
}

impl PlainDiffuser {
    fn new(base: usize, sample_rate: u32) -> Self {
        let capacity = plain_len(base, sample_rate, 2.5) + 4;
        let len = capacity as f32 - 4.0;
        PlainDiffuser { ring: PlainRing::new(capacity), len, target_len: len }
    }

    fn set_len(&mut self, len: f32) {
        self.target_len = len.clamp(1.0, self.ring.buffer.len() as f32 - 2.0);
    }

    fn glide(&mut self, glide: f32) {
        self.len += (self.target_len - self.len) * glide;
    }

    fn process(&mut self, input: f32, gain: f32, glide: f32) -> f32 {
        self.glide(glide);
        let delayed = self.ring.read(self.len);
        let stored = input + delayed * gain;
        self.ring.write(stored);
        delayed - stored * gain
    }
}

struct PlainLine {
    ring: PlainRing,
    len: f32,
    target_len: f32,
    phase: f32,
    damp: OnePoleLp<F>,
    feedback: f32,
    loop_ap: PlainDiffuser,
}

const LINE_TUNING: [usize; LINES] = [1013, 1201, 1409, 1601, 1811, 2003, 2213, 2411];

const DIFFUSER_TUNING: [usize; 4] = [229, 331, 557, 719];

const LOOP_TUNING: [usize; LINES] = [127, 179, 241, 293, 359, 421, 479, 541];

const MOD_RATE_HZ: [f32; LINES] = [0.317, 0.457, 0.631, 0.729, 0.853, 0.971, 1.093, 1.217];

const TAP_L: [f32; LINES] = [1.0, 1.0, -1.0, -1.0, 1.0, 1.0, -1.0, -1.0];

const TAP_R: [f32; LINES] = [1.0, -1.0, 1.0, -1.0, -1.0, 1.0, -1.0, 1.0];

const INJECT: [f32; LINES] = [1.0, 1.0, 1.0, 1.0, -1.0, -1.0, -1.0, -1.0];

/// The network written out plainly, every stage for one sample and then the
/// next, with nothing deferred.
struct PlainHall {
    params: ReverbParams<F>,
    sample_rate: u32,
    predelay: PlainRing,
    predelay_samples: Smoothed<F>,
    low_cut: OnePoleLp<F>,
    diffusers: Vec<PlainDiffuser>,
    lines: Vec<PlainLine>,
    diffusion: Smoothed<F>,
    width: Smoothed<F>,
    glide: f32,
}

impl PlainHall {
    fn new(params: ReverbParams<F>, sample_rate: u32) -> Self {
        let rate = sample_rate as f32;
        let mut low_cut = OnePoleLp::new();
        low_cut.set_cutoff(params.low_cut_hz, sample_rate);
        let lines = (0..LINES)
            .map(|i| {
                let depth = 0.45_f32 * 0.001 * rate;
                let capacity = plain_len(LINE_TUNING[i], sample_rate, 2.5) + depth as usize + 8;
                let len = plain_len(LINE_TUNING[i], sample_rate, 1.0) as f32;
                let mut damp = OnePoleLp::new();
                damp.set_coeff(F(1.0));
                PlainLine {
                    ring: PlainRing::new(capacity),
                    len,
                    target_len: len,
                    phase: i as f32 / LINES as f32,
                    damp,
                    feedback: 0.0,
                    loop_ap: PlainDiffuser::new(LOOP_TUNING[i], sample_rate),
                }
            })
            .collect();
        let samples = (0.05_f32 * rate).max(1.0);
        let mut hall = PlainHall {
            params,
            sample_rate,
            predelay: PlainRing::new((0.2 * rate).ceil() as usize + 4),
            predelay_samples: Smoothed::new(
                F((params.predelay_ms.0 * 0.001 * rate).max(1.0)),
                F(0.12),
                sample_rate,
            ),
            low_cut,
            diffusers: DIFFUSER_TUNING
                .iter()
                .map(|&base| PlainDiffuser::new(base, sample_rate))
                .collect(),
            lines,
            diffusion: Smoothed::new(F(params.diffusion.0 * 0.72), F(0.02), sample_rate),
            width: Smoothed::new(params.width, F(0.02), sample_rate),
            glide: 1.0 - (-1.0 / samples).exp(),
        };
        hall.resize();
        hall.refeed();
        hall.redamp();
        hall
    }

    fn depth(&self) -> f32 {
        0.45 * 0.001 * self.sample_rate as f32
    }

    fn resize(&mut self) {
        let multiplier = 0.4 * (2.5_f32 / 0.4).powf(self.params.size.0);
        let depth = self.depth();
        for (i, line) in self.lines.iter_mut().enumerate() {
            let ceiling = line.ring.buffer.len() as f32 - depth - 4.0;
            line.target_len = (plain_len(LINE_TUNING[i], self.sample_rate, multiplier) as f32)
                .min(ceiling.max(1.0));
            line.loop_ap.set_len(plain_len(LOOP_TUNING[i], self.sample_rate, multiplier) as f32);
        }
        for (diffuser, base) in self.diffusers.iter_mut().zip(DIFFUSER_TUNING) {
            diffuser.set_len(plain_len(base, self.sample_rate, multiplier) as f32);
        }
    }

    fn refeed(&mut self) {
        for line in &mut self.lines {
            let seconds = (line.target_len + line.loop_ap.target_len) / self.sample_rate as f32;
            line.feedback =
                10f32.powf(-3.0 * seconds / self.params.decay_s.0).clamp(0.0, 0.9995);
        }
    }

    fn redamp(&mut self) {
        for line in &mut self.lines {
            line.damp.set_coeff(F(1.0 - self.params.damping.0 * 0.45));
        }
    }

    fn apply(&mut self, id: u32, value: f32) {
        let rate = self.sample_rate as f32;
        match id {
            REVERB_PARAM_SIZE => {
                self.params.size = F(value);
                self.resize();
                self.refeed();
            }
            REVERB_PARAM_DECAY_S => {
                self.params.decay_s = F(value);
                self.refeed();
            }
            REVERB_PARAM_DAMPING => {
                self.params.damping = F(value);
                self.redamp();
            }
            REVERB_PARAM_PREDELAY_MS => {
                self.predelay_samples.set_target(F((value * 0.001 * rate).max(1.0)));
            }
            REVERB_PARAM_DIFFUSION => self.diffusion.set_target(F(value * 0.72)),
            REVERB_PARAM_WIDTH => self.width.set_target(F(value)),
            REVERB_PARAM_MODULATION => self.params.modulation = F(value),
            REVERB_PARAM_LOW_CUT_HZ => self.low_cut.set_cutoff(F(value), self.sample_rate),
            _ => unreachable!("a parameter the reverb does not have"),
        }
    }

    fn turn(&mut self) {
        for (line, rate) in self.lines.iter_mut().zip(MOD_RATE_HZ) {
            line.len += (line.target_len - line.len) * self.glide;
            line.phase += rate / self.sample_rate as f32;
            if line.phase >= 1.0 {
                line.phase -= 1.0;
            }
        }
    }

    fn skip(&mut self, frames: usize) {
        for _ in 0..frames {
            for diffuser in &mut self.diffusers {
                diffuser.glide(self.glide);
            }
            self.turn();
            for line in &mut self.lines {
                line.loop_ap.glide(self.glide);
            }
        }
    }

    /// Forget the stored audio.
    fn clear(&mut self) {
        self.predelay.buffer.fill(0.0);
        self.low_cut.reset();
        for diffuser in &mut self.diffusers {
            diffuser.ring.buffer.fill(0.0);
        }
        for line in &mut self.lines {
            line.ring.buffer.fill(0.0);
            line.damp.reset();
            line.loop_ap.ring.buffer.fill(0.0);
        }
    }

    fn frame(&mut self, l: f32, r: f32) -> (f32, f32) {
        self.predelay.write((l + r) * 0.5);
        let delayed = self.predelay.read(self.predelay_samples.advance().0);
        let mut diffused = delayed - self.low_cut.next_sample(F(delayed)).0;
        let gain = self.diffusion.advance().0;
        for diffuser in &mut self.diffusers {
            diffused = diffuser.process(diffused, gain, self.glide);
        }
        self.turn();
        let depth = self.depth() * self.params.modulation.0;
        let mut feedback = [0.0f32; LINES];
        let (mut wet_l, mut wet_r) = (0.0f32, 0.0f32);
        for (j, line) in self.lines.iter_mut().enumerate() {
            let triangle = 4.0 * (line.phase - 0.5).abs() - 1.0;
            let tap = line.ring.read(line.len + triangle * depth);
            wet_l += tap * TAP_L[j];
            wet_r += tap * TAP_R[j];
            feedback[j] = line.damp.next_sample(F(tap)).0 * line.feedback;
        }
        for span in [1, 2, 4] {
            for base in (0..LINES).step_by(span * 2) {
                for offset in base..base + span {
                    let (a, b) = (feedback[offset], feedback[offset + span]);
                    feedback[offset] = a + b;
                    feedback[offset + span] = a - b;
                }
            }
        }
        for (j, line) in self.lines.iter_mut().enumerate() {
            let injected = feedback[j] * 0.353_553_4 + diffused * INJECT[j];
            let returned = line.loop_ap.process(injected, 0.6, self.glide);
            line.ring.write(returned);
        }
        let width = self.width.advance().0;
        let mid = (wet_l + wet_r) * 0.5;
        let side = (wet_l - wet_r) * 0.5 * width;
        ((mid + side) * 0.185, (mid - side) * 0.185)
    }
}

/// Knobs turned under the render, as (frame, id, value): a size jump and a
/// size sweep, and every other control once, some mid-block.
fn reverb_moves() -> Vec<(usize, u32, f32)> {
    let mut moves = vec![
        (9_001, REVERB_PARAM_SIZE, 1.0),
        (20_000, REVERB_PARAM_PREDELAY_MS, 80.0),
        (21_111, REVERB_PARAM_DIFFUSION, 0.1),
        (23_000, REVERB_PARAM_WIDTH, 0.4),
        (25_555, REVERB_PARAM_DAMPING, 0.9),
        (27_000, REVERB_PARAM_DECAY_S, 6.0),
        (29_000, REVERB_PARAM_MODULATION, 1.0),
        (31_000, REVERB_PARAM_LOW_CUT_HZ, 300.0),
    ];
    for step in 0..40 {
        moves.push((40_000 + step * 97, REVERB_PARAM_SIZE, step as f32 / 39.0));
    }
    moves
}

/// Render an impulse followed by bursts of noise through the effect and the
/// plain network, across a skipped stretch and a seek, and hold every sample
/// of one to the other.
fn hold_to_the_plain_network(
    name: &str,
    params: ReverbParams<F>,
    sample_rate: u32,
    block: usize,
    moves: &[(usize, u32, f32)],
) {
    let frames = 96_000;
    let mut effect = ReverbEffect::new(params, sample_rate);
    let mut plain = PlainHall::new(params, sample_rate);
    let mut seed = 0x0bad_5eedu32;
    let mut rendered = 0;
    let mut heard = false;
    let seek_at = 70_000;
    while rendered < frames {
        let len = block.min(frames - rendered);
        let ctx = ProcessContext { sample_rate, frames: len };
        if (60_000..64_000).contains(&rendered) {
            effect.skip_block(&ctx);
            plain.skip(len);
            rendered += len;
            continue;
        }
        if (rendered..rendered + len).contains(&seek_at) {
            effect.on_discontinuity(Discontinuity::Seek);
            plain.clear();
        }
        let mut events = Events::empty();
        for &(at, id, value) in moves {
            if rendered <= at && at < rendered + len {
                events.push(TimedEvent {
                    offset: (at - rendered) as u32,
                    event: Event::ParamValue { id, value: F(value) },
                });
            }
        }
        let mut bus = StereoBus::with_capacity(len);
        for i in 0..len {
            let frame = rendered + i;
            let value = if frame == 0 {
                1.0
            } else if (frame / 3_000) % 4 == 1 {
                noise(&mut seed)
            } else {
                0.0
            };
            bus.l[i] = F(value);
            bus.r[i] = F(-0.5 * value);
        }
        let input = (left(&bus), right(&bus));
        effect.process(&ctx, &mut bus, &events);
        for i in 0..len {
            for &(_, id, value) in moves.iter().filter(|m| m.0 == rendered + i) {
                plain.apply(id, value);
            }
            let (l, r) = plain.frame(input.0[i], input.1[i]);
            assert!(
                l.to_bits() == bus.l[i].0.to_bits() && r.to_bits() == bus.r[i].0.to_bits(),
                "{name}: frame {} is ({}, {}) where the plain network is at ({l}, {r})",
                rendered + i,
                bus.l[i].0,
                bus.r[i].0,
            );
            heard |= l != 0.0;
        }
        rendered += len;
    }
    assert!(heard, "{name}: rendered silence, which proves nothing");
}

#[test]
fn the_restructured_network_is_the_old_one_bit_for_bit() {
    let mut cases = song_reverbs();
    cases.push(("default", plain_reverb()));
    cases.push((
        "smallest",
        ReverbParams {
            size: F(0.0),
            modulation: F(1.0),
            diffusion: F(0.0),
            ..plain_reverb()
        },
    ));
    cases.push((
        "largest",
        ReverbParams { size: F(1.0), modulation: F(1.0), decay_s: F(20.0), ..plain_reverb() },
    ));
    for (name, params) in &cases {
        hold_to_the_plain_network(name, *params, SR, 128, &[]);
        hold_to_the_plain_network(name, *params, SR, 128, &reverb_moves());
    }
    for (sample_rate, block) in [(44_100, 64), (22_050, 1_000), (96_000, 333), (48_000, 4_096)] {
        let name = format!("default at {sample_rate} Hz in {block}-frame blocks");
        hold_to_the_plain_network(&name, plain_reverb(), sample_rate, block, &reverb_moves());
    }
}

/// The skip the rendering leans on is real: a second after a size change every
/// glide has stalled, so the steady state skips them all, and a size change
/// sets them moving again.
#[test]
fn every_glide_stalls_after_a_size_change_and_a_new_one_restarts_them() {
    let at_rest = |effect: &ReverbEffect<F>| {
        let glide = effect.size_glide;
        effect.lines.iter().all(|line| line.at_rest(glide))
            && effect.diffusers.iter().all(|diffuser| diffuser.at_rest(glide))
    };
    let mut effect = ReverbEffect::new(plain_reverb(), SR);
    let mut bus = StereoBus::with_capacity(48_000);
    effect.process(&context(48_000), &mut bus, &Events::empty());
    assert!(at_rest(&effect), "a second in, the glides should have stalled");
    let mut events = Events::empty();
    events.push(TimedEvent {
        offset: 0,
        event: Event::ParamValue { id: REVERB_PARAM_SIZE, value: F(0.9) },
    });
    effect.process(&context(128), &mut bus, &events);
    assert!(!at_rest(&effect), "a size change should set the glides moving");
    effect.process(&context(48_000), &mut bus, &Events::empty());
    assert!(at_rest(&effect), "and a second later they should stall again");
}

#[test]
fn a_stalled_glide_is_skipped_to_the_sample() {
    let glide = F(1.0 - (-1.0_f32 / (0.05 * 48_000.0)).exp());
    let mut diffuser: Diffuser<F> = Diffuser::new(331, SR);
    let stall = |diffuser: &mut Diffuser<F>| {
        for _ in 0..48_000 {
            diffuser.step_silent(glide);
        }
    };
    diffuser.set_len(F(200.0));
    assert!(!diffuser.at_rest(glide), "a size change should set the glide moving");
    stall(&mut diffuser);
    assert!(diffuser.at_rest(glide), "a second later it should have stalled");
    diffuser.set_len(F(700.0));
    assert!(!diffuser.at_rest(glide));
    stall(&mut diffuser);
    assert!(diffuser.at_rest(glide));
    // And with nothing left to glide, skipping it changes no sample.
    let mut skipped = Diffuser::new(331, SR);
    skipped.set_len(F(700.0));
    stall(&mut skipped);
    let again = |d: &mut Diffuser<F>, rest: bool| -> Vec<f32> {
        let mut seed = 7;
        (0..2_000)
            .map(|_| {
                let x = F(noise(&mut seed));
                if rest {
                    d.process_at_rest(x, F(0.5)).0
                } else {
                    d.process(x, F(0.5), glide).0
                }
            })
            .collect()
    };
    let mut moving = Diffuser::new(331, SR);
    moving.set_len(F(700.0));
    stall(&mut moving);
    assert_eq!(again(&mut skipped, true), again(&mut moving, false));
}

#[test]
fn a_reverbs_tail_follows_its_decay() {
    let effect = ReverbEffect::new(ReverbParams { decay_s: F(2.0), ..plain_reverb() }, SR);
    assert_eq!(effect.tail_frames(), (6.25 * 48_000.0) as u32);
    assert_eq!(effect.params().decay_s, F(2.0));
}

#[test]
fn the_reverb_renders_the_same_in_any_blocks() {
    let render = |block: usize| {
        let mut effect = ReverbEffect::new(plain_reverb(), SR);
        let mut out = Vec::new();
        for start in (0..6_000).step_by(block) {
            let len = block.min(6_000 - start);
            let mut bus = StereoBus::with_capacity(len);
            if start == 0 {
                bus.l[0] = F(1.0);
            }
            effect.process(&context(len), &mut bus, &Events::empty());
            out.extend(left(&bus));
        }
        out
    };
    assert_eq!(render(64), render(1_000));
}

#[test]
fn the_network_reports_no_latency() {
    let effect = ReverbEffect::new(plain_reverb(), SR);
    assert_eq!(effect.latency_frames(), 0);
}

#[test]
fn the_matrix_spreads_one_line_over_all_eight() {
    let mut values = [Fixed::of(0); LINES];
    values[3] = Fixed::of(8);
    hadamard(&mut values);
    let share = values[0].raw;
    assert!(share > 0);
    assert!(values.iter().all(|v| v.raw.abs() == share));
    // Eight shares hold what one line held, within a part in seven million.
    let before = 64.0 * 2f64.powi(64);
    let after = 8.0 * (share as f64) * (share as f64);
    assert!((after / before - 1.0).abs() < 1.0 / 7.0e6);
}

#[test]
fn a_reverb_rings_on_after_a_seek() {
    for seek in [true, false] {
        let mut effect = ReverbEffect::new(plain_reverb(), SR);
        let mut noisy = opposed_noise(12_000);
        noisy.r.copy_from_slice(&noisy.l.clone());
        effect.process(&context(12_000), &mut noisy, &Events::empty());
        if seek {
            effect.on_discontinuity(Discontinuity::Seek);
        } else {
            // A block that had to be scrubbed forgets as a seek does.
            let mut poisoned = impulse_bus(4_000);
            poisoned.l[0] = F(f32::NAN);
            effect.process(&context(4_000), &mut poisoned, &Events::empty());
            assert!(poisoned.l.iter().chain(&poisoned.r).all(|x| x.0.is_finite()));
        }
        let mut bus = impulse_bus(40_000);
        effect.process(&context(40_000), &mut bus, &Events::empty());
        assert!(energy(&bus, 0..500) == 0.0, "what was played before is still heard");
        assert!(energy(&bus, 20_000..30_000) > 1e-8, "the tail is gone");
    }
}

#[test]
fn an_allpass_hands_on_the_energy_it_is_given() {
    let mut allpass: SchroederAllpass<F> = SchroederAllpass::new(225, 44_100);
    let mut sum = 0.0_f64;
    for frame in 0..20_000 {
        let out = allpass.process(F(if frame == 0 { 1.0 } else { 0.0 }), F(1.0)).0;
        sum += f64::from(out) * f64::from(out);
    }
    assert!((sum - 1.0).abs() < 1.0e-6, "an impulse came out with energy {sum}");
}

#[test]
fn maximum_feedback_on_a_loud_input_stays_bounded() {
    for mode in [DelayMode::Digital, DelayMode::Tape, DelayMode::Reverse] {
        let bus = delayed(
            DelayParams {
                time_ms: F(10.0),
                feedback: F(0.98),
                mode,
                tone: F(1.0),
                mix: F(1.0),
                ..plain_delay()
            },
            bus_of(&sine(96_000, 100.0, 1.0)),
            &EventList::empty(),
        );
        let most = peak(&left(&bus));
        // A loop that keeps 0.98 of itself builds up to fifty times its input.
        assert!(most.is_finite() && most <= 60.0, "{mode:?} reached {most}");
    }
}
