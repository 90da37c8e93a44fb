use mooloop_dsp::bus::StereoBus;
use mooloop_dsp::curves::Curves;
use mooloop_dsp::delayline::{DelayLine, ReadHead};
use mooloop_dsp::event::{Event, EventList, TimedEvent};
use mooloop_dsp::filter::{AllPass, OnePoleLp};
use mooloop_dsp::lfo::Lfo;
use mooloop_dsp::modulation::{
    allpass_coefficient, log2_center, phaser_hz, resonance_trim, ModulationEffect,
    ModulationMode, ModulationParams, MAX_PHASER_STAGES, MODULATION_PARAM_COLOR,
    MODULATION_PARAM_DEPTH, MODULATION_PARAM_MODE, MODULATION_PARAM_RATE_HZ,
    MODULATION_PARAM_STAGES, MODULATION_PARAM_TONE,
};
use mooloop_dsp::node::{Discontinuity, ProcessContext};
use mooloop_dsp::num::Sample;
use mooloop_dsp::smooth::Smoothed;
use mooloop_dsp::split::RangeProcessor;

#[derive(Clone, Copy, Debug, PartialEq, PartialOrd)]
struct F(f32);

impl Sample for F {
    fn add(self, other: Self) -> Self {
        F(self.0 + other.0)
    }
    fn sub(self, other: Self) -> Self {
        F(self.0 - other.0)
    }
    fn mul(self, other: Self) -> Self {
        F(self.0 * other.0)
    }
    fn div(self, other: Self) -> Self {
        F(self.0 / other.0)
    }
    fn neg(self) -> Self {
        F(-self.0)
    }
    fn abs(self) -> Self {
        F(self.0.abs())
    }
    fn of(count: usize) -> Self {
        F(count as f32)
    }
    fn whole(self) -> usize {
        self.0 as usize
    }
    fn round(self) -> Self {
        F(self.0.round())
    }
    fn ceil(self) -> Self {
        F(self.0.ceil())
    }
    fn lt(self, other: Self) -> bool {
        self.0 < other.0
    }
    fn le(self, other: Self) -> bool {
        self.0 <= other.0
    }
    fn equals(self, other: Self) -> bool {
        self.0 == other.0
    }
    fn same(self, other: Self) -> bool {
        self.0.to_bits() == other.0.to_bits()
    }
    fn is_finite(self) -> bool {
        self.0.is_finite()
    }
}

impl Curves for F {
    fn pi() -> Self {
        F(core::f32::consts::PI)
    }
    fn sqrt(self) -> Self {
        F(self.0.sqrt())
    }
    fn sin(self) -> Self {
        F(self.0.sin())
    }
    fn cos(self) -> Self {
        F(self.0.cos())
    }
    fn tan(self) -> Self {
        F(self.0.tan())
    }
    fn tanh(self) -> Self {
        F(self.0.tanh())
    }
    fn exp(self) -> Self {
        F(self.0.exp())
    }
    fn exp2(self) -> Self {
        F(self.0.exp2())
    }
    fn ln(self) -> Self {
        F(self.0.ln())
    }
    fn log2(self) -> Self {
        F(self.0.log2())
    }
    fn log10(self) -> Self {
        F(self.0.log10())
    }
    fn powf(self, exponent: Self) -> Self {
        F(self.0.powf(exponent.0))
    }
}

type Events = EventList<F, ()>;

fn context(frames: usize) -> ProcessContext {
    ProcessContext { sample_rate: 48_000, frames }
}

/// A bus with the same samples on both sides.
fn bus_of(samples: &[f32]) -> StereoBus<F> {
    let mut bus = StereoBus::with_capacity(samples.len());
    for (i, &x) in samples.iter().enumerate() {
        bus.l[i] = F(x);
        bus.r[i] = F(x);
    }
    bus
}

fn left(bus: &StereoBus<F>) -> Vec<f32> {
    bus.l.iter().map(|x| x.0).collect()
}

fn right(bus: &StereoBus<F>) -> Vec<f32> {
    bus.r.iter().map(|x| x.0).collect()
}

/// One parameter event, at an offset.
fn param_at(offset: usize, id: u32, value: f32) -> Events {
    let mut events = EventList::empty();
    assert!(events.push(TimedEvent {
        offset: offset as u32,
        event: Event::ParamValue { id, value: F(value) },
    }));
    events
}

fn sine(frames: usize, freq: f32, amplitude: f32) -> Vec<f32> {
    (0..frames)
        .map(|i| (i as f32 / 48_000.0 * freq * core::f32::consts::TAU).sin() * amplitude)
        .collect()
}

const SR: u32 = 48_000;

fn rms(samples: &[f32]) -> f32 {
    let sum: f64 = samples.iter().map(|&x| x as f64 * x as f64).sum();
    (sum / samples.len() as f64).sqrt() as f32
}

fn max_step(samples: &[f32]) -> f32 {
    samples.windows(2).map(|w| (w[1] - w[0]).abs()).fold(0.0, f32::max)
}

fn plain() -> ModulationParams<F> {
    ModulationParams {
        mode: ModulationMode::Chorus,
        rate_hz: F(0.8),
        depth: F(0.4),
        color: F(0.45),
        feedback: F(0.0),
        spread: F(0.5),
        tone: F(0.8),
        stages: 6,
    }
}

fn impulse(frames: usize) -> StereoBus<F> {
    let mut input = vec![0.0; frames];
    input[0] = 1.0;
    bus_of(&input)
}

#[test]
fn a_seek_empties_the_line_and_keeps_the_lfo_phase() {
    let frames = 4_096;
    let mut effect = ModulationEffect::new(ModulationParams { tone: F(1.0), ..plain() }, SR);
    effect.process(&context(frames), &mut impulse(frames), &Events::empty());

    let phase_before = effect.lfo.peek_offset(F(0.0));
    effect.on_discontinuity(Discontinuity::Seek);
    assert_eq!(
        effect.lfo.peek_offset(F(0.0)),
        phase_before,
        "the seek restarted a free-running LFO"
    );

    let mut after = bus_of(&vec![0.0; frames]);
    effect.process(&context(frames), &mut after, &Events::empty());
    let peak = left(&after).iter().fold(0.0f32, |peak, s| peak.max(s.abs()));
    assert!(peak <= 1e-6, "the line kept audio from before the seek: {peak}");

    // The control: `reset` is the wider one and does restart it.
    effect.reset();
    assert_ne!(
        effect.lfo.peek_offset(F(0.0)),
        phase_before,
        "reset was expected to restart the LFO"
    );
}

#[test]
fn chorus_returns_an_impulse_after_its_short_delay() {
    let frames = 4_096;
    let mut bus = impulse(frames);
    let mut effect = ModulationEffect::new(ModulationParams { tone: F(1.0), ..plain() }, SR);
    effect.process(&context(frames), &mut bus, &Events::empty());
    assert!(left(&bus)[400..].iter().any(|sample| sample.abs() > 1e-4));
}

#[test]
fn phaser_and_chorus_have_distinct_responses() {
    let frames = 2_048;
    let input: Vec<f32> = (0..frames).map(|frame| (frame as f32 * 0.13).sin()).collect();
    let run = |mode: ModulationMode| {
        let mut bus = bus_of(&input);
        let mut effect = ModulationEffect::new(ModulationParams { mode, ..plain() }, SR);
        effect.process(&context(frames), &mut bus, &Events::empty());
        left(&bus)
    };
    let difference: f32 = run(ModulationMode::Chorus)
        .iter()
        .zip(run(ModulationMode::Phaser))
        .map(|(a, b)| (a - b).abs())
        .sum();
    assert!(difference > 10.0);
}

#[test]
fn depth_change_mid_block_does_not_click() {
    let frames = 8_192;
    let mut bus = bus_of(&sine(frames, 220.0, 0.4));
    let mut effect =
        ModulationEffect::new(ModulationParams { depth: F(0.0), tone: F(1.0), ..plain() }, SR);
    effect.process(
        &context(frames),
        &mut bus,
        &param_at(frames / 2, MODULATION_PARAM_DEPTH, 1.0),
    );
    let max_step = max_step(&left(&bus));
    assert!(max_step < 0.2, "depth change left a discontinuity of {max_step}");
}

#[test]
fn phaser_hz_matches_the_original_two_powf_formula() {
    for depth in [0.0f32, 0.15, 0.5, 0.85, 1.0] {
        for color in [0.0f32, 0.2, 0.45, 0.7, 1.0] {
            for lfo in [-1.55f32, -1.0, -0.3, 0.0, 0.4, 1.0, 1.55] {
                let octaves = 0.15 + depth * 2.2;
                let expected = {
                    let center = 220.0 * 28.0f32.powf(color);
                    (center * 2.0f32.powf(lfo * octaves)).clamp(60.0, SR as f32 * 0.42)
                };
                let actual = phaser_hz(F(lfo), log2_center(F(color)), F(octaves), SR).0;
                let scale = expected.abs().max(1.0);
                assert!(
                    (actual - expected).abs() / scale < 1.0e-4,
                    "depth {depth} color {color} lfo {lfo}: wanted {expected}, got {actual}"
                );
            }
        }
    }
}

#[test]
fn tilt_table_matches_the_inline_per_stage_formula() {
    for stages in 4u8..=12 {
        let effect = ModulationEffect::new(
            ModulationParams { mode: ModulationMode::Phaser, stages, ..plain() },
            SR,
        );
        let n = usize::from(stages);
        for stage in 0..n {
            let expected = (stage as f32 / (n - 1).max(1) as f32 - 0.5) * 1.1;
            assert_eq!(effect.tilt[stage], F(expected), "stages {stages}, stage {stage}");
        }
    }
}

#[test]
fn changing_stages_mid_stream_rebuilds_the_tilt_table() {
    let mut effect = ModulationEffect::new(
        ModulationParams { mode: ModulationMode::Phaser, stages: 4, ..plain() },
        SR,
    );
    let four_stage_tilt_1 = effect.tilt[1];
    effect.apply_param(MODULATION_PARAM_STAGES, F(12.0));
    assert_eq!(effect.params().stages, 12);
    let expected = (1.0 / 11.0 - 0.5) * 1.1;
    assert_eq!(effect.tilt[1], F(expected));
    assert_ne!(
        effect.tilt[1], four_stage_tilt_1,
        "the table did not change with the stage count"
    );
}

/// A phaser with every stage's coefficient from an `exp2` and a `tan` each
/// sample, and the tone filter's cutoff from a `powf` and two `exp`: what the
/// control-rate phaser is measured against.
struct PerSamplePhaser {
    params: ModulationParams<F>,
    lfo: Lfo<F>,
    stages_l: [AllPass<F>; MAX_PHASER_STAGES],
    stages_r: [AllPass<F>; MAX_PHASER_STAGES],
    tone_l: OnePoleLp<F>,
    tone_r: OnePoleLp<F>,
    feedback_l: f32,
    feedback_r: f32,
    depth: Smoothed<F>,
    feedback: Smoothed<F>,
    spread: Smoothed<F>,
    tone: Smoothed<F>,
    color: Smoothed<F>,
}

impl PerSamplePhaser {
    fn new(params: ModulationParams<F>) -> Self {
        let smoothed = |initial| Smoothed::new(initial, F(0.01), SR);
        Self {
            params,
            lfo: Lfo::new(),
            stages_l: [AllPass::new(); MAX_PHASER_STAGES],
            stages_r: [AllPass::new(); MAX_PHASER_STAGES],
            tone_l: OnePoleLp::new(),
            tone_r: OnePoleLp::new(),
            feedback_l: 0.0,
            feedback_r: 0.0,
            depth: smoothed(params.depth),
            feedback: smoothed(params.feedback),
            spread: smoothed(params.spread),
            tone: smoothed(params.tone),
            color: smoothed(params.color),
        }
    }

    fn apply(&mut self, id: u32, value: f32) {
        match id {
            MODULATION_PARAM_DEPTH => self.depth.set_target(F(value)),
            MODULATION_PARAM_TONE => self.tone.set_target(F(value)),
            MODULATION_PARAM_COLOR => self.color.set_target(F(value)),
            MODULATION_PARAM_RATE_HZ => self.params.rate_hz = F(value),
            _ => unreachable!("it only follows the knobs its tests move"),
        }
    }

    fn sample(&mut self, input_l: f32, input_r: f32) -> (f32, f32) {
        let depth = self.depth.advance().0;
        let feedback = self.feedback.advance().0;
        let spread = self.spread.advance().0;
        let tone = self.tone.advance().0;
        let color = self.color.advance().0;
        let sweep_l = self.lfo.peek_offset(F(0.0)).0;
        let sweep_r = self.lfo.peek_offset(F(spread * 0.25)).0;
        self.lfo.skip(1, self.params.rate_hz, SR);
        let log2_center = F((220.0 * 28.0f32.powf(color)).log2());
        let octaves = F(0.15 + depth * 2.2);
        let stages = usize::from(self.params.stages).clamp(4, MAX_PHASER_STAGES);
        let denom = (stages - 1).max(1) as f32;
        let mut left = F(input_l + self.feedback_l * feedback);
        let mut right = F(input_r + self.feedback_r * feedback);
        for stage in 0..stages {
            let tilt = (stage as f32 / denom - 0.5) * 1.1;
            let coefficient = |sweep: f32| {
                allpass_coefficient(phaser_hz(F(sweep + tilt), log2_center, octaves, SR), SR)
            };
            left = self.stages_l[stage].next(left, coefficient(sweep_l));
            right = self.stages_r[stage].next(right, coefficient(sweep_r));
        }
        self.feedback_l = left.0;
        self.feedback_r = right.0;
        let trim = resonance_trim(F(feedback));
        let hz = F(350.0 * (20_000.0f32 / 350.0).powf(tone));
        self.tone_l.set_cutoff(hz, SR);
        self.tone_r.set_cutoff(hz, SR);
        (
            self.tone_l.next_sample(left.mul(trim)).0,
            self.tone_r.next_sample(right.mul(trim)).0,
        )
    }
}

/// Noise under a 110 Hz saw: broadband, so every notch the sweep moves has
/// something to cut.
fn phaser_input(frames: usize) -> Vec<f32> {
    let mut state = 0x2350_1a7e_u32;
    (0..frames)
        .map(|i| {
            state ^= state << 13;
            state ^= state >> 17;
            state ^= state << 5;
            let noise = state as f32 / (u32::MAX / 2) as f32 - 1.0;
            let saw = 2.0 * (i as f32 * 110.0 / SR as f32).fract() - 1.0;
            0.3 * noise + 0.2 * saw
        })
        .collect()
}

/// The fastest, deepest sweep the knobs allow, with heavy feedback, so the
/// notches are as sharp and move as fast as they can.
fn fastest_phaser(stages: u8) -> ModulationParams<F> {
    ModulationParams {
        mode: ModulationMode::Phaser,
        rate_hz: F(12.0),
        depth: F(1.0),
        color: F(0.5),
        feedback: F(0.85),
        spread: F(0.5),
        tone: F(1.0),
        stages,
    }
}

#[test]
fn control_rate_phaser_matches_the_per_sample_formula() {
    const BLOCK: usize = 128;
    let blocks = 750;
    let input = phaser_input(BLOCK * blocks);
    // (block, offset, id, value)
    let moves = [
        (150usize, 37u32, MODULATION_PARAM_DEPTH, 0.35f32),
        (300, 5, MODULATION_PARAM_TONE, 0.4),
        (420, 100, MODULATION_PARAM_COLOR, 0.9),
        (500, 64, MODULATION_PARAM_RATE_HZ, 3.0),
        (600, 1, MODULATION_PARAM_DEPTH, 1.0),
    ];
    for stages in [4u8, 8, 12] {
        let params = fastest_phaser(stages);
        let mut effect = ModulationEffect::new(params, SR);
        let mut reference = PerSamplePhaser::new(params);
        let (mut diff, mut wet, mut worst) = (0.0f64, 0.0f64, 0.0f32);
        for block in 0..blocks {
            let chunk = &input[block * BLOCK..(block + 1) * BLOCK];
            let mut bus = bus_of(chunk);
            let mut events = Events::empty();
            for &(_, offset, id, value) in moves.iter().filter(|m| m.0 == block) {
                assert!(events.push(TimedEvent {
                    offset,
                    event: Event::ParamValue { id, value: F(value) },
                }));
            }
            effect.process(&context(BLOCK), &mut bus, &events);
            for (i, &x) in chunk.iter().enumerate() {
                for &(_, _, id, value) in
                    moves.iter().filter(|m| m.0 == block && m.1 as usize == i)
                {
                    reference.apply(id, value);
                }
                let (l, r) = reference.sample(x, x);
                for (got, want) in [(bus.l[i].0, l), (bus.r[i].0, r)] {
                    let error = got - want;
                    diff += f64::from(error * error);
                    wet += f64::from(want * want);
                    worst = worst.max(error.abs());
                }
            }
        }
        let null_db = 10.0 * (diff / wet).log10();
        assert!(null_db < -66.0, "{stages} stages: the difference is only {null_db:.1} dB down");
        assert!(worst < 0.002, "{stages} stages: a sample is off by {worst}");
    }
}

#[test]
fn the_phaser_catches_up_with_an_lfo_it_did_not_see_move() {
    const BLOCK: usize = 128;
    let params = fastest_phaser(8);
    let input = phaser_input(BLOCK * 40);
    for skip in [true, false] {
        let mut effect = ModulationEffect::new(params, SR);
        for block in 0..21 {
            let away = (10..20).contains(&block);
            if skip && away {
                effect.skip_block(&context(BLOCK));
                continue;
            }
            let mode = if away { ModulationMode::Chorus } else { ModulationMode::Phaser };
            effect.apply_param(MODULATION_PARAM_MODE, F(mode.to_index() as f32));
            let mut bus = bus_of(&input[block * BLOCK..(block + 1) * BLOCK]);
            // One sample back in the phaser, so the first control point after
            // the gap is the one being judged.
            let frames = if block == 20 { 1 } else { BLOCK };
            effect.process(&context(frames), &mut bus, &Events::empty());
        }
        // The coefficient the next sample will use, against the one the sweep
        // says.
        let octaves = 0.15 + params.depth.0 * 2.2;
        let sweep = effect.lfo.peek_offset(F(0.0)).0;
        let hz = phaser_hz(
            F(sweep + effect.tilt[0].0),
            log2_center(params.color),
            F(octaves),
            SR,
        );
        let truth = allpass_coefficient(hz, SR).0;
        let now = effect.phaser_l.now[0].0;
        assert!(
            (now - truth).abs() < 0.01,
            "skipped {skip}: stage 0 is at {now}, the sweep says {truth}"
        );
    }
}

#[test]
fn resonance_trim_is_unity_below_the_knee_and_caps_the_peak() {
    for step in -92..=92 {
        let fb = step as f32 / 100.0;
        let trim = resonance_trim(F(fb)).0;
        if fb.abs() <= 0.75 {
            assert_eq!(trim, 1.0, "feedback {fb} was trimmed");
        }
        let peak = trim / (1.0 - fb.abs());
        assert!(peak <= 4.0 * 1.000_1, "feedback {fb} peaks at {peak}");
    }
    assert!((resonance_trim(F(0.92)).0 - 0.32).abs() < 1.0e-5);
}

/// RMS of the flanger's impulse response in `[from_ms, to_ms)`, at a fixed
/// delay (depth 0, the slowest rate), in dB.
fn flanger_ring_db(feedback: f32, from_ms: f32, to_ms: f32) -> f32 {
    let frames = SR as usize / 8;
    let mut bus = impulse(frames);
    let mut effect = ModulationEffect::new(
        ModulationParams {
            mode: ModulationMode::Flange,
            rate_hz: F(0.02),
            depth: F(0.0),
            color: F(1.0),
            feedback: F(feedback),
            tone: F(1.0),
            ..plain()
        },
        SR,
    );
    effect.process(&context(frames), &mut bus, &Events::empty());
    let at = |ms: f32| (ms * SR as f32 / 1_000.0) as usize;
    20.0 * rms(&left(&bus)[at(from_ms)..at(to_ms)]).max(1.0e-12).log10()
}

#[test]
fn a_flanger_at_full_feedback_still_rings() {
    let decay = |fb: f32| flanger_ring_db(fb, 85.0, 105.0) - flanger_ring_db(fb, 5.0, 25.0);
    let (full, knee) = (decay(0.92), decay(0.75));
    assert!(full > -30.0, "the full-feedback flanger stopped ringing: {full:.1} dB");
    assert!(
        full > knee + 12.0,
        "past the knee the ring should keep lengthening: {full:.1} against {knee:.1} dB"
    );
}

#[test]
fn a_repeated_mode_does_not_restart_the_sweep() {
    let mut effect = ModulationEffect::new(plain(), SR);
    effect.process(&context(64), &mut impulse(64), &Events::empty());
    let swept = effect.lfo.peek_offset(F(0.0));
    effect.apply_param(
        MODULATION_PARAM_MODE,
        F(ModulationMode::Chorus.to_index() as f32),
    );
    assert_eq!(effect.lfo.peek_offset(F(0.0)), swept);
}

#[test]
fn skipping_in_pieces_arrives_where_one_skip_does() {
    let mut whole = Lfo::new();
    let mut pieces = Lfo::new();
    whole.skip(96, F(375.0), SR);
    for _ in 0..3 {
        pieces.skip(32, F(375.0), SR);
    }
    assert_eq!(whole.peek_offset(F(0.25)), pieces.peek_offset(F(0.25)));
}

#[test]
fn a_line_reads_back_what_was_written() {
    let mut line: DelayLine<F> = DelayLine::with_capacity_frames(16);
    for i in 1..=10 {
        line.write(F(i as f32), F(-(i as f32)));
    }
    assert_eq!(line.read(F(3.0)), (F(7.0), F(-7.0)));
    // Between two samples of a ramp, the interpolator is exact.
    assert_eq!(line.read(F(3.5)), (F(6.5), F(-6.5)));
    line.write_silence(4);
    assert_eq!(line.read(F(2.0)), (F(0.0), F(0.0)));
    line.clear();
    assert_eq!(line.read(F(8.0)), (F(0.0), F(0.0)));
}

#[test]
fn a_jumping_head_crossfades() {
    let mut line: DelayLine<F> = DelayLine::with_capacity_frames(64);
    for i in 0..40 {
        line.write(F(i as f32), F(0.0));
    }
    let mut head = ReadHead::new(F(4.0));
    head.jump_to(F(20.0), 8);
    assert_eq!(head.offset(), F(20.0));
    let first = head.read(&line).0 .0;
    assert_eq!(first, line.read(F(4.0)).0 .0);
    for _ in 0..8 {
        head.advance(F(0.0));
    }
    assert_eq!(head.read(&line).0, line.read(F(20.0)).0);
}

#[test]
fn the_wet_alone_is_what_a_block_without_events_is() {
    let mut whole = ModulationEffect::new(plain(), SR);
    let mut bare = ModulationEffect::new(plain(), SR);
    let (mut a, mut b) = (impulse(2_048), impulse(2_048));
    whole.process(&context(2_048), &mut a, &Events::empty());
    bare.process_wet(&mut b, 0, 2_048);
    assert_eq!(a.l, b.l);
    assert_eq!(a.r, b.r);
}
