use mooloop_dsp::biquad::{EqBandKind, EqQProfile};
use mooloop_dsp::bitcrush::{BitcrushParams, BitcrushStyle, BITCRUSH_PARAM_STYLE};
use mooloop_dsp::bus::StereoBus;
use mooloop_dsp::curves::Curves;
use mooloop_dsp::delay::{DelayMode, DelayParams, DelayTimeDivision, DELAY_PARAM_MIX};
use mooloop_dsp::drive::{DriveCurve, DriveParams, SoftClip, DRIVE_PARAM_OUTPUT};
use mooloop_dsp::dynamics::{
    CompressorEffect, CompressorParams, GateParams, COMP_PARAM_MIX, GATE_PARAM_RANGE_DB,
};
use mooloop_dsp::effects::{build_effect, build_effect_at_tempo, Effect, EffectParams, Fittings};
use mooloop_dsp::eq::{EqBand, EqParams, EqPass, EqSlope, EQ_DESCRIPTOR_COUNT};
use mooloop_dsp::event::EventList;
use mooloop_dsp::filter_effect::{
    FilterMode, FilterParams, FilterSlope, FILTER_PARAM_DRIVE,
};
use mooloop_dsp::hosted_source::PluginSlotId;
use mooloop_dsp::limiter::{LimiterParams, LIMITER_PARAM_GAIN_DB};
use mooloop_dsp::modulation::{
    ModulationMode, ModulationParams, MODULATION_PARAM_STAGES,
};
use mooloop_dsp::node::{Discontinuity, ProcessContext};
use mooloop_dsp::num::{Sample, Wide};
use mooloop_dsp::plate::{PlateParams, PLATE_PARAM_PREDELAY_MS};
use mooloop_dsp::preamp::{
    HarmonicStage, PreampParams, PreampVoicing, PREAMP_PARAM_OUTPUT_DB,
};
use mooloop_dsp::reverb::{ReverbParams, REVERB_PARAM_LOW_CUT_HZ};
use mooloop_dsp::split::MAX_NODE_CURVE_DESTINATIONS;

#[derive(Clone, Copy, Debug, PartialEq, PartialOrd)]
struct F(f32);

impl Sample for F {
    fn add(self, other: Self) -> Self {
        F(self.0 + other.0)
    }
    fn sub(self, other: Self) -> Self {
        F(self.0 - other.0)
    }
    fn mul(self, other: Self) -> Self {
        F(self.0 * other.0)
    }
    fn div(self, other: Self) -> Self {
        F(self.0 / other.0)
    }
    fn neg(self) -> Self {
        F(-self.0)
    }
    fn abs(self) -> Self {
        F(self.0.abs())
    }
    fn of(count: usize) -> Self {
        F(count as f32)
    }
    fn whole(self) -> usize {
        self.0 as usize
    }
    fn round(self) -> Self {
        F(self.0.round())
    }
    fn ceil(self) -> Self {
        F(self.0.ceil())
    }
    fn lt(self, other: Self) -> bool {
        self.0 < other.0
    }
    fn le(self, other: Self) -> bool {
        self.0 <= other.0
    }
    fn equals(self, other: Self) -> bool {
        self.0 == other.0
    }
    fn same(self, other: Self) -> bool {
        self.0.to_bits() == other.0.to_bits()
    }
    fn is_finite(self) -> bool {
        self.0.is_finite()
    }
}

impl Curves for F {
    fn pi() -> Self {
        F(core::f32::consts::PI)
    }
    fn sqrt(self) -> Self {
        F(self.0.sqrt())
    }
    fn sin(self) -> Self {
        F(self.0.sin())
    }
    fn cos(self) -> Self {
        F(self.0.cos())
    }
    fn tan(self) -> Self {
        F(self.0.tan())
    }
    fn tanh(self) -> Self {
        F(self.0.tanh())
    }
    fn exp(self) -> Self {
        F(self.0.exp())
    }
    fn exp2(self) -> Self {
        F(self.0.exp2())
    }
    fn ln(self) -> Self {
        F(self.0.ln())
    }
    fn log2(self) -> Self {
        F(self.0.log2())
    }
    fn log10(self) -> Self {
        F(self.0.log10())
    }
    fn powf(self, exponent: Self) -> Self {
        F(self.0.powf(exponent.0))
    }
}

impl Wide<F> for F {
    fn widen(value: F) -> Self {
        value
    }
    fn narrow(self) -> F {
        self
    }
}

#[derive(Clone, Copy, Debug, PartialEq, PartialOrd)]
struct F64(f64);

impl Sample for F64 {
    fn add(self, other: Self) -> Self {
        F64(self.0 + other.0)
    }
    fn sub(self, other: Self) -> Self {
        F64(self.0 - other.0)
    }
    fn mul(self, other: Self) -> Self {
        F64(self.0 * other.0)
    }
    fn div(self, other: Self) -> Self {
        F64(self.0 / other.0)
    }
    fn neg(self) -> Self {
        F64(-self.0)
    }
    fn abs(self) -> Self {
        F64(self.0.abs())
    }
    fn of(count: usize) -> Self {
        F64(count as f64)
    }
    fn whole(self) -> usize {
        self.0 as usize
    }
    fn round(self) -> Self {
        F64(self.0.round())
    }
    fn ceil(self) -> Self {
        F64(self.0.ceil())
    }
    fn lt(self, other: Self) -> bool {
        self.0 < other.0
    }
    fn le(self, other: Self) -> bool {
        self.0 <= other.0
    }
    fn equals(self, other: Self) -> bool {
        self.0 == other.0
    }
    fn same(self, other: Self) -> bool {
        self.0.to_bits() == other.0.to_bits()
    }
    fn is_finite(self) -> bool {
        self.0.is_finite()
    }
}

impl Curves for F64 {
    fn pi() -> Self {
        F64(core::f64::consts::PI)
    }
    fn sqrt(self) -> Self {
        F64(self.0.sqrt())
    }
    fn sin(self) -> Self {
        F64(self.0.sin())
    }
    fn cos(self) -> Self {
        F64(self.0.cos())
    }
    fn tan(self) -> Self {
        F64(self.0.tan())
    }
    fn tanh(self) -> Self {
        F64(self.0.tanh())
    }
    fn exp(self) -> Self {
        F64(self.0.exp())
    }
    fn exp2(self) -> Self {
        F64(self.0.exp2())
    }
    fn ln(self) -> Self {
        F64(self.0.ln())
    }
    fn log2(self) -> Self {
        F64(self.0.log2())
    }
    fn log10(self) -> Self {
        F64(self.0.log10())
    }
    fn powf(self, exponent: Self) -> Self {
        F64(self.0.powf(exponent.0))
    }
}

impl Wide<F> for F64 {
    fn widen(value: F) -> Self {
        F64(value.0 as f64)
    }
    fn narrow(self) -> F {
        F(self.0 as f32)
    }
}

const SAMPLE_RATE: u32 = 48_000;

const BLOCK: usize = 512;

/// 140 decibels under full scale.
const SILENCE_PEAK: f32 = 1.0e-7;

const REST_EPSILON: F = F(1.0e-9);

/// The operating level: twelve decibels under full scale.
const REFERENCE: f32 = 0.251_188_64;

const LIMITER_LATENCY: usize = 96;

type Events = EventList<F, ()>;

type Params = EffectParams<F, CompressorParams<F>, ()>;

type Insert =
    Effect<F, F64, SoftClip<F>, HarmonicStage<F>, CompressorEffect<F>, ()>;

fn fittings() -> Fittings<F> {
    Fittings {
        max_ticks: 64,
        reference: F(REFERENCE),
        max_time_ms: F(2_000.0),
        limiter_latency: LIMITER_LATENCY,
        bus_comp_first: 0,
        bus_comp_count: 7,
    }
}

fn build(params: Params) -> Insert {
    build_effect(params, SAMPLE_RATE, &fittings())
}

fn process(insert: &mut Insert, ctx: &ProcessContext, bus: &mut StereoBus<F>) {
    let events = Events::empty();
    match insert {
        Effect::Eq(e) => e.process(ctx, bus, &events),
        Effect::Modulation(e) => e.process(ctx, bus, &events),
        Effect::Filter(e) => e.process(ctx, bus, &events),
        Effect::Drive(e) => e.process(ctx, bus, &events),
        Effect::Preamp(e) => e.process(ctx, bus, &events),
        Effect::Bitcrush(e) => e.process(ctx, bus, &events),
        Effect::Delay(e) => e.process(ctx, bus, &events),
        Effect::Reverb(e) => e.process(ctx, bus, &events),
        Effect::Plate(e) => e.process(ctx, bus, &events),
        Effect::Gate(e) => e.process(ctx, bus, &events),
        Effect::Compressor(e) => e.process(ctx, bus, &events),
        Effect::BusComp(e) => e.process(ctx, bus, &events),
        Effect::Limiter(e) => e.process(ctx, bus, &events),
        Effect::Container(e) => e.process(ctx, bus),
        Effect::Plugin(e) => e.process(ctx, bus),
    }
}

fn is_at_rest(insert: &Insert) -> bool {
    match insert {
        Effect::Eq(e) => e.is_at_rest(REST_EPSILON),
        Effect::Filter(e) => e.is_at_rest(REST_EPSILON),
        Effect::Bitcrush(e) => e.is_at_rest(REST_EPSILON),
        Effect::Preamp(e) => e.is_at_rest(),
        Effect::Gate(e) => e.is_at_rest(),
        Effect::Compressor(e) => e.is_at_rest(),
        Effect::BusComp(e) => e.is_at_rest::<F>(),
        Effect::Limiter(e) => e.is_at_rest(),
        Effect::Container(e) => e.is_at_rest(),
        Effect::Plugin(e) => e.is_at_rest(),
        _ => false,
    }
}

fn tail_frames(insert: &Insert) -> u32 {
    match insert {
        Effect::Modulation(e) => e.tail_frames(),
        Effect::Drive(e) => e.tail_frames(),
        Effect::Preamp(e) => e.tail_frames(),
        Effect::Delay(e) => e.tail_frames(),
        Effect::Reverb(e) => e.tail_frames(),
        Effect::Plate(e) => e.tail_frames(),
        Effect::Container(e) => e.tail_frames(),
        Effect::Plugin(e) => e.tail_frames(),
        _ => u32::MAX,
    }
}

fn skip_block(insert: &mut Insert, ctx: &ProcessContext) {
    match insert {
        Effect::Modulation(e) => e.skip_block(ctx),
        Effect::Bitcrush(e) => e.skip_block(ctx),
        Effect::Delay(e) => e.skip_block(ctx),
        Effect::Reverb(e) => e.skip_block(ctx),
        Effect::Plate(e) => e.skip_block(ctx),
        _ => {}
    }
}

fn on_discontinuity(insert: &mut Insert, kind: Discontinuity) {
    match insert {
        Effect::Modulation(e) => e.on_discontinuity(kind),
        Effect::Delay(e) => e.on_discontinuity(kind),
        Effect::Reverb(e) => e.on_discontinuity(kind),
        Effect::Plate(e) => e.on_discontinuity(kind),
        Effect::Limiter(e) => e.on_discontinuity(kind),
        Effect::Plugin(e) => e.on_discontinuity(kind),
        _ => {}
    }
}

fn latency_frames(insert: &Insert) -> usize {
    match insert {
        Effect::Drive(e) => e.latency_frames(),
        Effect::Preamp(e) => e.latency_frames() as usize,
        Effect::BusComp(e) => e.latency_frames() as usize,
        Effect::Limiter(e) => e.latency_frames(),
        Effect::Container(e) => e.latency_frames() as usize,
        Effect::Plugin(e) => e.latency_frames(),
        _ => 0,
    }
}

fn eq_params() -> EqParams<F> {
    let band = |frequency_hz: f32| EqBand {
        enabled: true,
        kind: EqBandKind::Bell,
        frequency_hz: F(frequency_hz),
        gain_db: F(0.0),
        q: F(1.0),
        q_profile: EqQProfile::Constant,
    };
    let pass = |frequency_hz: f32| EqPass {
        enabled: false,
        frequency_hz: F(frequency_hz),
        q: F(0.707),
        slope: EqSlope::Db12,
    };
    EqParams {
        bands: [60.0, 150.0, 400.0, 1_000.0, 2_500.0, 6_000.0, 12_000.0].map(band),
        high_pass: pass(20.0),
        low_pass: pass(20_000.0),
    }
}

fn modulation_params() -> ModulationParams<F> {
    ModulationParams {
        mode: ModulationMode::Chorus,
        rate_hz: F(0.8),
        depth: F(0.4),
        color: F(0.45),
        feedback: F(0.2),
        spread: F(0.5),
        tone: F(0.8),
        stages: 6,
    }
}

fn filter_params() -> FilterParams<F> {
    FilterParams {
        cutoff_hz: F(1_200.0),
        resonance: F(0.2),
        mode: FilterMode::LowPass,
        slope: FilterSlope::Db12,
        drive: F(0.0),
    }
}

fn drive_params() -> DriveParams<F> {
    DriveParams {
        drive: F(2.0),
        curve: DriveCurve::Soft,
        tone: F(0.0),
        mix: F(1.0),
        output: F(1.0),
    }
}

fn preamp_params() -> PreampParams<F> {
    PreampParams {
        drive_db: F(0.0),
        voicing: PreampVoicing::Grip,
        mix: F(1.0),
        output_db: F(0.0),
    }
}

fn bitcrush_params() -> BitcrushParams<F> {
    BitcrushParams {
        bits: F(16.0),
        downsample: F(3.0),
        mix: F(1.0),
        style: BitcrushStyle::Crush,
    }
}

fn delay_params() -> DelayParams<F> {
    DelayParams {
        time_ms: F(250.0),
        tempo_sync: false,
        time_division: DelayTimeDivision::quarter(),
        feedback: F(0.35),
        mode: DelayMode::Digital,
        cross: F(0.0),
        tone: F(0.7),
        mix: F(0.35),
    }
}

fn reverb_params() -> ReverbParams<F> {
    ReverbParams {
        size: F(0.5),
        decay_s: F(2.4),
        damping: F(0.38),
        predelay_ms: F(12.0),
        diffusion: F(0.72),
        width: F(1.0),
        modulation: F(0.3),
        low_cut_hz: F(42.0),
    }
}

fn plate_params() -> PlateParams<F> {
    PlateParams {
        size: F(0.5),
        decay_s: F(2.0),
        damping: F(0.4),
        width: F(1.0),
        predelay_ms: F(0.0),
    }
}

fn gate_params() -> GateParams<F> {
    GateParams {
        threshold_db: F(-40.0),
        attack_ms: F(1.0),
        hold_ms: F(50.0),
        release_ms: F(100.0),
        range_db: F(-60.0),
    }
}

fn compressor_params() -> CompressorParams<F> {
    CompressorParams {
        threshold_db: F(-18.0),
        ratio: F(4.0),
        attack_ms: F(10.0),
        release_ms: F(120.0),
        knee_db: F(6.0),
        makeup_db: F(0.0),
        mix: F(1.0),
    }
}

fn limiter_params() -> LimiterParams<F> {
    LimiterParams { ceiling_db: F(-0.3), release_ms: F(100.0), gain_db: F(0.0) }
}

/// Every kind of insert as it arrives.
fn every_kind() -> Vec<(&'static str, Params)> {
    vec![
        ("eq", EffectParams::Eq(eq_params())),
        ("modulation", EffectParams::Modulation(modulation_params())),
        ("filter", EffectParams::Filter(filter_params())),
        ("drive", EffectParams::Drive(drive_params())),
        ("preamp", EffectParams::Preamp(preamp_params())),
        ("bitcrush", EffectParams::Bitcrush(bitcrush_params())),
        ("delay", EffectParams::Delay(delay_params())),
        ("reverb", EffectParams::Reverb(reverb_params())),
        ("plate", EffectParams::Plate(plate_params())),
        ("gate", EffectParams::Gate(gate_params())),
        ("compressor", EffectParams::Compressor(compressor_params())),
        ("bus comp", EffectParams::BusComp(compressor_params())),
        ("limiter", EffectParams::Limiter(limiter_params())),
        ("chain", EffectParams::Chain(())),
        ("layer", EffectParams::Layer(())),
        ("plugin", EffectParams::Plugin(PluginSlotId { raw: 3 })),
    ]
}

fn context(frames: usize) -> ProcessContext {
    ProcessContext { sample_rate: SAMPLE_RATE, frames }
}

fn peak(samples: &[F]) -> f32 {
    samples.iter().fold(0.0f32, |worst, x| worst.max(x.0.abs()))
}

fn bus_peak(bus: &StereoBus<F>) -> f32 {
    peak(&bus.l).max(peak(&bus.r))
}

/// Deterministic broadband noise six decibels under full scale.
fn fill_burst(bus: &mut StereoBus<F>, frames: usize, state: &mut u32) {
    for index in 0..frames {
        let mut next = || {
            *state ^= *state << 13;
            *state ^= *state >> 17;
            *state ^= *state << 5;
            ((*state >> 8) as f32 / 8_388_608.0 - 1.0) * 0.5
        };
        bus.l[index] = F(next());
        bus.r[index] = F(next());
    }
}

/// The host's own decision: a slot may be skipped when its input is silent and
/// either the node's state has settled or it has been fed silence for longer
/// than the tail it declared.
fn may_skip(insert: &Insert, silent_frames: u32) -> bool {
    silent_frames > 0 && (is_at_rest(insert) || silent_frames > tail_frames(insert))
}

#[test]
fn every_effect_kind_is_silent_once_it_says_it_can_be_skipped() {
    const CAP_BLOCKS: usize = 10 * SAMPLE_RATE as usize / BLOCK;
    for (kind, params) in every_kind() {
        let mut insert = build(params);
        let mut bus = StereoBus::with_capacity(BLOCK);
        let mut state = 0x1234_5678;

        // Half a second of noise, so every ring in every device is carrying
        // something when the input stops.
        for _ in 0..(SAMPLE_RATE as usize / 2 / BLOCK) {
            fill_burst(&mut bus, BLOCK, &mut state);
            process(&mut insert, &context(BLOCK), &mut bus);
        }

        let mut silent_frames = 0u32;
        let mut slept_at = None;
        for block in 0..CAP_BLOCKS {
            if may_skip(&insert, silent_frames) {
                slept_at = Some(block);
                break;
            }
            bus.clear(BLOCK);
            process(&mut insert, &context(BLOCK), &mut bus);
            silent_frames = silent_frames.saturating_add(BLOCK as u32);
        }
        let slept_at = slept_at
            .unwrap_or_else(|| panic!("{kind} never reported itself skippable in ten seconds"));

        // Keep processing past the point the host would have stopped.
        for block in 0..64 {
            bus.clear(BLOCK);
            process(&mut insert, &context(BLOCK), &mut bus);
            assert!(
                bus_peak(&bus) <= SILENCE_PEAK,
                "{kind} said it could be skipped after {slept_at} blocks of silence, \
                 then produced {} on block {block} after that",
                bus_peak(&bus)
            );
        }
    }
}

#[test]
fn every_effect_kind_comes_back_where_it_would_have_been() {
    const SILENT_BLOCKS: usize = 10 * SAMPLE_RATE as usize / BLOCK;
    for index in 0..every_kind().len() {
        let render = |skip: bool| {
            let (_, params) = every_kind().swap_remove(index);
            let mut insert = build(params);
            let mut bus = StereoBus::with_capacity(BLOCK);
            let mut state = 0x0bad_c0de;
            let mut out = Vec::with_capacity((SILENT_BLOCKS + 100) * BLOCK);
            let mut silent_frames = 0u32;
            let burst_blocks = SAMPLE_RATE as usize / 2 / BLOCK;
            for block in 0..(burst_blocks * 2 + SILENT_BLOCKS) {
                bus.clear(BLOCK);
                if block < burst_blocks || block >= burst_blocks + SILENT_BLOCKS {
                    fill_burst(&mut bus, BLOCK, &mut state);
                }
                silent_frames = if bus_peak(&bus) <= SILENCE_PEAK {
                    silent_frames.saturating_add(BLOCK as u32)
                } else {
                    0
                };
                if skip && may_skip(&insert, silent_frames) {
                    skip_block(&mut insert, &context(BLOCK));
                } else {
                    process(&mut insert, &context(BLOCK), &mut bus);
                }
                out.extend(bus.l.iter().map(|x| x.0));
            }
            out
        };
        let slept = render(true);
        let ran = render(false);
        let mut worst = 0.0f32;
        let mut worst_at = 0;
        for (at, (a, b)) in slept.iter().zip(&ran).enumerate() {
            if (a - b).abs() > worst {
                worst = (a - b).abs();
                worst_at = at;
            }
        }
        assert!(
            worst <= SILENCE_PEAK,
            "{} came back somewhere else: {worst} at frame {worst_at}",
            every_kind()[index].0
        );
    }
}

#[test]
fn a_dithering_crusher_never_reports_rest_while_its_wet_is_heard() {
    let params = BitcrushParams {
        bits: F(4.0),
        style: BitcrushStyle::Dither,
        mix: F(1.0),
        ..bitcrush_params()
    };
    let mut insert = build(EffectParams::Bitcrush(params));
    let mut bus = StereoBus::with_capacity(BLOCK);
    let mut loudest = 0.0f32;
    for _ in 0..16 {
        bus.clear(BLOCK);
        process(&mut insert, &context(BLOCK), &mut bus);
        loudest = loudest.max(bus_peak(&bus));
        assert!(
            !may_skip(&insert, BLOCK as u32),
            "a dithering crusher reported itself skippable"
        );
    }
    assert!(
        loudest > SILENCE_PEAK,
        "the premise of this test is that dither makes noise out of silence; \
         it produced at most {loudest}"
    );
}

#[test]
fn every_effect_kinds_declared_latency_matches_its_node() {
    for sample_rate in [44_100, 48_000] {
        for (kind, params) in every_kind() {
            let declared = match kind {
                "drive" => 1,
                "limiter" => LIMITER_LATENCY,
                _ => 0,
            };
            let insert: Insert = build_effect(params, sample_rate, &fittings());
            assert_eq!(latency_frames(&insert), declared, "{kind} at {sample_rate} Hz");
        }
    }
}

#[test]
fn a_loop_fold_is_inaudible_in_every_effect_kind_and_a_seek_is_not() {
    let holds_a_tail = ["delay", "modulation", "reverb", "plate"];
    let render_after = |index: usize, told: Option<Discontinuity>| {
        let (_, params) = every_kind().swap_remove(index);
        let mut insert = build(params);
        let mut bus = StereoBus::with_capacity(BLOCK);
        let mut state = 0x5eed_f01d;
        for _ in 0..(SAMPLE_RATE as usize / 2 / BLOCK) {
            fill_burst(&mut bus, BLOCK, &mut state);
            process(&mut insert, &context(BLOCK), &mut bus);
        }
        if let Some(discontinuity) = told {
            on_discontinuity(&mut insert, discontinuity);
        }
        let mut out = Vec::with_capacity(8 * BLOCK);
        for _ in 0..4 {
            bus.clear(BLOCK);
            process(&mut insert, &context(BLOCK), &mut bus);
            out.extend(bus.l.iter().chain(&bus.r).map(|x| x.0));
        }
        out
    };
    let largest_difference = |a: &[f32], b: &[f32]| {
        a.iter().zip(b).fold(0.0f32, |peak, (a, b)| peak.max((a - b).abs()))
    };

    for (index, (kind, _)) in every_kind().iter().enumerate() {
        let untold = render_after(index, None);
        let folded = render_after(index, Some(Discontinuity::LoopFold));
        let moved = largest_difference(&untold, &folded);
        assert!(
            moved == 0.0,
            "{kind} changed its output on a loop fold, by up to {moved}"
        );
        if holds_a_tail.contains(kind) {
            let seeked = render_after(index, Some(Discontinuity::Seek));
            let cleared = largest_difference(&untold, &seeked);
            assert!(
                cleared > 1.0e-3,
                "{kind} sounded the same after a seek as after nothing: {cleared}"
            );
        }
    }
}

/// How far each insert can raise its input, at the corners most likely to add
/// gain.
fn gain_bounds() -> Vec<(&'static str, Params, f32)> {
    let mut bounds: Vec<(&'static str, Params, f32)> = vec![
        (
            "reverb, largest and longest",
            EffectParams::Reverb(ReverbParams {
                size: F(1.0),
                decay_s: F(20.0),
                damping: F(0.0),
                diffusion: F(1.0),
                width: F(1.0),
                ..reverb_params()
            }),
            16.0,
        ),
        ("reverb as it arrives", EffectParams::Reverb(reverb_params()), 10.0),
        (
            "plate, largest and longest",
            EffectParams::Plate(PlateParams {
                size: F(1.0),
                decay_s: F(10.0),
                damping: F(0.0),
                width: F(1.0),
                ..plate_params()
            }),
            12.0,
        ),
        // Silent at the reference level (one bit rounds it to zero) and unity
        // at full scale.
        (
            "bitcrush at one bit",
            EffectParams::Bitcrush(BitcrushParams {
                bits: F(1.0),
                downsample: F(64.0),
                mix: F(1.0),
                ..bitcrush_params()
            }),
            0.1,
        ),
        // Makeup is the user asking for level; with none, it only cuts.
        (
            "compressor at its hardest, no makeup",
            EffectParams::Compressor(CompressorParams {
                threshold_db: F(-60.0),
                ratio: F(20.0),
                attack_ms: F(0.05),
                release_ms: F(5.0),
                knee_db: F(24.0),
                makeup_db: F(0.0),
                mix: F(1.0),
            }),
            0.1,
        ),
        (
            "bus comp at its lowest threshold, no makeup",
            EffectParams::BusComp(CompressorParams {
                threshold_db: F(-40.0),
                makeup_db: F(0.0),
                ..compressor_params()
            }),
            0.1,
        ),
        ("gate", EffectParams::Gate(gate_params()), 0.1),
        // Gain is the user driving it into the ceiling; with none, it only
        // cuts.
        (
            "limiter with no gain",
            EffectParams::Limiter(LimiterParams {
                ceiling_db: F(0.0),
                release_ms: F(1.0),
                gain_db: F(0.0),
            }),
            0.1,
        ),
        // A band's gain is the user's to set; flat, it adds nothing.
        ("EQ as it arrives", EffectParams::Eq(eq_params()), 0.1),
    ];
    // Every modulation mode at the trim's knee and at both ends of the
    // feedback knob. The ceiling is four, and the half decibel over it is for
    // a sweeping delay, which is not quite a static comb.
    for mode in 0..5 {
        for feedback in [0.75, 0.92, -0.92] {
            bounds.push((
                "modulation",
                EffectParams::Modulation(ModulationParams {
                    mode: ModulationMode::from_index(mode),
                    depth: F(1.0),
                    feedback: F(feedback),
                    color: F(1.0),
                    ..modulation_params()
                }),
                12.5,
            ));
        }
    }
    for curve in 0..4 {
        bounds.push((
            "drive at full drive, tone flat",
            EffectParams::Drive(DriveParams {
                drive: F(64.0),
                curve: DriveCurve::from_index(curve),
                tone: F(0.0),
                mix: F(1.0),
                output: F(1.0),
            }),
            2.0,
        ));
    }
    bounds
}

/// A sine of `level` at `freq` through an insert for three seconds; the
/// output's peak over the last second, either side, in dB over `level`.
fn peak_gain_db(mut insert: Insert, level: f32, freq: f32) -> f32 {
    let frames = SAMPLE_RATE as usize * 3;
    let measure_from = SAMPLE_RATE as usize * 2;
    let mut bus = StereoBus::with_capacity(BLOCK);
    let mut worst = 0.0f32;
    let mut n = 0usize;
    while n < frames {
        for i in 0..BLOCK {
            let t = (n + i) as f32 / SAMPLE_RATE as f32;
            let s = F((t * freq * core::f32::consts::TAU).sin() * level);
            bus.l[i] = s;
            bus.r[i] = s;
        }
        process(&mut insert, &context(BLOCK), &mut bus);
        if n >= measure_from {
            worst = worst.max(bus_peak(&bus));
        }
        n += BLOCK;
    }
    20.0 * (worst / level).max(1.0e-12).log10()
}

#[test]
fn every_insert_kind_stays_under_its_gain_bound() {
    let mut past = Vec::new();
    for level in [REFERENCE, 1.0] {
        for freq in [60.0f32, 220.0, 1_000.0, 5_000.0] {
            for (what, params, bound_db) in gain_bounds() {
                let gain = peak_gain_db(build(params), level, freq);
                if gain > bound_db {
                    past.push(format!(
                        "{what}: {gain:+.2} dB at {freq} Hz, level {level:.3} \
                         (bound {bound_db:+.1})"
                    ));
                }
            }
        }
    }
    assert!(past.is_empty(), "past their bounds:\n{}", past.join("\n"));
}

#[test]
fn the_users_own_gain_is_all_the_preamp_adds() {
    // An odd-order profile, driven hard, lines its harmonics up on the crest.
    const VOICING_LIFT_DB: f32 = 3.5;
    let mut past = Vec::new();
    for voicing in [
        PreampVoicing::Moo,
        PreampVoicing::Grip,
        PreampVoicing::Punch,
        PreampVoicing::Iron,
    ] {
        for (drive_db, output_db) in [(24.0f32, 0.0f32), (24.0, 24.0), (0.0, 24.0)] {
            for freq in [220.0f32, 1_000.0] {
                let params = PreampParams {
                    drive_db: F(drive_db),
                    output_db: F(output_db),
                    voicing,
                    mix: F(1.0),
                };
                let gain = peak_gain_db(build(EffectParams::Preamp(params)), REFERENCE, freq);
                if gain > drive_db + output_db + VOICING_LIFT_DB {
                    past.push(format!(
                        "{voicing:?} at +{drive_db}/+{output_db} dB added {gain:+.2} dB at {freq} Hz"
                    ));
                }
            }
        }
    }
    assert!(past.is_empty(), "past the trims:\n{}", past.join("\n"));
}

/// Every insert, with the settings most likely to hold on to what it is fed.
fn every_kind_at_its_stickiest() -> Vec<(&'static str, Params)> {
    let mut kinds: Vec<(&'static str, Params)> = every_kind()
        .into_iter()
        .map(|(kind, params)| {
            let params = match params {
                EffectParams::Compressor(mut p) => {
                    p.threshold_db = F(-40.0);
                    EffectParams::Compressor(p)
                }
                EffectParams::Reverb(mut p) => {
                    p.decay_s = F(20.0);
                    p.size = F(1.0);
                    EffectParams::Reverb(p)
                }
                EffectParams::Plate(mut p) => {
                    p.decay_s = F(10.0);
                    p.size = F(1.0);
                    EffectParams::Plate(p)
                }
                EffectParams::Delay(mut p) => {
                    p.feedback = F(0.95);
                    EffectParams::Delay(p)
                }
                other => other,
            };
            (kind, params)
        })
        .collect();
    for mode in 0..5 {
        kinds.push((
            "modulation",
            EffectParams::Modulation(ModulationParams {
                mode: ModulationMode::from_index(mode),
                feedback: F(0.92),
                ..modulation_params()
            }),
        ));
    }
    kinds
}

#[test]
fn a_nan_in_the_input_is_gone_within_a_block_in_every_insert() {
    for (kind, params) in every_kind_at_its_stickiest() {
        let mut insert = build(params);
        let mut phase = 0usize;
        for block in 0..40 {
            let mut bus = StereoBus::with_capacity(BLOCK);
            for index in 0..BLOCK {
                let s = (phase as f32 * 440.0 / SAMPLE_RATE as f32 * core::f32::consts::TAU)
                    .sin()
                    * 0.25;
                bus.l[index] = F(s);
                bus.r[index] = F(s);
                phase += 1;
            }
            if block == 1 {
                bus.l[100] = F(f32::NAN);
                bus.r[100] = F(f32::INFINITY);
            }
            process(&mut insert, &context(BLOCK), &mut bus);
            if block >= 2 {
                assert!(
                    bus.l.iter().chain(&bus.r).all(|x| x.0.is_finite()),
                    "{kind}: block {block} still carries the NaN"
                );
            }
            if block == 39 {
                assert!(bus_peak(&bus) > 0.0, "{kind} fell silent");
            }
        }
    }
}

#[test]
fn a_synced_delay_takes_its_time_from_the_tempo() {
    let synced = DelayParams {
        tempo_sync: true,
        time_division: DelayTimeDivision::dotted_eighth(),
        ..delay_params()
    };
    let time_at = |params: DelayParams<F>, bpm: f32| {
        let insert: Insert = build_effect_at_tempo(
            EffectParams::Delay(params),
            SAMPLE_RATE,
            F(bpm),
            &fittings(),
        );
        match insert {
            Effect::Delay(e) => e.params().time_ms.0,
            _ => panic!("not a delay"),
        }
    };
    assert_eq!(time_at(synced, 120.0), 375.0);
    assert_eq!(time_at(synced, 60.0), 750.0);
    assert_eq!(time_at(delay_params(), 60.0), 250.0);
}

#[test]
fn a_container_and_a_plugin_slot_are_passed_through() {
    for params in [EffectParams::Layer(()), EffectParams::Plugin(PluginSlotId { raw: 3 })] {
        let mut insert = build(params);
        let mut bus = StereoBus::with_capacity(BLOCK);
        let mut state = 1;
        fill_burst(&mut bus, BLOCK, &mut state);
        let before = bus.l.clone();
        process(&mut insert, &context(BLOCK), &mut bus);
        assert_eq!(bus.l, before);
    }
}

/// The kinds whose bound is pinned somewhere other than [`gain_bounds`].
const GAIN_ELSEWHERE: [(&str, &str); 6] = [
    ("filter", "no_mode_slope_or_resonance_peaks_past_its_bound"),
    ("delay", "maximum_feedback_on_a_loud_input_stays_bounded"),
    ("preamp", "the_users_own_gain_is_all_the_preamp_adds"),
    ("chain", "a container's node passes its input through"),
    ("layer", "a container's node passes its input through"),
    ("plugin", "a plugin slot's node passes its input through"),
];

fn kind_of(params: &Params) -> &'static str {
    match params {
        EffectParams::Eq(_) => "eq",
        EffectParams::Modulation(_) => "modulation",
        EffectParams::Filter(_) => "filter",
        EffectParams::Drive(_) => "drive",
        EffectParams::Preamp(_) => "preamp",
        EffectParams::Bitcrush(_) => "bitcrush",
        EffectParams::Delay(_) => "delay",
        EffectParams::Reverb(_) => "reverb",
        EffectParams::Plate(_) => "plate",
        EffectParams::Gate(_) => "gate",
        EffectParams::Compressor(_) => "compressor",
        EffectParams::BusComp(_) => "bus comp",
        EffectParams::Limiter(_) => "limiter",
        EffectParams::Chain(_) => "chain",
        EffectParams::Layer(_) => "layer",
        EffectParams::Plugin(_) => "plugin",
    }
}

#[test]
fn every_insert_kind_has_a_gain_bound() {
    let bounded: Vec<&str> = gain_bounds().iter().map(|(_, params, _)| kind_of(params)).collect();
    for (kind, params) in every_kind() {
        assert_eq!(kind, kind_of(&params));
        assert!(
            bounded.contains(&kind)
                || GAIN_ELSEWHERE.iter().any(|(elsewhere, _)| *elsewhere == kind),
            "{kind} has no gain bound and no note saying where it is decided"
        );
    }
}

#[test]
fn no_effect_kinds_descriptor_table_exceeds_the_curve_frames_capacity() {
    let tables = [
        ("eq", EQ_DESCRIPTOR_COUNT),
        ("modulation", MODULATION_PARAM_STAGES + 1),
        ("filter", FILTER_PARAM_DRIVE + 1),
        ("drive", DRIVE_PARAM_OUTPUT + 1),
        ("preamp", PREAMP_PARAM_OUTPUT_DB + 1),
        ("bitcrush", BITCRUSH_PARAM_STYLE + 1),
        ("delay", DELAY_PARAM_MIX + 1),
        ("reverb", REVERB_PARAM_LOW_CUT_HZ + 1),
        ("plate", PLATE_PARAM_PREDELAY_MS + 1),
        ("gate", GATE_PARAM_RANGE_DB + 1),
        ("compressor", COMP_PARAM_MIX + 1),
        ("limiter", LIMITER_PARAM_GAIN_DB + 1),
    ];
    for (kind, count) in tables {
        assert!(
            count as usize <= MAX_NODE_CURVE_DESTINATIONS,
            "{kind} has {count} descriptors, more than {MAX_NODE_CURVE_DESTINATIONS}"
        );
    }
}
