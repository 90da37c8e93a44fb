use mooloop_dsp::curves::Curves;
use mooloop_dsp::filter::{
    apply_drive, apply_drive_compensated, drive_compensation, four_poles, soft_ceiling,
    three_poles, Acid, AllPass, Cascade, Ladder, OnePoleHp, OnePoleLp, PreDrive, Svf, SvfCoeffs,
};
use mooloop_dsp::num::{Fixed, Sample};

#[derive(Clone, Copy, Debug, PartialEq, PartialOrd)]
struct F(f32);

impl Sample for F {
    fn add(self, other: Self) -> Self {
        F(self.0 + other.0)
    }
    fn sub(self, other: Self) -> Self {
        F(self.0 - other.0)
    }
    fn mul(self, other: Self) -> Self {
        F(self.0 * other.0)
    }
    fn div(self, other: Self) -> Self {
        F(self.0 / other.0)
    }
    fn neg(self) -> Self {
        F(-self.0)
    }
    fn abs(self) -> Self {
        F(self.0.abs())
    }
    fn of(count: usize) -> Self {
        F(count as f32)
    }
    fn whole(self) -> usize {
        self.0 as usize
    }
    fn round(self) -> Self {
        F(self.0.round())
    }
    fn ceil(self) -> Self {
        F(self.0.ceil())
    }
    fn lt(self, other: Self) -> bool {
        self.0 < other.0
    }
    fn le(self, other: Self) -> bool {
        self.0 <= other.0
    }
    fn equals(self, other: Self) -> bool {
        self.0 == other.0
    }
    fn same(self, other: Self) -> bool {
        self.0.to_bits() == other.0.to_bits()
    }
    fn is_finite(self) -> bool {
        self.0.is_finite()
    }
}

impl Curves for F {
    fn pi() -> Self {
        F(core::f32::consts::PI)
    }
    fn sqrt(self) -> Self {
        F(self.0.sqrt())
    }
    fn sin(self) -> Self {
        F(self.0.sin())
    }
    fn cos(self) -> Self {
        F(self.0.cos())
    }
    fn tan(self) -> Self {
        F(self.0.tan())
    }
    fn tanh(self) -> Self {
        F(self.0.tanh())
    }
    fn exp(self) -> Self {
        F(self.0.exp())
    }
    fn exp2(self) -> Self {
        F(self.0.exp2())
    }
    fn ln(self) -> Self {
        F(self.0.ln())
    }
    fn log2(self) -> Self {
        F(self.0.log2())
    }
    fn log10(self) -> Self {
        F(self.0.log10())
    }
    fn powf(self, exponent: Self) -> Self {
        F(self.0.powf(exponent.0))
    }
}

const SR: u32 = 48_000;

const RATES: [u32; 4] = [44_100, 48_000, 96_000, 192_000];

/// The operating level drive is anchored at: twelve decibels under full scale.
const REFERENCE: f32 = 0.251_188_64;

const EPSILON: F = F(1.0e-6);

fn db(gain: f32) -> f32 {
    20.0 * gain.max(1.0e-12).log10()
}

fn peak(samples: &[f32]) -> f32 {
    samples.iter().fold(0.0_f32, |worst, x| worst.max(x.abs()))
}

fn rms(samples: &[f32]) -> f32 {
    let sum: f64 = samples.iter().map(|&x| x as f64 * x as f64).sum();
    (sum / samples.len() as f64).sqrt() as f32
}

fn all_finite(samples: &[f32]) -> bool {
    samples.iter().all(|x| x.is_finite())
}

fn sine(freq: f32, amplitude: f32, sr: u32, frames: usize) -> Vec<f32> {
    (0..frames)
        .map(|i| {
            let phase = core::f64::consts::TAU * freq as f64 * i as f64 / sr as f64;
            phase.sin() as f32 * amplitude
        })
        .collect()
}

/// The magnitude of one frequency in a signal.
fn tone(samples: &[f32], sr: u32, freq: f32) -> f32 {
    let (mut re, mut im) = (0.0_f64, 0.0_f64);
    for (i, &x) in samples.iter().enumerate() {
        let phase = core::f64::consts::TAU * freq as f64 * i as f64 / sr as f64;
        re += x as f64 * phase.cos();
        im += x as f64 * phase.sin();
    }
    (2.0 * (re * re + im * im).sqrt() / samples.len() as f64) as f32
}

/// Harmonic energy over the fundamental.
fn thd(samples: &[f32], sr: u32, freq: f32) -> f32 {
    let fundamental = tone(samples, sr, freq);
    let harmonics: f32 = (2..12)
        .map(|n| tone(samples, sr, freq * n as f32))
        .map(|x| x * x)
        .sum();
    harmonics.sqrt() / fundamental
}

/// A small sine through a filter, its steady state measured.
struct Probe {
    sr: u32,
    amplitude: f32,
}

impl Probe {
    fn new(sr: u32) -> Self {
        Probe { sr, amplitude: 1.0e-3 }
    }

    /// The steady state: whole periods, after the transient.
    fn run(&self, mut filter: impl FnMut(f32) -> f32, freq: f32) -> Vec<f32> {
        let settle = self.sr as usize / 10 + (self.sr as f32 * 6.0 / freq) as usize;
        let period = self.sr as f64 / freq as f64;
        let periods = (self.sr as f64 * 0.05 / period).ceil().max(8.0);
        let window = (periods * period).round() as usize;
        let input = sine(freq, self.amplitude, self.sr, settle + window);
        let out: Vec<f32> = input.iter().map(|&x| filter(x)).collect();
        out[settle..].to_vec()
    }

    fn gain_db(&self, filter: impl FnMut(f32) -> f32, freq: f32) -> f32 {
        db(tone(&self.run(filter, freq), self.sr, freq) / self.amplitude)
    }

    fn peak_gain_db(&self, filter: impl FnMut(f32) -> f32, freq: f32) -> f32 {
        db(peak(&self.run(filter, freq)) / self.amplitude)
    }
}

fn cents(a: f32, b: f32) -> f32 {
    1_200.0 * (a / b).log2()
}

/// Where a falling response crosses a level, by halving an interval.
fn crossing_hz(at: impl Fn(f32) -> f32, level: f32, low: f32, high: f32) -> f32 {
    let (mut low, mut high) = (low, high);
    for _ in 0..14 {
        let middle = (low * high).sqrt();
        if at(middle) > level {
            low = middle;
        } else {
            high = middle;
        }
    }
    (low * high).sqrt()
}

/// A bounded saturation that bends one way more than the other.
fn tape(x: F) -> F {
    if x.0 < 0.0 {
        F(x.0.tanh())
    } else {
        F(x.0 / (1.0 + x.0))
    }
}

fn svf_next(svf: &mut Svf<F>, x: f32, cutoff: f32, resonance: f32, sr: u32) -> f32 {
    svf.next_sample(F(x), F(cutoff), F(resonance), sr).0
}

fn ladder_next(ladder: &mut Ladder<F>, x: f32, cutoff: f32, resonance: f32, sr: u32) -> f32 {
    ladder.next_sample(F(x), F(cutoff), F(resonance), sr).0
}

fn acid_next(acid: &mut Acid<F>, x: f32, cutoff: f32, resonance: f32, sr: u32) -> f32 {
    acid.next_sample(F(x), F(cutoff), F(resonance), sr, tape).0
}

fn ladder_response_db(cutoff: f32, resonance: f32, freq: f32) -> f32 {
    let mut ladder = Ladder::new();
    Probe::new(SR).peak_gain_db(|x| ladder_next(&mut ladder, x, cutoff, resonance, SR), freq)
}

fn acid_response_db(cutoff: f32, resonance: f32, freq: f32) -> f32 {
    let mut acid = Acid::new();
    Probe::new(SR).peak_gain_db(|x| acid_next(&mut acid, x, cutoff, resonance, SR), freq)
}

fn svf_response_db(cutoff: f32, resonance: f32, freq: f32) -> f32 {
    let mut svf = Svf::new();
    Probe::new(SR).peak_gain_db(|x| svf_next(&mut svf, x, cutoff, resonance, SR), freq)
}

#[test]
fn the_svf_is_its_transfer_function_at_every_rate() {
    for sr in RATES {
        let probe = Probe::new(sr);
        for cutoff in [100.0_f32, 1_000.0, 5_000.0, 15_000.0] {
            for resonance in [0.0_f32, 0.5, 0.9, 1.0] {
                let coeffs = SvfCoeffs::for_cutoff(F(cutoff), F(resonance), sr);
                for ratio in [0.25_f32, 0.5, 0.9, 1.0, 1.1, 2.0, 4.0] {
                    let freq = cutoff * ratio;
                    if freq > sr as f32 * 0.45 {
                        continue;
                    }
                    let w = ((core::f64::consts::PI * freq as f64 / sr as f64).tan()
                        / coeffs.g.0 as f64) as f32;
                    let denominator =
                        ((1.0 - w * w).powi(2) + (coeffs.damping.0 * w).powi(2)).sqrt();
                    let math = [1.0 / denominator, w / denominator, w * w / denominator];
                    for (output, expected) in math.iter().enumerate() {
                        let expected = db(*expected);
                        if expected < -60.0 {
                            continue;
                        }
                        let mut svf = Svf::new();
                        let measured = probe.gain_db(
                            |x| {
                                let (low, band, high) =
                                    svf.next_sample_lp_bp_hp(F(x), F(cutoff), F(resonance), sr);
                                [low.0, band.0, high.0][output]
                            },
                            freq,
                        );
                        assert!(
                            (measured - expected).abs() < 0.05,
                            "{sr} Hz, cutoff {cutoff}, resonance {resonance}, output \
                             {output} at {freq} Hz: measured {measured:.3} dB, math \
                             {expected:.3} dB"
                        );
                    }
                }
            }
        }
    }
}

#[test]
fn corners_are_one_frequency_at_every_rate() {
    const TOLERANCE_CENTS: f32 = 5.0;
    const STATED_TOLERANCE_CENTS: f32 = 10.0;
    let spread = |cascade: Cascade| cascade.spread.0 as f32 / cascade.spread.1 as f32;
    // (model, dB below the passband at the corner, corner over cutoff)
    let models: [(&str, f32, f32); 3] = [
        ("Svf", 6.0206, 1.0),
        ("Ladder", 3.0103, 1.5538 * spread(four_poles())),
        ("Acid", 3.0103, 0.8 * spread(three_poles())),
    ];
    let fresh = |model: &str, cutoff: f32, sr: u32| -> Box<dyn FnMut(f32) -> f32> {
        match model {
            "Svf" => {
                let mut f = Svf::new();
                Box::new(move |x| svf_next(&mut f, x, cutoff, 0.0, sr))
            }
            "Ladder" => {
                let mut f = Ladder::new();
                Box::new(move |x| ladder_next(&mut f, x, cutoff, 0.0, sr))
            }
            _ => {
                let mut f = Acid::new();
                Box::new(move |x| acid_next(&mut f, x, cutoff, 0.0, sr))
            }
        }
    };
    let gain_db = |model: &str, cutoff: f32, sr: u32, freq: f32| -> f32 {
        Probe::new(sr).gain_db(fresh(model, cutoff, sr), freq)
    };
    let dc_gain_db = |model: &str, cutoff: f32, sr: u32| -> f32 {
        let mut filter = fresh(model, cutoff, sr);
        let level = Probe::new(sr).amplitude;
        let mut out = 0.0;
        for _ in 0..sr {
            out = filter(level);
        }
        db(out / level)
    };
    for (model, depth, ratio) in models {
        for cutoff in [200.0_f32, 1_000.0, 5_000.0] {
            let low = cutoff * ratio / 8.0;
            let mut at_48k = None;
            for sr in [48_000].into_iter().chain(RATES.into_iter().filter(|&r| r != 48_000)) {
                let passband = dc_gain_db(model, cutoff, sr);
                let corner = crossing_hz(
                    |f| gain_db(model, cutoff, sr, f),
                    passband - depth,
                    low,
                    cutoff * ratio * 4.0,
                );
                let reference = *at_48k.get_or_insert(corner);
                assert!(
                    cents(corner, reference).abs() < TOLERANCE_CENTS,
                    "{model}, cutoff {cutoff} Hz: -3 dB at {corner:.1} Hz at {sr} Hz, \
                     {reference:.1} Hz at 48 kHz"
                );
                assert!(
                    cents(corner, cutoff * ratio).abs() < STATED_TOLERANCE_CENTS,
                    "{model}, cutoff {cutoff} Hz at {sr} Hz: -3 dB at {corner:.1} Hz, \
                     stated {:.1} Hz",
                    cutoff * ratio
                );
            }
        }
    }
}

#[test]
fn cascade_constants_are_their_formulas() {
    for (cascade, stages) in [(four_poles(), 4.0_f64), (three_poles(), 3.0)] {
        let r = 2.0_f64.powf(-1.0 / stages);
        let spread = (2.0_f64.powf(1.0 / stages) - 1.0).sqrt();
        let held = |fraction: (usize, usize)| (fraction.0 as f32 / fraction.1 as f32) as f64;
        assert!((held(cascade.spread) - spread).abs() < 1.0e-6);
        assert!((held(cascade.share) - r / (1.0 - r)).abs() < 1.0e-5);
    }
}

#[test]
fn a_non_finite_parameter_never_poisons_a_filter() {
    for sr in RATES {
        let input = sine(440.0, 0.5, sr, 2_048);
        for value in [f32::NAN, f32::INFINITY, f32::NEG_INFINITY] {
            let mut out = Vec::new();
            let (mut svf, mut ladder, mut acid) = (Svf::new(), Ladder::new(), Acid::new());
            let (mut lp, mut hp, mut pre) =
                (OnePoleLp::new(), OnePoleHp::new(), PreDrive::new());
            lp.set_cutoff(F(value), sr);
            hp.set_cutoff(F(value), sr);
            for &x in &input {
                out.push(svf_next(&mut svf, x, value, 0.5, sr));
                out.push(svf_next(&mut svf, x, 1_000.0, value, sr));
                out.push(ladder_next(&mut ladder, x, value, value, sr));
                out.push(acid_next(&mut acid, x, value, value, sr));
                out.push(lp.next_sample(F(x)).0);
                out.push(hp.next_sample(F(x)).0);
                out.push(apply_drive(F(x), F(value), F(REFERENCE)).0);
                out.push(pre.next_sample(F(x), F(value), sr).0);
            }
            assert!(all_finite(&out), "{sr} Hz: a parameter of {value} poisoned a filter");
        }
    }
}

#[test]
fn a_poisoned_filter_is_never_at_rest_and_reset_clears_it() {
    for sr in RATES {
        let mut svf = Svf::new();
        let mut lp = OnePoleLp::new();
        lp.set_cutoff(F(1_000.0), sr);
        svf_next(&mut svf, f32::NAN, 1_000.0, 0.5, sr);
        lp.next_sample(F(f32::NAN));
        assert!(!svf.is_at_rest(EPSILON) && !lp.is_at_rest(EPSILON));
        svf.reset();
        lp.reset();
        assert!(svf.is_at_rest(EPSILON) && lp.is_at_rest(EPSILON));
        assert!(svf_next(&mut svf, 0.5, 1_000.0, 0.5, sr).is_finite());
        assert!(lp.next_sample(F(0.5)).0.is_finite());
    }
}

#[test]
fn the_ladder_rolls_off_twice_as_steeply_as_the_svf() {
    let cutoff = 500.0;
    let fall = |at: &dyn Fn(f32, f32, f32) -> f32| {
        at(cutoff, 0.0, cutoff * 2.0) - at(cutoff, 0.0, cutoff * 8.0)
    };
    let ladder = fall(&ladder_response_db);
    let svf = fall(&svf_response_db);

    // Two octaves, so an ideal 24 dB/oct is 48 dB and 12 dB/oct is 24.
    assert!(
        (34.0..50.0).contains(&ladder),
        "ladder fell {ladder:.1} dB over two octaves, wanted roughly 48"
    );
    assert!(
        ladder > svf * 1.6,
        "ladder {ladder:.1} dB vs svf {svf:.1} dB is not a slope difference"
    );
}

#[test]
fn the_ladder_corner_matches_the_svf_corner() {
    for cutoff in [200.0_f32, 1000.0, 4000.0] {
        let ladder = ladder_response_db(cutoff, 0.0, cutoff / 8.0)
            - ladder_response_db(cutoff, 0.0, cutoff);
        let svf = svf_response_db(cutoff, 0.0, cutoff / 8.0) - svf_response_db(cutoff, 0.0, cutoff);
        assert!(
            (ladder - svf).abs() < 1.5,
            "at {cutoff} Hz the ladder is {ladder:.1} dB down and the svf {svf:.1} dB"
        );
    }
}

/// The tallest point of the response, wherever it sits.
fn resonant_peak_db(at: &dyn Fn(f32, f32, f32) -> f32, cutoff: f32, resonance: f32) -> f32 {
    let passband = at(cutoff, 0.0, cutoff / 16.0);
    let mut best = f32::MIN;
    for step in 0..24 {
        let mult = 2.0_f32.powf(-1.0 + step as f32 * 2.0 / 23.0);
        best = best.max(at(cutoff, resonance, cutoff * mult) - passband);
    }
    best
}

fn assert_resonance_taper(name: &str, at: &dyn Fn(f32, f32, f32) -> f32) {
    for cutoff in [100.0_f32, 500.0, 2000.0] {
        let peaks: Vec<f32> = [0.0, 0.3, 0.5, 0.7, 0.85, 1.0]
            .iter()
            .map(|reso| resonant_peak_db(at, cutoff, *reso))
            .collect();
        assert!(
            peaks.windows(2).all(|pair| pair[1] > pair[0]),
            "{name} at {cutoff} Hz has a non-monotonic resonance taper: {peaks:?}"
        );
        assert!(
            peaks[5] - peaks[0] > 14.0,
            "{name} at {cutoff} Hz covers only {:.1} dB across the knob: {peaks:?}",
            peaks[5] - peaks[0]
        );
        assert!(peaks.iter().all(|peak| peak.is_finite()));
    }
}

#[test]
fn ladder_resonance_climbs_smoothly_across_the_cutoff_range() {
    assert_resonance_taper("ladder", &ladder_response_db);
}

#[test]
fn acid_resonance_climbs_smoothly_across_the_cutoff_range() {
    assert_resonance_taper("acid", &acid_response_db);
}

#[test]
fn the_acid_slope_sits_between_the_svf_and_the_ladder() {
    let cutoff = 500.0;
    let fall = |at: &dyn Fn(f32, f32, f32) -> f32| {
        at(cutoff, 0.0, cutoff * 2.0) - at(cutoff, 0.0, cutoff * 8.0)
    };
    let svf = fall(&svf_response_db);
    let acid = fall(&acid_response_db);
    let ladder = fall(&ladder_response_db);
    assert!(
        svf < acid && acid < ladder,
        "wanted svf < acid < ladder, got {svf:.1} / {acid:.1} / {ladder:.1} dB"
    );
}

#[test]
fn the_ladder_and_the_acid_are_audibly_distinct() {
    let cutoff = 800.0;
    let mut widest = 0.0_f32;
    for reso in [0.2_f32, 0.6, 0.9] {
        for mult in [0.5_f32, 1.0, 2.0, 4.0] {
            let ladder = ladder_response_db(cutoff, reso, cutoff * mult);
            let acid = acid_response_db(cutoff, reso, cutoff * mult);
            widest = widest.max((ladder - acid).abs());
        }
    }
    assert!(widest > 8.0, "the two models never differ by more than {widest:.1} dB");
}

#[test]
fn the_acid_stays_bounded_under_a_swept_resonant_sweep() {
    let mut acid = Acid::new();
    let mut peak = 0.0_f32;
    for i in 0..SR as usize {
        let t = i as f32 / SR as f32;
        let input = (t * 110.0 * core::f32::consts::TAU).sin() * 4.0;
        let cutoff = 200.0 + 6000.0 * (t * 40.0).sin().abs();
        let out = acid_next(&mut acid, input, cutoff, 1.0, SR);
        peak = peak.max(out.abs());
    }
    assert!(peak.is_finite(), "acid went non-finite");
    assert!(peak <= 1.0, "acid peaked at {peak}");
}

#[test]
fn the_ladder_stays_bounded_under_a_swept_resonant_sweep() {
    let mut ladder = Ladder::new();
    let mut peak = 0.0_f32;
    for i in 0..SR as usize {
        let t = i as f32 / SR as f32;
        let input = (t * 110.0 * core::f32::consts::TAU).sin() * 4.0;
        let cutoff = 200.0 + 6000.0 * (t * 40.0).sin().abs();
        let out = ladder_next(&mut ladder, input, cutoff, 1.0, SR);
        peak = peak.max(out.abs());
    }
    assert!(peak.is_finite(), "ladder went non-finite");
    assert!(peak <= 1.0, "ladder peaked at {peak}");
}

#[test]
fn pre_drive_holds_its_level_across_the_knob_at_any_input_level() {
    for level in [0.05_f32, 0.25, 1.0, 2.5] {
        let levels: Vec<f32> = [0.0_f32, 0.5, 1.0]
            .iter()
            .map(|drive| {
                let mut stage = PreDrive::new();
                let probe = Probe { sr: SR, amplitude: level };
                rms(&probe.run(|x| stage.next_sample(F(x), F(*drive), SR).0, 220.0))
            })
            .collect();
        let quietest = levels.iter().cloned().fold(f32::MAX, f32::min);
        let loudest = levels.iter().cloned().fold(0.0_f32, f32::max);
        let spread_db = 20.0 * (loudest / quietest).log10();
        assert!(
            spread_db < 1.0,
            "at input level {level} the drive knob moved the level {spread_db:.1} dB"
        );
    }
}

#[test]
fn pre_drive_gets_dirtier_as_the_input_grows() {
    fn harmonic_ratio(level: f32) -> f32 {
        let mut stage = PreDrive::new();
        let mut fundamental = 0.0_f32;
        let mut total = 0.0_f32;
        let frames = SR as usize / 4;
        for i in 0..frames {
            let phase = core::f32::consts::TAU * 220.0 * i as f32 / SR as f32;
            let out = stage.next_sample(F(phase.sin() * level), F(1.0), SR).0;
            if i > frames / 2 {
                fundamental += out * phase.sin();
                total += out * out;
            }
        }
        // Energy not explained by the fundamental, relative to the whole.
        let frames = (frames / 2) as f32;
        let correlated = 2.0 * fundamental / frames;
        (total / frames - correlated * correlated / 2.0).max(0.0) / (total / frames)
    }

    let quiet = harmonic_ratio(0.1);
    let loud = harmonic_ratio(2.0);
    assert!(
        loud > quiet * 1.5,
        "input level did not change the harmonic content: {quiet:.4} -> {loud:.4}"
    );
}

#[test]
fn the_voice_ceiling_is_transparent_until_it_is_needed() {
    for sample in [0.0_f32, 0.25, -0.7, 1.0, -1.4999] {
        assert_eq!(soft_ceiling(F(sample)), F(sample), "bent a normal level");
    }
    for sample in [2.0_f32, -4.5, 40.0, -1000.0] {
        let bounded = soft_ceiling(F(sample)).0;
        assert!(bounded.abs() <= 2.5, "{sample} escaped to {bounded}");
        assert_eq!(bounded.signum(), sample.signum());
    }
    assert_eq!(soft_ceiling(F(2.0)).0, 1.5 + 0.5_f32.tanh());
    assert!(soft_ceiling(F(f32::NAN)).0.is_nan());
}

#[test]
fn pre_drive_at_zero_is_a_pass_through() {
    let mut stage = PreDrive::new();
    for sample in [0.0_f32, 0.3, -0.9, 2.0] {
        assert_eq!(stage.next_sample(F(sample), F(0.0), SR), F(sample));
    }
}

#[test]
fn tick_with_matches_the_wrapper_bit_for_bit() {
    let sr = 48_000;
    let cutoff = 1_234.5_f32;
    let resonance = 0.6_f32;

    let mut via_wrapper = Svf::new();
    let mut via_coeffs = Svf::new();
    let coeffs = SvfCoeffs::for_cutoff(F(cutoff), F(resonance), sr);

    for i in 0..256 {
        let input = (i as f32 * 0.037).sin();
        let wrapped = via_wrapper.next_sample_lp_bp_hp(F(input), F(cutoff), F(resonance), sr);
        let direct = via_coeffs.tick_with(F(input), &coeffs);
        assert_eq!(wrapped, direct, "sample {i} diverged");
    }
}

#[test]
fn the_two_output_wrapper_leaves_out_the_band_pass() {
    let mut two = Svf::new();
    let mut three = Svf::new();
    for i in 0..64 {
        let input = F((i as f32 * 0.2).sin());
        let (low, high) = two.next_sample_lp_hp(input, F(900.0), F(0.3), SR);
        let all = three.next_sample_lp_bp_hp(input, F(900.0), F(0.3), SR);
        assert_eq!((low, high), (all.0, all.2));
    }
}

#[test]
fn svf_coeffs_lerp_hits_its_endpoints_and_midpoint() {
    let sr = 48_000;
    let a = SvfCoeffs::for_cutoff(F(200.0), F(0.0), sr);
    let b = SvfCoeffs::for_cutoff(F(8_000.0), F(0.9), sr);

    assert_eq!(a.lerp(&b, F(0.0)), a);
    assert_eq!(a.lerp(&b, F(1.0)), b);

    let mid = a.lerp(&b, F(0.5));
    assert!((mid.g.0 - (a.g.0 + b.g.0) / 2.0).abs() < 1.0e-6);
    assert!((mid.a1.0 - (a.a1.0 + b.a1.0) / 2.0).abs() < 1.0e-6);
    assert!((mid.a2.0 - (a.a2.0 + b.a2.0) / 2.0).abs() < 1.0e-6);
    assert!((mid.a3.0 - (a.a3.0 + b.a3.0) / 2.0).abs() < 1.0e-6);
    assert!((mid.damping.0 - (a.damping.0 + b.damping.0) / 2.0).abs() < 1.0e-6);
}

#[test]
fn low_cutoff_attenuates_high_frequencies() {
    let sr = 48_000;
    let mut filter = Svf::new();
    // Feed a 10 kHz sine through a 100 Hz filter.
    let mut peak = 0.0_f32;
    for i in 0..sr as usize {
        let t = i as f32 / sr as f32;
        let input = (t * 10_000.0 * core::f32::consts::TAU).sin();
        let out = svf_next(&mut filter, input, 100.0, 0.0, sr);
        // Skip the transient.
        if i > sr as usize / 2 {
            peak = peak.max(out.abs());
        }
    }
    assert!(peak < 0.02, "peak {peak}");
}

#[test]
fn resonant_filter_remains_finite() {
    let sr = 48_000;
    let mut filter = Svf::new();
    for i in 0..20_000 {
        let input = if i == 0 { 1.0 } else { 0.0 };
        let out = svf_next(&mut filter, input, 5_000.0, 1.0, sr);
        assert!(out.is_finite());
    }
}

#[test]
fn high_pass_removes_dc() {
    let sr = 48_000;
    let mut filter = OnePoleHp::new();
    filter.set_cutoff(F(1_000.0), sr);
    let mut last = F(0.0);
    for _ in 0..sr as usize {
        last = filter.next_sample(F(1.0));
    }
    assert!(last.0.abs() < 0.01, "dc residue {last:?}");
    filter.reset();
    assert_eq!(filter.next_sample(F(1.0)), F(1.0));
}

#[test]
fn drive_bypasses_at_zero() {
    assert_eq!(apply_drive(F(0.25), F(0.0), F(REFERENCE)), F(0.25));
    assert_eq!(drive_compensation(F(0.0), F(REFERENCE)), F(1.0));
    assert_eq!(apply_drive_compensated(F(0.25), F(0.0), F(9.0)), F(0.25));
}

#[test]
fn drive_changes_character_not_level_at_the_reference() {
    const FREQ: f32 = 100.0;

    for sr in RATES {
        let input = sine(FREQ, REFERENCE, sr, sr as usize / 10);
        let mut previous_thd = 0.0f32;
        for drive in [0.2f32, 0.5, 0.9] {
            let out: Vec<f32> =
                input.iter().map(|&x| apply_drive(F(x), F(drive), F(REFERENCE)).0).collect();

            let peak = peak(&out);
            assert!(
                (peak - REFERENCE).abs() < REFERENCE * 0.02,
                "{sr} Hz: drive {drive} moved the peak to {peak}"
            );
            let thd = thd(&out, sr, FREQ);
            assert!(
                thd > previous_thd,
                "{sr} Hz: harmonic content did not grow with drive: {drive} -> {thd}"
            );
            previous_thd = thd;
        }
    }
}

#[test]
fn one_pole_lp_attenuates_high_frequencies() {
    let sr = 48_000;
    let mut filter = OnePoleLp::new();
    filter.set_cutoff(F(200.0), sr);
    let mut peak = 0.0f32;
    for i in 0..sr as usize {
        let t = i as f32 / sr as f32;
        let input = (t * 8_000.0 * core::f32::consts::TAU).sin();
        let out = filter.next_sample(F(input)).0;
        if i > sr as usize / 2 {
            peak = peak.max(out.abs());
        }
    }
    assert!(peak < 0.05, "peak {peak}");
}

#[test]
fn one_pole_lp_passes_dc() {
    let sr = 48_000;
    let mut filter = OnePoleLp::new();
    filter.set_cutoff(F(1_000.0), sr);
    let mut last = F(0.0);
    for _ in 0..sr as usize {
        last = filter.next_sample(F(1.0));
    }
    assert!((last.0 - 1.0).abs() < 0.01, "dc settled at {last:?}");
}

#[test]
fn set_coeff_matches_the_equivalent_set_cutoff() {
    let sr = 48_000;
    let mut via_cutoff = OnePoleLp::new();
    via_cutoff.set_cutoff(F(1_000.0), sr);
    let mut via_coeff = OnePoleLp::new();
    via_coeff.set_coeff(F(1.0 - (-core::f32::consts::TAU * 1_000.0 / sr as f32).exp()));
    for i in 0..64 {
        let input = F((i as f32 * 0.1).sin());
        assert_eq!(via_cutoff.next_sample(input), via_coeff.next_sample(input));
    }
}

#[test]
fn all_pass_preserves_energy_but_shifts_phase() {
    let mut filter = AllPass::new();
    let frames = 4_096;
    let coefficient = 0.5;
    let mut energy_in = 0.0f32;
    let mut energy_out = 0.0f32;
    let mut differs = false;
    for i in 0..frames {
        let input = (i as f32 * 0.05).sin();
        let output = filter.next(F(input), F(coefficient)).0;
        if i > 64 {
            energy_in += input * input;
            energy_out += output * output;
            if (input - output).abs() > 1e-3 {
                differs = true;
            }
        }
    }
    assert!(
        (energy_in - energy_out).abs() < energy_in * 0.05,
        "all-pass should preserve energy: in {energy_in}, out {energy_out}"
    );
    assert!(differs, "all-pass should shift phase, not pass through unchanged");
}

#[test]
fn the_published_feedback_is_the_one_the_loop_uses() {
    let g = four_poles().coeff_for(F(1_000.0), F(1.5538), F(48_000.0)).0;
    assert_eq!(
        Ladder::feedback_at(F(1_000.0), F(0.5), SR).0,
        0.5 * 4.3 * (1.0 + 1.5 * g)
    );
    let g = three_poles().coeff_for(F(1_000.0), F(0.8), F(48_000.0)).0;
    assert_eq!(
        Acid::feedback_at(F(1_000.0), F(0.5), SR).0,
        0.5 * 12.0 * (1.0 + 1.5 * g)
    );
}

#[test]
fn a_ladder_of_fixed_samples_stays_bounded() {
    let mut ladder = Ladder::<Fixed>::new();
    let one = Fixed::of(1).raw;
    for i in 0..2_000_usize {
        let input = if i / 20 % 2 == 0 { Fixed::of(4) } else { Fixed::of(4).neg() };
        let out = ladder.next_sample(input, Fixed::of(200 + i), Fixed::of(1), SR);
        assert!(out.raw.abs() <= one, "the ladder reached {}", out.raw);
    }
    let mut silent = Ladder::<Fixed>::default();
    silent.reset();
    assert_eq!(silent.next_sample(Fixed::of(0), Fixed::of(500), Fixed::of(1), SR), Fixed::of(0));
}
