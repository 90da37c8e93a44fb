//! Envelopes shared by the synth voices.
//!
//! All envelopes are sample-based, allocation-free, and cheap enough to run
//! per-sample on the realtime thread.

use vstd::prelude::*;

use crate::curves::{exponentials_over_a_decay_stay_between, Curves};
use crate::dynamics::{count, count_of};
use crate::num::{
    a_gain_shrinks, clamp, clamp_of, gains_multiply_to_gains, is_gain, max, max_of, one_times,
    products_commute, products_stay_within, quotient, ratio, ratio_of, Fixed, Sample, FRACTION,
};

verus! {

/// Minimum stage time in seconds, to avoid dividing by nothing: a ten
/// thousandth. Also the level below which a decay counts as finished.
pub open spec fn least<S: Sample>() -> S {
    ratio_of(1, 10_000)
}

#[derive(Clone, Copy, PartialEq, Eq, Debug, Structural)]
pub enum AdsrStage {
    Idle,
    Attack,
    Decay,
    Sustain,
    Release,
}

/// A scalar linear-segment ADSR envelope. `advance` moves it one sample; the
/// caller reads `level` to shape amplitude or filter cutoff.
#[derive(Clone, Copy, Debug)]
pub struct Adsr<S> {
    pub stage: AdsrStage,
    pub level: S,
    pub attack_inc: S,
    pub decay_dec: S,
    pub sustain: S,
    pub release_dec: S,
    pub release_s: S,
    pub sample_rate: u32,
}

/// An envelope at rest.
pub open spec fn adsr_new<S: Sample>(sample_rate: u32) -> Adsr<S> {
    let zero = S::of_spec(0);
    Adsr {
        stage: AdsrStage::Idle,
        level: zero,
        attack_inc: zero,
        decay_dec: zero,
        sustain: zero,
        release_dec: zero,
        release_s: least(),
        sample_rate,
    }
}

/// The frames of a stage of some seconds.
pub open spec fn stage_frames<S: Sample>(seconds: S, sample_rate: u32) -> S {
    max_of(seconds, least()).times(S::of_spec(sample_rate as nat))
}

/// An envelope one sample on.
pub open spec fn adsr_next<S: Sample>(env: Adsr<S>) -> Adsr<S> {
    match env.stage {
        AdsrStage::Idle => Adsr { level: S::of_spec(0), ..env },
        AdsrStage::Attack => {
            let level = env.level.plus(env.attack_inc);
            if S::of_spec(1).at_most(level) {
                Adsr { level: S::of_spec(1), stage: AdsrStage::Decay, ..env }
            } else {
                Adsr { level, ..env }
            }
        },
        AdsrStage::Decay => {
            let level = env.level.minus(env.decay_dec);
            if level.at_most(env.sustain) {
                Adsr { level: env.sustain, stage: AdsrStage::Sustain, ..env }
            } else {
                Adsr { level, ..env }
            }
        },
        AdsrStage::Sustain => env,
        AdsrStage::Release => {
            let level = env.level.minus(env.release_dec);
            if level.at_most(S::of_spec(0)) {
                Adsr { level: S::of_spec(0), stage: AdsrStage::Idle, ..env }
            } else {
                Adsr { level, ..env }
            }
        },
    }
}

impl<S: Sample> Adsr<S> {
    pub fn new(sample_rate: u32) -> (env: Self)
        ensures
            env == adsr_new::<S>(sample_rate),
    {
        Adsr {
            stage: AdsrStage::Idle,
            level: S::of(0),
            attack_inc: S::of(0),
            decay_dec: S::of(0),
            sustain: S::of(0),
            release_dec: S::of(0),
            release_s: ratio(1, 10_000),
            sample_rate,
        }
    }

    /// Recompute segment rates from times in seconds. Safe to call while the
    /// envelope runs.
    pub fn configure(&mut self, attack_s: S, decay_s: S, sustain: S, release_s: S)
        ensures
            *final(self) == (Adsr {
                attack_inc: S::of_spec(1).over(stage_frames(attack_s, old(self).sample_rate)),
                decay_dec: S::of_spec(1).minus(
                    clamp_of(sustain, S::of_spec(0), S::of_spec(1)),
                ).over(stage_frames(decay_s, old(self).sample_rate)),
                sustain: clamp_of(sustain, S::of_spec(0), S::of_spec(1)),
                release_s: max_of(release_s, least()),
                ..*old(self)
            }),
    {
        let sr = S::of(self.sample_rate as usize);
        let shortest = ratio::<S>(1, 10_000);
        let held = clamp(sustain, S::of(0), S::of(1));
        self.attack_inc = S::of(1).div(max(attack_s, shortest).mul(sr));
        self.decay_dec = S::of(1).sub(held).div(max(decay_s, shortest).mul(sr));
        self.sustain = held;
        self.release_s = max(release_s, shortest);
    }

    /// Start the attack stage. The level is not reset to zero: attacking from
    /// wherever the envelope already is keeps the amplitude continuous, and
    /// from idle the level is already zero.
    pub fn note_on(&mut self)
        ensures
            *final(self) == (Adsr {
                stage: AdsrStage::Attack,
                level: clamp_of(old(self).level, S::of_spec(0), S::of_spec(1)),
                ..*old(self)
            }),
    {
        self.stage = AdsrStage::Attack;
        self.level = clamp(self.level, S::of(0), S::of(1));
    }

    /// Enter release from the current level.
    pub fn release(&mut self)
        ensures
            *final(self) == (Adsr {
                stage: AdsrStage::Release,
                release_dec: old(self).level.over(
                    old(self).release_s.times(S::of_spec(old(self).sample_rate as nat)),
                ),
                ..*old(self)
            }),
    {
        self.release_dec =
        self.level.div(self.release_s.mul(S::of(self.sample_rate as usize)));
        self.stage = AdsrStage::Release;
    }

    /// Enter release with an explicit time, for chokes.
    pub fn release_with(&mut self, seconds: S)
        ensures
            *final(self) == (Adsr {
                stage: AdsrStage::Release,
                release_dec: old(self).level.over(
                    stage_frames(seconds, old(self).sample_rate),
                ),
                ..*old(self)
            }),
    {
        let frames = max(seconds, ratio(1, 10_000)).mul(S::of(self.sample_rate as usize));
        self.release_dec = self.level.div(frames);
        self.stage = AdsrStage::Release;
    }

    pub fn advance(&mut self)
        ensures
            *final(self) == adsr_next(*old(self)),
    {
        match self.stage {
            AdsrStage::Idle => {
                self.level = S::of(0);
            },
            AdsrStage::Attack => {
                self.level = self.level.add(self.attack_inc);
                if S::of(1).le(self.level) {
                    self.level = S::of(1);
                    self.stage = AdsrStage::Decay;
                }
            },
            AdsrStage::Decay => {
                self.level = self.level.sub(self.decay_dec);
                if self.level.le(self.sustain) {
                    self.level = self.sustain;
                    self.stage = AdsrStage::Sustain;
                }
            },
            AdsrStage::Sustain => {},
            AdsrStage::Release => {
                self.level = self.level.sub(self.release_dec);
                if self.level.le(S::of(0)) {
                    self.level = S::of(0);
                    self.stage = AdsrStage::Idle;
                }
            },
        }
    }

    pub fn level(&self) -> (level: S)
        ensures
            level == self.level,
    {
        self.level
    }

    pub fn is_idle(&self) -> (answer: bool)
        ensures
            answer == (self.stage == AdsrStage::Idle),
    {
        self.stage == AdsrStage::Idle
    }

    pub fn is_releasing(&self) -> (answer: bool)
        ensures
            answer == (self.stage == AdsrStage::Release),
    {
        self.stage == AdsrStage::Release
    }
}

/// An envelope whose level and rates are gains keeps its level one, whatever
/// stage it is in, and a retrigger does not move it.
pub proof fn an_adsr_stays_a_gain(env: Adsr<Fixed>)
    requires
        is_gain(env.level),
        is_gain(env.sustain),
        is_gain(env.attack_inc),
        is_gain(env.decay_dec),
        is_gain(env.release_dec),
    ensures
        is_gain(adsr_next(env).level),
        clamp_of(env.level, Fixed::of_spec(0), Fixed::of_spec(1)) == env.level,
{
}

/// Number of time constants for a level of one to fall below a ten thousandth:
/// `ln 10000`, as a fraction of `2^20`.
pub open spec fn tail_constants<S: Sample>() -> S {
    ratio_of(9_657_741, 1_048_576)
}

/// A one-shot exponential decay envelope for percussive sounds. Triggers at
/// level one and falls toward zero with a musically natural curve.
#[derive(Clone, Copy, Debug)]
pub struct ExpDecay<S> {
    pub level: S,
    pub coeff: S,
}

/// The coefficient of a decay that falls below audibility in some seconds.
pub open spec fn decay_coeff<S: Curves>(seconds: S, sample_rate: u32) -> S {
    S::of_spec(1).negated().over(
        max_of(seconds, least()).over(tail_constants()).times(S::of_spec(sample_rate as nat)),
    ).exp_spec()
}

/// A decay one sample on.
pub open spec fn decay_next<S: Sample>(env: ExpDecay<S>) -> ExpDecay<S> {
    let level = env.level.times(env.coeff);
    ExpDecay {
        level: if level.below(least()) {
            S::of_spec(0)
        } else {
            level
        },
        coeff: env.coeff,
    }
}

impl<S: Sample> ExpDecay<S> {
    pub fn new() -> (env: Self)
        ensures
            env == (ExpDecay { level: S::of_spec(0), coeff: S::of_spec(1) }),
    {
        ExpDecay { level: S::of(0), coeff: S::of(1) }
    }

    /// Force an already-computed coefficient, for fixed fast fades.
    pub fn set_coeff(&mut self, coeff: S)
        ensures
            *final(self) == (ExpDecay {
                level: old(self).level,
                coeff: clamp_of(coeff, S::of_spec(0), S::of_spec(1)),
            }),
    {
        self.coeff = clamp(coeff, S::of(0), S::of(1));
    }

    pub fn trigger(&mut self)
        ensures
            *final(self) == (ExpDecay { level: S::of_spec(1), coeff: old(self).coeff }),
    {
        self.level = S::of(1);
    }

    pub fn advance(&mut self)
        ensures
            *final(self) == decay_next(*old(self)),
    {
        self.level = self.level.mul(self.coeff);
        if self.level.lt(ratio(1, 10_000)) {
            self.level = S::of(0);
        }
    }

    pub fn level(&self) -> (level: S)
        ensures
            level == self.level,
    {
        self.level
    }

    pub fn is_idle(&self) -> (answer: bool)
        ensures
            answer == self.level.at_most(S::of_spec(0)),
    {
        self.level.le(S::of(0))
    }
}

impl<S: Curves> ExpDecay<S> {
    /// Set the decay time in seconds: the time for the level to fall below
    /// audibility, not the raw time constant.
    pub fn set_time(&mut self, seconds: S, sample_rate: u32)
        ensures
            *final(self) == (ExpDecay {
                level: old(self).level,
                coeff: decay_coeff(seconds, sample_rate),
            }),
    {
        let tau = max(seconds, ratio(1, 10_000)).div(ratio(9_657_741, 1_048_576));
        self.coeff = S::of(1).neg().div(tau.mul(S::of(sample_rate as usize))).exp();
    }
}

impl<S: Sample> Default for ExpDecay<S> {
    fn default() -> (env: Self)
        ensures
            env == (ExpDecay { level: S::of_spec(0), coeff: S::of_spec(1) }),
    {
        Self::new()
    }
}

/// The exponential curve from nothing to one: normalized by
/// `1 / (e^9.21034 - 1)`.
pub open spec fn exponential_of<S: Curves>(u: S) -> S {
    tail_constants::<S>().times(u).exp_spec().minus(S::of_spec(1)).times(shape_norm_of())
}

/// What the exponential curve is normalized by: `1 / (10000 - 1)`.
pub open spec fn shape_norm_of<S: Sample>() -> S {
    ratio_of(1, 9_999)
}

pub fn shape_norm<S: Sample>() -> (norm: S)
    ensures
        norm == shape_norm_of::<S>(),
{
    ratio(1, 9_999)
}

/// A position in `0..1` shaped by a bipolar curve: minus one is logarithmic,
/// zero exponential, and one linear. Exact at both ends, so that it is a
/// reparameterization of the segment rather than a gain on it.
pub open spec fn shaped_of<S: Curves>(position: S, curve: S) -> S {
    let zero = S::of_spec(0);
    let one = S::of_spec(1);
    let u = clamp_of(position, zero, one);
    if u.at_most(zero) {
        zero
    } else if one.at_most(u) {
        one
    } else {
        let exponential = exponential_of(u);
        let curve = clamp_of(curve, one.negated(), one);
        if zero.at_most(curve) {
            exponential.plus(u.minus(exponential).times(curve))
        } else {
            // The exponential reflected through the diagonal: a tail that
            // stays audible for most of its length and then stops.
            let logarithmic = one.minus(exponential_of(one.minus(u)));
            exponential.plus(logarithmic.minus(exponential).times(curve.negated()))
        }
    }
}

fn exponential<S: Curves>(u: S) -> (value: S)
    ensures
        value == exponential_of(u),
{
    ratio::<S>(9_657_741, 1_048_576).mul(u).exp().sub(S::of(1)).mul(shape_norm())
}

/// Shape a normalized envelope position by a bipolar curve control.
pub fn shape<S: Curves>(position: S, curve: S) -> (value: S)
    ensures
        value == shaped_of(position, curve),
{
    let u = clamp(position, S::of(0), S::of(1));
    if u.le(S::of(0)) {
        return S::of(0);
    }
    if S::of(1).le(u) {
        return S::of(1);
    }
    let falling = exponential(u);
    let bend = clamp(curve, S::of(1).neg(), S::of(1));
    if S::of(0).le(bend) {
        falling.add(u.sub(falling).mul(bend))
    } else {
        let logarithmic = S::of(1).sub(exponential(S::of(1).sub(u)));
        falling.add(logarithmic.sub(falling).mul(bend.neg()))
    }
}

/// A shaped segment begins at nothing and ends at one, whatever its curve.
pub proof fn a_shape_is_exact_at_both_ends(curve: Fixed)
    ensures
        shaped_of(Fixed::of_spec(0), curve) == Fixed::of_spec(0),
        shaped_of(Fixed::of_spec(1), curve) == Fixed::of_spec(1),
{
}

/// The share of a segment that one sample is. One means an instant: a sample
/// or less.
pub open spec fn segment_rate_of<S: Sample>(seconds: S, sample_rate: u32) -> S {
    let samples = max_of(seconds, S::of_spec(0)).times(S::of_spec(sample_rate as nat));
    if samples.at_most(S::of_spec(1)) {
        S::of_spec(1)
    } else {
        S::of_spec(1).over(samples)
    }
}

pub fn segment_rate<S: Sample>(seconds: S, sample_rate: u32) -> (rate: S)
    ensures
        rate == segment_rate_of(seconds, sample_rate),
{
    let samples = max(seconds, S::of(0)).mul(S::of(sample_rate as usize));
    if samples.le(S::of(1)) {
        S::of(1)
    } else {
        S::of(1).div(samples)
    }
}

/// One [`Ahd`] envelope's shape, latched when it is triggered.
#[derive(Clone, Copy, Debug, PartialEq)]
pub struct AhdShape<S> {
    /// Seconds to full level. Nothing means the first sample is the peak.
    pub attack_s: S,
    /// Seconds flat at the peak.
    pub hold_s: S,
    pub decay_s: S,
    /// See [`shape`].
    pub curve: S,
    /// Level the decay falls to while the note is held. Only reached when
    /// `gate` is set.
    pub sustain: S,
    pub release_s: S,
    /// Off is one-shot: [`Ahd::release`] does nothing and the envelope runs
    /// to silence on its own.
    pub gate: bool,
}

impl<S: Sample> Default for AhdShape<S> {
    fn default() -> (shape: Self)
        ensures
            shape == (AhdShape {
                attack_s: S::of_spec(0),
                hold_s: S::of_spec(0),
                decay_s: ratio_of(1, 4),
                curve: S::of_spec(0),
                sustain: S::of_spec(0),
                release_s: ratio_of(1, 10),
                gate: false,
            }),
    {
        AhdShape {
            attack_s: S::of(0),
            hold_s: S::of(0),
            decay_s: ratio(1, 4),
            curve: S::of(0),
            sustain: S::of(0),
            release_s: ratio(1, 10),
            gate: false,
        }
    }
}

#[derive(Clone, Copy, PartialEq, Eq, Debug, Structural)]
pub enum AhdStage {
    Idle,
    Attack,
    Hold,
    Decay,
    Sustain,
    Release,
}

/// Attack-hold-decay with a curve, and an optional gate.
///
/// Built for percussion: a zero-length attack costs the transient nothing, and
/// there is a hold. A segment of zero length is skipped at the transition
/// rather than costing a sample, so an envelope with no attack and no hold is
/// at its peak on sample zero.
#[derive(Clone, Copy, Debug)]
pub struct Ahd<S> {
    pub stage: AhdStage,
    pub level: S,
    /// Position within the running segment, in `0..1`.
    pub phase: S,
    pub held: u32,
    pub attack_rate: S,
    pub hold_samples: u32,
    pub decay_rate: S,
    pub release_rate: S,
    pub curve: S,
    pub sustain: S,
    pub gate: bool,
    /// Level the release started from, so a release is a fade of whatever was
    /// sounding rather than a jump to a stage's own shape.
    pub release_from: S,
}

/// An envelope at rest.
pub open spec fn ahd_new<S: Sample>() -> Ahd<S> {
    let zero = S::of_spec(0);
    let one = S::of_spec(1);
    Ahd {
        stage: AhdStage::Idle,
        level: zero,
        phase: zero,
        held: 0,
        attack_rate: one,
        hold_samples: 0,
        decay_rate: one,
        release_rate: one,
        curve: zero,
        sustain: zero,
        gate: false,
        release_from: zero,
    }
}

/// The decay's output at a phase. With a gated shape it falls to the sustain
/// instead of to nothing.
pub open spec fn decay_level_of<S: Curves>(env: Ahd<S>, phase: S) -> S {
    let shaped = shaped_of(S::of_spec(1).minus(phase), env.curve);
    if env.gate {
        env.sustain.plus(S::of_spec(1).minus(env.sustain).times(shaped))
    } else {
        shaped
    }
}

/// An envelope at the start of its decay.
pub open spec fn ahd_decaying<S: Curves>(env: Ahd<S>) -> Ahd<S> {
    Ahd {
        phase: S::of_spec(0),
        stage: AhdStage::Decay,
        level: decay_level_of(env, S::of_spec(0)),
        ..env
    }
}

/// An envelope at its peak: at the start of its hold, or of its decay where
/// there is no hold.
pub open spec fn ahd_holding<S: Curves>(env: Ahd<S>) -> Ahd<S> {
    let held = Ahd { held: 0, ..env };
    if env.hold_samples == 0 {
        ahd_decaying(held)
    } else {
        Ahd { stage: AhdStage::Hold, level: S::of_spec(1), ..held }
    }
}

/// An envelope that has been triggered.
pub open spec fn ahd_triggered<S: Curves>(
    env: Ahd<S>,
    shape: AhdShape<S>,
    sample_rate: u32,
) -> Ahd<S> {
    let one = S::of_spec(1);
    let zero = S::of_spec(0);
    let latched = Ahd {
        curve: clamp_of(shape.curve, one.negated(), one),
        sustain: clamp_of(shape.sustain, zero, one),
        gate: shape.gate,
        attack_rate: segment_rate_of(shape.attack_s, sample_rate),
        hold_samples: count_of(
            max_of(shape.hold_s, zero).times(S::of_spec(sample_rate as nat)).whole_spec(),
        ),
        decay_rate: segment_rate_of(shape.decay_s, sample_rate),
        release_rate: segment_rate_of(shape.release_s, sample_rate),
        phase: zero,
        held: 0,
        ..env
    };
    if one.at_most(latched.attack_rate) {
        ahd_holding(latched)
    } else {
        Ahd { stage: AhdStage::Attack, level: zero, ..latched }
    }
}

/// An envelope that begins to fade from wherever it is.
pub open spec fn ahd_releasing<S: Sample>(env: Ahd<S>) -> Ahd<S> {
    if env.stage == AhdStage::Idle {
        env
    } else {
        Ahd {
            release_from: env.level,
            phase: S::of_spec(0),
            stage: AhdStage::Release,
            ..env
        }
    }
}

/// An envelope one sample on.
pub open spec fn ahd_next<S: Curves>(env: Ahd<S>) -> Ahd<S> {
    let zero = S::of_spec(0);
    let one = S::of_spec(1);
    match env.stage {
        AhdStage::Idle => env,
        AhdStage::Attack => {
            let phase = env.phase.plus(env.attack_rate);
            let moved = Ahd { phase, ..env };
            if one.at_most(phase) {
                ahd_holding(moved)
            } else {
                Ahd { level: shaped_of(phase, env.curve), ..moved }
            }
        },
        AhdStage::Hold => {
            let moved = Ahd { held: (env.held + 1) as u32, ..env };
            if env.held + 1 >= env.hold_samples {
                ahd_decaying(moved)
            } else {
                Ahd { level: one, ..moved }
            }
        },
        AhdStage::Decay => {
            let phase = env.phase.plus(env.decay_rate);
            let moved = Ahd { phase, ..env };
            if !one.at_most(phase) {
                Ahd { level: decay_level_of(moved, phase), ..moved }
            } else if env.gate && least::<S>().below(env.sustain) {
                Ahd { stage: AhdStage::Sustain, level: env.sustain, ..moved }
            } else {
                Ahd { stage: AhdStage::Idle, level: zero, ..moved }
            }
        },
        AhdStage::Sustain => Ahd { level: env.sustain, ..env },
        AhdStage::Release => {
            let phase = env.phase.plus(env.release_rate);
            let moved = Ahd { phase, ..env };
            if one.at_most(phase) {
                Ahd { stage: AhdStage::Idle, level: zero, ..moved }
            } else {
                Ahd {
                    level: env.release_from.times(shaped_of(one.minus(phase), env.curve)),
                    ..moved
                }
            }
        },
    }
}

impl<S: Curves> Ahd<S> {
    /// A hold that is running has some of itself left.
    pub open spec fn well_formed(&self) -> bool {
        self.stage == AhdStage::Hold ==> self.held < self.hold_samples
    }

    pub fn new() -> (env: Self)
        ensures
            env == ahd_new::<S>(),
            env.well_formed(),
    {
        Ahd {
            stage: AhdStage::Idle,
            level: S::of(0),
            phase: S::of(0),
            held: 0,
            attack_rate: S::of(1),
            hold_samples: 0,
            decay_rate: S::of(1),
            release_rate: S::of(1),
            curve: S::of(0),
            sustain: S::of(0),
            gate: false,
            release_from: S::of(0),
        }
    }

    pub fn reset(&mut self)
        ensures
            *final(self) == ahd_new::<S>(),
            final(self).well_formed(),
    {
        *self = Self::new();
    }

    /// Start the envelope, latching `shape` for the life of this run.
    pub fn trigger(&mut self, shape: AhdShape<S>, sample_rate: u32)
        ensures
            *final(self) == ahd_triggered(*old(self), shape, sample_rate),
            final(self).well_formed(),
    {
        self.curve = clamp(shape.curve, S::of(1).neg(), S::of(1));
        self.sustain = clamp(shape.sustain, S::of(0), S::of(1));
        self.gate = shape.gate;
        self.attack_rate = segment_rate(shape.attack_s, sample_rate);
        let hold = max(shape.hold_s, S::of(0)).mul(S::of(sample_rate as usize));
        self.hold_samples = count(hold.whole());
        self.decay_rate = segment_rate(shape.decay_s, sample_rate);
        self.release_rate = segment_rate(shape.release_s, sample_rate);
        self.phase = S::of(0);
        self.held = 0;
        if S::of(1).le(self.attack_rate) {
            self.start_hold();
        } else {
            self.stage = AhdStage::Attack;
            self.level = S::of(0);
        }
    }

    /// This sample's level, then one step forward, so the first value a caller
    /// reads is the one the trigger produced.
    pub fn tick(&mut self) -> (level: S)
        requires
            old(self).well_formed(),
        ensures
            final(self).well_formed(),
            level == old(self).level,
            *final(self) == ahd_next(*old(self)),
    {
        let out = self.level;
        self.step();
        out
    }

    pub fn level(&self) -> (level: S)
        ensures
            level == self.level,
    {
        self.level
    }

    pub fn is_idle(&self) -> (answer: bool)
        ensures
            answer == (self.stage == AhdStage::Idle),
    {
        self.stage == AhdStage::Idle
    }

    /// Whether this envelope is waiting on a note-off. The only stage with no
    /// end of its own, and reachable only in a gated shape.
    pub fn is_sustaining(&self) -> (answer: bool)
        ensures
            answer == (self.stage == AhdStage::Sustain),
    {
        self.stage == AhdStage::Sustain
    }

    pub fn is_gated(&self) -> (answer: bool)
        ensures
            answer == self.gate,
    {
        self.gate
    }

    /// Note-off. Ignored by a one-shot envelope, which is what makes a drum's
    /// note-off end nothing.
    pub fn release(&mut self)
        requires
            old(self).well_formed(),
        ensures
            final(self).well_formed(),
            *final(self) == (if old(self).gate {
                ahd_releasing(*old(self))
            } else {
                *old(self)
            }),
    {
        if self.gate {
            self.begin_release();
        }
    }

    /// Fade out over `seconds` gated or not: a choke is a release
    /// applied to the envelope.
    pub fn release_over(&mut self, seconds: S, sample_rate: u32)
        requires
            old(self).well_formed(),
        ensures
            final(self).well_formed(),
            *final(self) == (if old(self).stage == AhdStage::Idle {
                *old(self)
            } else {
                ahd_releasing(
                    Ahd { release_rate: segment_rate_of(seconds, sample_rate), ..*old(self) },
                )
            }),
    {
        if self.stage == AhdStage::Idle {
            return;
        }
        self.release_rate = segment_rate(seconds, sample_rate);
        self.begin_release();
    }

    fn begin_release(&mut self)
        requires
            old(self).well_formed(),
        ensures
            final(self).well_formed(),
            *final(self) == ahd_releasing(*old(self)),
    {
        if self.stage == AhdStage::Idle {
            return;
        }
        self.release_from = self.level;
        self.phase = S::of(0);
        self.stage = AhdStage::Release;
    }

    fn start_hold(&mut self)
        ensures
            final(self).well_formed(),
            *final(self) == ahd_holding(*old(self)),
    {
        self.held = 0;
        if self.hold_samples == 0 {
            self.start_decay();
        } else {
            self.stage = AhdStage::Hold;
            self.level = S::of(1);
        }
    }

    fn start_decay(&mut self)
        ensures
            final(self).well_formed(),
            *final(self) == ahd_decaying(*old(self)),
    {
        self.phase = S::of(0);
        self.stage = AhdStage::Decay;
        self.level = self.decay_level(S::of(0));
    }

    /// The decay's output at `phase`.
    fn decay_level(&self, phase: S) -> (level: S)
        ensures
            level == decay_level_of(*self, phase),
    {
        let shaped = shape(S::of(1).sub(phase), self.curve);
        if self.gate {
            self.sustain.add(S::of(1).sub(self.sustain).mul(shaped))
        } else {
            shaped
        }
    }

    fn step(&mut self)
        requires
            old(self).well_formed(),
        ensures
            final(self).well_formed(),
            *final(self) == ahd_next(*old(self)),
    {
        match self.stage {
            AhdStage::Idle => {},
            AhdStage::Attack => {
                self.phase = self.phase.add(self.attack_rate);
                if S::of(1).le(self.phase) {
                    self.start_hold();
                } else {
                    self.level = shape(self.phase, self.curve);
                }
            },
            AhdStage::Hold => {
                self.held = self.held + 1;
                if self.held >= self.hold_samples {
                    self.start_decay();
                } else {
                    self.level = S::of(1);
                }
            },
            AhdStage::Decay => {
                self.phase = self.phase.add(self.decay_rate);
                if S::of(1).le(self.phase) {
                    // Sustain is the only stage without an end of its own, and
                    // it is reachable only when gated and with a sustain
                    // worth holding.
                    if self.gate && ratio::<S>(1, 10_000).lt(self.sustain) {
                        self.stage = AhdStage::Sustain;
                        self.level = self.sustain;
                    } else {
                        self.stage = AhdStage::Idle;
                        self.level = S::of(0);
                    }
                } else {
                    self.level = self.decay_level(self.phase);
                }
            },
            AhdStage::Sustain => {
                self.level = self.sustain;
            },
            AhdStage::Release => {
                self.phase = self.phase.add(self.release_rate);
                if S::of(1).le(self.phase) {
                    self.stage = AhdStage::Idle;
                    self.level = S::of(0);
                } else {
                    self.level = self.release_from.mul(
                        shape(S::of(1).sub(self.phase), self.curve),
                    );
                }
            },
        }
    }
}

impl<S: Curves> Default for Ahd<S> {
    fn default() -> (env: Self)
        ensures
            env == ahd_new::<S>(),
            env.well_formed(),
    {
        Self::new()
    }
}

/// An envelope some samples on.
pub open spec fn ahd_after<S: Curves>(env: Ahd<S>, frames: nat) -> Ahd<S>
    decreases frames,
{
    if frames == 0 {
        env
    } else {
        ahd_next(ahd_after(env, (frames - 1) as nat))
    }
}

/// A one-shot envelope never sustains, however long it runs.
pub proof fn a_one_shot_never_sustains<S: Curves>(env: Ahd<S>, frames: nat)
    requires
        !env.gate,
        env.stage != AhdStage::Sustain,
    ensures
        !ahd_after(env, frames).gate,
        ahd_after(env, frames).stage != AhdStage::Sustain,
    decreases frames,
{
    if frames > 0 {
        a_one_shot_never_sustains(env, (frames - 1) as nat);
    }
}

/// An attack of no length costs the transient nothing: the first sample of an
/// envelope triggered with one is its peak.
pub proof fn no_attack_is_at_its_peak_at_once(
    env: Ahd<Fixed>,
    shape: AhdShape<Fixed>,
    sample_rate: u32,
)
    requires
        shape.attack_s.raw <= 0,
    ensures
        ahd_triggered(env, shape, sample_rate).level == Fixed::of_spec(1),
{
    let rate = Fixed::of_spec(sample_rate as nat);
    crate::num::nothing_times(rate);
    let sustain = clamp_of(shape.sustain, Fixed::of_spec(0), Fixed::of_spec(1));
    let rest = Fixed::of_spec(1).minus(sustain);
    let one = Fixed::of_spec(1);
    assert(max_of(shape.attack_s, Fixed::of_spec(0)) == Fixed::of_spec(0));
    assert(segment_rate_of(shape.attack_s, sample_rate) == one);
    a_shape_is_exact_at_both_ends(clamp_of(shape.curve, one.negated(), one));
    assert(one.minus(Fixed::of_spec(0)) == one);
    assert(rest.times(one) == rest) by {
        one_times(rest);
        assert(rest.raw * one.raw == one.raw * rest.raw) by (nonlinear_arith);
    }
    assert(sustain.plus(rest) == one);
}

/// A decay ends: once its rate has covered what is left of it, the envelope is
/// idle, or sustains where its gate is on.
pub proof fn a_decay_ends(env: Ahd<Fixed>, frames: nat)
    requires
        env.stage == AhdStage::Decay || env.stage == AhdStage::Idle || env.stage
            == AhdStage::Sustain,
        0 <= env.phase.raw,
        0 < env.decay_rate.raw <= FRACTION,
        env.phase.raw + frames * env.decay_rate.raw >= FRACTION,
        frames > 0,
    ensures
        ahd_after(env, frames).stage == AhdStage::Idle || ahd_after(env, frames).stage
            == AhdStage::Sustain,
{
    lemma_phase_in_decay(env, frames);
}

proof fn lemma_phase_in_decay(env: Ahd<Fixed>, frames: nat)
    requires
        env.stage == AhdStage::Decay || env.stage == AhdStage::Idle || env.stage
            == AhdStage::Sustain,
        0 <= env.phase.raw,
        0 < env.decay_rate.raw <= FRACTION,
    ensures
        ({
            let after = ahd_after(env, frames);
            &&& after.decay_rate == env.decay_rate
            &&& after.stage == AhdStage::Decay ==> after.phase.raw == env.phase.raw + frames
                * env.decay_rate.raw && (frames > 0 ==> after.phase.raw < FRACTION)
            &&& after.stage == AhdStage::Decay || after.stage == AhdStage::Idle || after.stage
                == AhdStage::Sustain
        }),
    decreases frames,
{
    if frames > 0 {
        lemma_phase_in_decay(env, (frames - 1) as nat);
        let here = ahd_after(env, (frames - 1) as nat);
        assert((frames - 1) * env.decay_rate.raw + env.decay_rate.raw == frames
            * env.decay_rate.raw) by (nonlinear_arith);
    } else {
        assert(0 * env.decay_rate.raw == 0) by (nonlinear_arith);
    }
}

/// A release ends in silence once its rate has covered it, whatever the level
/// it began from.
pub proof fn a_release_ends(env: Ahd<Fixed>, frames: nat)
    requires
        env.stage == AhdStage::Release || env.stage == AhdStage::Idle,
        0 <= env.phase.raw,
        0 < env.release_rate.raw <= FRACTION,
        env.phase.raw + frames * env.release_rate.raw >= FRACTION,
        frames > 0,
    ensures
        ahd_after(env, frames).stage == AhdStage::Idle,
{
    lemma_phase_in_release(env, frames);
}

proof fn lemma_phase_in_release(env: Ahd<Fixed>, frames: nat)
    requires
        env.stage == AhdStage::Release || env.stage == AhdStage::Idle,
        0 <= env.phase.raw,
        0 < env.release_rate.raw <= FRACTION,
    ensures
        ({
            let after = ahd_after(env, frames);
            &&& after.release_rate == env.release_rate
            &&& after.stage == AhdStage::Release ==> after.phase.raw == env.phase.raw + frames
                * env.release_rate.raw && (frames > 0 ==> after.phase.raw < FRACTION)
            &&& after.stage == AhdStage::Release || after.stage == AhdStage::Idle
        }),
    decreases frames,
{
    if frames > 0 {
        lemma_phase_in_release(env, (frames - 1) as nat);
        let here = ahd_after(env, (frames - 1) as nat);
        assert((frames - 1) * env.release_rate.raw + env.release_rate.raw == frames
            * env.release_rate.raw) by (nonlinear_arith);
    } else {
        assert(0 * env.release_rate.raw == 0) by (nonlinear_arith);
    }
}

/// The decay after a number of samples.
pub open spec fn decay_after<S: Sample>(env: ExpDecay<S>, frames: nat) -> ExpDecay<S>
    decreases frames,
{
    if frames == 0 {
        env
    } else {
        decay_next(decay_after(env, (frames - 1) as nat))
    }
}

/// An exponential decay whose coefficient is under one never rises, and ends:
/// it loses at least one unit a sample until nothing is left.
pub proof fn an_exponential_decay_ends(env: ExpDecay<Fixed>, frames: nat)
    requires
        is_gain(env.level),
        0 <= env.coeff.raw < FRACTION,
    ensures
        0 <= decay_after(env, frames).level.raw <= env.level.raw,
        decay_after(env, frames).coeff == env.coeff,
        env.level.raw <= frames ==> decay_after(env, frames).level.raw == 0,
        decay_after(env, frames).level.raw + frames <= env.level.raw
            || decay_after(env, frames).level.raw == 0,
    decreases frames,
{
    if frames > 0 {
        an_exponential_decay_ends(env, (frames - 1) as nat);
        let before = decay_after(env, (frames - 1) as nat);
        let x = before.level.raw as int;
        let c = before.coeff.raw as int;
        let f = FRACTION as int;
        assert(0 <= x * c && (x > 0 ==> x * c / f < x) && (x == 0 ==> x * c / f == 0) && 0 <= x * c
            / f) by (nonlinear_arith)
            requires
                0 <= x,
                0 <= c < f,
                f == 0x1_0000_0000,
        ;
    }
}

proof fn lemma_exponential_is_a_gain(u: Fixed)
    requires
        is_gain(u),
    ensures
        is_gain(exponential_of(u)),
{
    let f = FRACTION as int;
    let span = tail_constants::<Fixed>();
    assert(span.raw == 39_558_107_136) by {
        assert((9_657_741 * f) * f == 9_657_741 * 0x1_0000_0000_0000_0000) by (nonlinear_arith)
            requires
                f == 0x1_0000_0000,
        ;
        assert((9_657_741int * 0x1_0000_0000_0000_0000) / (1_048_576int * 0x1_0000_0000)
            == 39_558_107_136);
    }
    a_gain_shrinks(u, span);
    products_commute(u, span);
    let e = span.times(u).exp_spec();
    exponentials_over_a_decay_stay_between(span.times(u));
    let above = e.minus(Fixed::of_spec(1));
    let norm = shape_norm_of::<Fixed>();
    assert(norm.raw == 429_539) by {
        assert((1 * f) * f == 0x1_0000_0000_0000_0000) by (nonlinear_arith)
            requires
                f == 0x1_0000_0000,
        ;
        assert(0x1_0000_0000_0000_0000int / (9_999int * 0x1_0000_0000) == 429_539);
    }
    products_stay_within(above, norm, 9_999 * f, 429_539, f);
}

proof fn lemma_between_gains_is_a_gain(a: Fixed, b: Fixed, t: Fixed)
    requires
        is_gain(a),
        is_gain(b),
        is_gain(t),
    ensures
        is_gain(a.plus(b.minus(a).times(t))),
{
    let gap = b.minus(a);
    a_gain_shrinks(t, gap);
    products_commute(t, gap);
}

/// A shaped position is a gain, whatever the position and the curve.
pub proof fn a_shape_is_a_gain(position: Fixed, curve: Fixed)
    ensures
        is_gain(shaped_of(position, curve)),
{
    let one = Fixed::of_spec(1);
    let u = clamp_of(position, Fixed::of_spec(0), one);
    if 0 < u.raw < FRACTION {
        let exponential = exponential_of(u);
        lemma_exponential_is_a_gain(u);
        lemma_exponential_is_a_gain(one.minus(u));
        let bend = clamp_of(curve, one.negated(), one);
        if 0 <= bend.raw {
            lemma_between_gains_is_a_gain(exponential, u, bend);
        } else {
            let logarithmic = one.minus(exponential_of(one.minus(u)));
            lemma_between_gains_is_a_gain(exponential, logarithmic, bend.negated());
        }
    }
}

/// Whether an envelope's levels are gains and its rates move.
pub open spec fn ahd_formed(env: Ahd<Fixed>) -> bool {
    &&& is_gain(env.level)
    &&& is_gain(env.sustain)
    &&& is_gain(env.release_from)
    &&& 0 <= env.phase.raw <= 2 * FRACTION
    &&& 0 < env.attack_rate.raw <= FRACTION
    &&& 0 < env.decay_rate.raw <= FRACTION
    &&& 0 < env.release_rate.raw <= FRACTION
    &&& env.stage == AhdStage::Attack || env.stage == AhdStage::Decay || env.stage
        == AhdStage::Release ==> env.phase.raw < FRACTION
}

proof fn lemma_decay_level_is_a_gain(env: Ahd<Fixed>, phase: Fixed)
    requires
        is_gain(env.sustain),
    ensures
        is_gain(decay_level_of(env, phase)),
{
    let one = Fixed::of_spec(1);
    let shaped = shaped_of(one.minus(phase), env.curve);
    a_shape_is_a_gain(one.minus(phase), env.curve);
    lemma_between_gains_is_a_gain(env.sustain, one, shaped);
}

/// An envelope's level stays between nothing and one through every stage.
pub proof fn an_ahd_stays_a_gain(env: Ahd<Fixed>, frames: nat)
    requires
        ahd_formed(env),
    ensures
        ahd_formed(ahd_after(env, frames)),
        is_gain(ahd_after(env, frames).level),
    decreases frames,
{
    if frames > 0 {
        an_ahd_stays_a_gain(env, (frames - 1) as nat);
        lemma_ahd_next_is_formed(ahd_after(env, (frames - 1) as nat));
    }
}

proof fn lemma_ahd_next_is_formed(env: Ahd<Fixed>)
    requires
        ahd_formed(env),
    ensures
        ahd_formed(ahd_next(env)),
{
    let one = Fixed::of_spec(1);
    let zero = Fixed::of_spec(0);
    lemma_decay_level_is_a_gain(env, zero);
    if env.stage == AhdStage::Attack {
        a_shape_is_a_gain(env.phase.plus(env.attack_rate), env.curve);
    } else if env.stage == AhdStage::Decay {
        lemma_decay_level_is_a_gain(env, env.phase.plus(env.decay_rate));
    } else if env.stage == AhdStage::Release {
        let shaped = shaped_of(one.minus(env.phase.plus(env.release_rate)), env.curve);
        a_shape_is_a_gain(one.minus(env.phase.plus(env.release_rate)), env.curve);
        gains_multiply_to_gains(env.release_from, shaped);
    }
}

proof fn lemma_segment_rate_moves(seconds: Fixed, sample_rate: u32)
    ensures
        0 < segment_rate_of(seconds, sample_rate).raw <= FRACTION,
{
    let samples = max_of(seconds, Fixed::of_spec(0)).times(Fixed::of_spec(sample_rate as nat));
    let f = FRACTION as int;
    let n = samples.raw as int;
    if n > f {
        assert(0 < f * f / n <= f && 0 <= f * f) by (nonlinear_arith)
            requires
                f == 0x1_0000_0000,
                f < n <= 0x7fff_ffff_ffff_ffff,
        ;
    }
}

/// A trigger leaves an envelope whose level is a gain and whose rates move,
/// whatever shape it was given.
pub proof fn a_trigger_forms_an_envelope(
    env: Ahd<Fixed>,
    shape: AhdShape<Fixed>,
    sample_rate: u32,
)
    requires
        is_gain(env.release_from),
    ensures
        ahd_formed(ahd_triggered(env, shape, sample_rate)),
{
    let one = Fixed::of_spec(1);
    let zero = Fixed::of_spec(0);
    lemma_segment_rate_moves(shape.attack_s, sample_rate);
    lemma_segment_rate_moves(shape.decay_s, sample_rate);
    lemma_segment_rate_moves(shape.release_s, sample_rate);
    let latched = Ahd {
        curve: clamp_of(shape.curve, one.negated(), one),
        sustain: clamp_of(shape.sustain, zero, one),
        gate: shape.gate,
        ..env
    };
    lemma_decay_level_is_a_gain(latched, zero);
}

/// The samples a segment at a phase still takes.
pub open spec fn segment_left(phase: int, rate: int) -> int {
    if phase >= FRACTION {
        1
    } else {
        (FRACTION - phase - 1) / rate + 1
    }
}

/// The samples an envelope still moves for, at most.
pub open spec fn ahd_left(env: Ahd<Fixed>) -> int {
    let decay = segment_left(0, env.decay_rate.raw as int);
    match env.stage {
        AhdStage::Idle | AhdStage::Sustain => 0,
        AhdStage::Release => segment_left(env.phase.raw as int, env.release_rate.raw as int),
        AhdStage::Decay => segment_left(env.phase.raw as int, env.decay_rate.raw as int),
        AhdStage::Hold => decay + if env.held < env.hold_samples {
            env.hold_samples - env.held
        } else {
            1
        },
        AhdStage::Attack => segment_left(env.phase.raw as int, env.attack_rate.raw as int)
            + env.hold_samples + decay,
    }
}

proof fn lemma_segment_left(phase: int, rate: int)
    requires
        0 <= phase < FRACTION,
        0 < rate <= FRACTION,
    ensures
        segment_left(phase, rate) >= 1,
        phase + rate < FRACTION ==> segment_left(phase + rate, rate) == segment_left(phase, rate)
            - 1,
{
    let left = FRACTION - phase - 1;
    assert(left / rate >= 0) by (nonlinear_arith)
        requires
            left >= 0,
            rate > 0,
    ;
    if phase + rate < FRACTION {
        assert((left - rate) / rate == left / rate - 1) by (nonlinear_arith)
            requires
                rate > 0,
        ;
    }
}

proof fn lemma_ahd_moves_on(env: Ahd<Fixed>)
    requires
        ahd_formed(env),
        env.stage != AhdStage::Idle,
        env.stage != AhdStage::Sustain,
    ensures
        ahd_left(env) >= 1,
        ahd_left(ahd_next(env)) <= ahd_left(env) - 1,
{
    lemma_segment_left(0, env.decay_rate.raw as int);
    if env.stage == AhdStage::Attack {
        lemma_segment_left(env.phase.raw as int, env.attack_rate.raw as int);
    } else if env.stage == AhdStage::Decay {
        lemma_segment_left(env.phase.raw as int, env.decay_rate.raw as int);
    } else if env.stage == AhdStage::Release {
        lemma_segment_left(env.phase.raw as int, env.release_rate.raw as int);
    }
}

/// A whole envelope ends: once what it still has to move for has passed it is
/// idle at nothing, or sustains at exactly its sustain; and only a gated one
/// with a sustain worth holding does that.
pub proof fn an_envelope_ends(env: Ahd<Fixed>, frames: nat)
    requires
        ahd_formed(env),
        ahd_left(env) <= frames,
        env.stage == AhdStage::Idle ==> env.level == Fixed::of_spec(0),
        env.stage == AhdStage::Sustain ==> env.gate && least::<Fixed>().below(env.sustain)
            && env.level == env.sustain,
    ensures
        ({
            let after = ahd_after(env, frames);
            ||| after.stage == AhdStage::Idle && after.level == Fixed::of_spec(0)
            ||| after.stage == AhdStage::Sustain && after.level == env.sustain && env.gate
                && least::<Fixed>().below(env.sustain)
        }),
{
    lemma_envelope_progress(env, frames);
}

proof fn lemma_envelope_progress(env: Ahd<Fixed>, frames: nat)
    requires
        ahd_formed(env),
        env.stage == AhdStage::Idle ==> env.level == Fixed::of_spec(0),
        env.stage == AhdStage::Sustain ==> env.gate && least::<Fixed>().below(env.sustain)
            && env.level == env.sustain,
    ensures
        ({
            let after = ahd_after(env, frames);
            &&& ahd_formed(after)
            &&& after.gate == env.gate
            &&& after.sustain == env.sustain
            &&& after.stage == AhdStage::Idle ==> after.level == Fixed::of_spec(0)
            &&& after.stage == AhdStage::Sustain ==> after.gate && least::<Fixed>().below(
                after.sustain,
            ) && after.level == after.sustain
            &&& after.stage == AhdStage::Idle || after.stage == AhdStage::Sustain || (ahd_left(
                after,
            ) >= 1 && ahd_left(after) + frames <= ahd_left(env))
        }),
    decreases frames,
{
    if frames == 0 {
        if env.stage != AhdStage::Idle && env.stage != AhdStage::Sustain {
            lemma_ahd_moves_on(env);
        }
    } else {
        lemma_envelope_progress(env, (frames - 1) as nat);
        let before = ahd_after(env, (frames - 1) as nat);
        lemma_ahd_next_is_formed(before);
        if before.stage != AhdStage::Idle && before.stage != AhdStage::Sustain {
            lemma_ahd_moves_on(before);
        }
        let after = ahd_after(env, frames);
        if after.stage != AhdStage::Idle && after.stage != AhdStage::Sustain {
            lemma_ahd_moves_on(after);
        }
    }
}

/// A segment takes at most a third longer than it was asked to, and a sample.
proof fn lemma_segment_takes_its_time(seconds: Fixed, sample_rate: u32)
    requires
        0 <= seconds.raw <= FRACTION,
        sample_rate <= 1_000_000_000,
    ensures
        3 * (segment_left(0, segment_rate_of(seconds, sample_rate).raw as int) - 1) * FRACTION
            <= 4 * (seconds.raw * sample_rate),
{
    let f = FRACTION as int;
    let n = seconds.raw * sample_rate;
    let samples = max_of(seconds, Fixed::of_spec(0)).times(Fixed::of_spec(sample_rate as nat));
    assert(0 <= n <= f * 1_000_000_000) by (nonlinear_arith)
        requires
            n == seconds.raw * sample_rate,
            0 <= seconds.raw <= f,
            0 <= sample_rate <= 1_000_000_000,
            f == 0x1_0000_0000,
    ;
    assert(samples.raw == n) by {
        assert(seconds.raw * (sample_rate * f) == n * f && (n * f) / f == n && n * f >= 0)
            by (nonlinear_arith)
            requires
                n == seconds.raw * sample_rate,
                f == 0x1_0000_0000,
                0 <= n,
        ;
    }
    if n > f {
        let rate = f * f / n;
        assert(0 <= f * f && 0 <= rate <= f) by (nonlinear_arith)
            requires
                rate == f * f / n,
                f < n,
                f == 0x1_0000_0000,
        ;
        assert(quotient(f * f, n) == rate);
        assert(segment_rate_of(seconds, sample_rate).raw == rate);
        assert(rate >= 4 && 4 * rate * n >= 3 * (f * f)) by (nonlinear_arith)
            requires
                rate == f * f / n,
                f < n <= f * 1_000_000_000,
                f == 0x1_0000_0000,
        ;
        let steps = (f - 1) / rate;
        assert(steps * rate <= f - 1 && steps >= 0) by (nonlinear_arith)
            requires
                steps == (f - 1) / rate,
                rate > 0,
                f == 0x1_0000_0000,
        ;
        assert(3 * steps * f <= 4 * n) by (nonlinear_arith)
            requires
                steps * rate <= f,
                4 * rate * n >= 3 * (f * f),
                steps >= 0,
                rate > 0,
                n > 0,
                f == 0x1_0000_0000,
        ;
        assert(segment_left(0, rate) == steps + 1);
    } else {
        assert(segment_left(0, f) == 1);
    }
}

/// An envelope whose attack, hold and decay come to a second at most is over
/// within two, unless it has a sustain to hold and is gated.
pub proof fn a_short_envelope_is_over_in_two_seconds(
    env: Ahd<Fixed>,
    shape: AhdShape<Fixed>,
    sample_rate: u32,
    frames: nat,
)
    requires
        is_gain(env.release_from),
        0 <= shape.attack_s.raw,
        0 <= shape.hold_s.raw,
        0 <= shape.decay_s.raw,
        shape.attack_s.raw + shape.hold_s.raw + shape.decay_s.raw <= FRACTION,
        3 <= sample_rate <= 1_000_000_000,
        2 * sample_rate <= frames,
    ensures
        ({
            let sustain = clamp_of(shape.sustain, Fixed::of_spec(0), Fixed::of_spec(1));
            let after = ahd_after(ahd_triggered(env, shape, sample_rate), frames);
            ||| after.stage == AhdStage::Idle && after.level == Fixed::of_spec(0)
            ||| after.stage == AhdStage::Sustain && after.level == sustain && shape.gate
                && least::<Fixed>().below(sustain)
        }),
{
    let f = FRACTION as int;
    let triggered = ahd_triggered(env, shape, sample_rate);
    a_trigger_forms_an_envelope(env, shape, sample_rate);
    lemma_segment_takes_its_time(shape.attack_s, sample_rate);
    lemma_segment_takes_its_time(shape.decay_s, sample_rate);
    let a = segment_left(0, triggered.attack_rate.raw as int);
    let d = segment_left(0, triggered.decay_rate.raw as int);
    let x = shape.attack_s.raw as int;
    let y = shape.hold_s.raw as int;
    let z = shape.decay_s.raw as int;
    let sr = sample_rate as int;
    let h = triggered.hold_samples as int;
    assert(h * f <= y * sr) by {
        let wanted = max_of(shape.hold_s, Fixed::of_spec(0)).times(
            Fixed::of_spec(sample_rate as nat),
        );
        let n = y * sr;
        assert(0 <= n <= f * 1_000_000_000) by (nonlinear_arith)
            requires
                n == y * sr,
                0 <= y <= f,
                0 <= sr <= 1_000_000_000,
                f == 0x1_0000_0000,
        ;
        assert(y * (sr * f) == n * f && (n * f) / f == n && n * f >= 0) by (nonlinear_arith)
            requires
                n == y * sr,
                f == 0x1_0000_0000,
                0 <= n,
        ;
        assert(wanted.raw == n);
        assert(n / f * f <= n) by (nonlinear_arith)
            requires
                f == 0x1_0000_0000,
        ;
        assert(h <= n / f);
        assert(h * f <= n / f * f) by (nonlinear_arith)
            requires
                h <= n / f,
                f == 0x1_0000_0000,
        ;
    }
    assert(3 * (a + d + h - 2) * f <= 4 * (f * sr)) by (nonlinear_arith)
        requires
            3 * (a - 1) * f <= 4 * (x * sr),
            3 * (d - 1) * f <= 4 * (z * sr),
            h * f <= y * sr,
            0 <= y,
            x + y + z <= f,
            0 < sr,
            0 < f,
    ;
    assert(a + d + h <= 2 * sr) by (nonlinear_arith)
        requires
            3 * (a + d + h - 2) * f <= 4 * (f * sr),
            3 <= sr,
            0 < f,
    ;
    lemma_segment_left(0, triggered.attack_rate.raw as int);
    lemma_segment_left(0, triggered.decay_rate.raw as int);
    an_envelope_ends(triggered, frames);
}

} // verus!
