//! Small filters shared by the synth voices and the effects.
//!
//! Every filter here is a step function: the state before, one input sample
//! and the controls give the state after and one output sample. The contracts
//! state that function, so a block through a filter is the fold of its steps.

use vstd::prelude::*;

use crate::curves::{
    a_root_is_a_root, pi, pi_of, sine_is_bounded, tanh_is_bounded, tau, tau_of, Curves,
};
use crate::num::{
    a_gain_shrinks, clamp, clamp_of, clamp_param, clamp_param_of, is_gain, magnitude,
    nothing_times, one_times, products_commute, products_stay_within, quotient,
    quotients_stay_within, ratio, ratio_of, times_one, within, Fixed, Sample, FRACTION,
};

verus! {

/// The rate in Hz as a number.
pub open spec fn rate_of<S: Sample>(sample_rate: u32) -> S {
    S::of_spec(sample_rate as nat)
}

fn rate<S: Sample>(sample_rate: u32) -> (value: S)
    ensures
        value == rate_of::<S>(sample_rate),
{
    S::of(sample_rate as usize)
}

/// The highest cutoff any filter here is tuned to: `0.45` of the rate.
pub open spec fn highest_cutoff<S: Sample>(sample_rate: S) -> S {
    sample_rate.times(ratio_of(45, 100))
}

/// Whether a stored sample has decayed below audibility.
pub open spec fn at_rest<S: Sample>(state: S, epsilon: S) -> bool {
    state.abs_spec().at_most(epsilon)
}

/// A topology-preserving state-variable low-pass filter. Unlike a biquad it
/// stays well behaved while cutoff moves every sample, which is what
/// envelope-modulated synth filters need.
#[derive(Clone, Copy, Debug)]
pub struct Svf<S> {
    pub low: S,
    pub band: S,
}

/// What one cutoff and resonance make of a state-variable stage.
#[derive(Clone, Copy, Debug, PartialEq)]
pub struct SvfCoeffs<S> {
    pub g: S,
    pub a1: S,
    pub a2: S,
    pub a3: S,
    pub damping: S,
}

/// A stage with nothing stored.
pub open spec fn svf_silent<S: Sample>() -> Svf<S> {
    Svf { low: S::of_spec(0), band: S::of_spec(0) }
}

/// The low-pass, band-pass and high-pass outputs of one step.
pub open spec fn svf_outputs<S: Sample>(svf: Svf<S>, input: S, coeffs: SvfCoeffs<S>) -> (S, S, S) {
    let rise = input.minus(svf.low);
    let band = coeffs.a1.times(svf.band).plus(coeffs.a2.times(rise));
    let low = svf.low.plus(coeffs.a2.times(svf.band)).plus(coeffs.a3.times(rise));
    (low, band, input.minus(coeffs.damping.times(band)).minus(low))
}

/// The stage after one step.
pub open spec fn svf_stepped<S: Sample>(svf: Svf<S>, input: S, coeffs: SvfCoeffs<S>) -> Svf<S> {
    let (low, band, _) = svf_outputs(svf, input, coeffs);
    Svf {
        low: S::of_spec(2).times(low).minus(svf.low),
        band: S::of_spec(2).times(band).minus(svf.band),
    }
}

/// The stage's damping for a resonance: `2` at none, `0.1` at full.
pub open spec fn damping_of<S: Sample>(resonance: S) -> S {
    clamp_of(
        S::of_spec(2).minus(
            clamp_param_of(resonance, S::of_spec(0), S::of_spec(1)).times(ratio_of(19, 10)),
        ),
        ratio_of(1, 10),
        S::of_spec(2),
    )
}

/// The coefficient set for a prewarped corner and a damping.
pub open spec fn svf_coeffs<S: Sample>(g: S, damping: S) -> SvfCoeffs<S> {
    let one = S::of_spec(1);
    let a1 = one.over(one.plus(g.times(g.plus(damping))));
    let a2 = g.times(a1);
    SvfCoeffs { g, a1, a2, a3: g.times(a2), damping }
}

/// The prewarped corner of a cutoff in Hz: the tangent of half its angle.
pub open spec fn prewarped<S: Curves>(cutoff_hz: S, sample_rate: u32) -> S {
    let sr = rate_of::<S>(sample_rate);
    let cutoff = clamp_param_of(cutoff_hz, S::of_spec(20), highest_cutoff(sr));
    pi_of::<S>().times(cutoff).over(sr).tan_spec()
}

/// The coefficient set for a cutoff in Hz and a resonance.
pub open spec fn svf_tuned<S: Curves>(cutoff_hz: S, resonance: S, sample_rate: u32) -> SvfCoeffs<S> {
    svf_coeffs(prewarped(cutoff_hz, sample_rate), damping_of(resonance))
}

impl<S: Sample> Svf<S> {
    pub fn new() -> (svf: Self)
        ensures
            svf == svf_silent::<S>(),
    {
        Svf { low: S::of(0), band: S::of(0) }
    }

    pub fn reset(&mut self)
        ensures
            *final(self) == svf_silent::<S>(),
    {
        self.low = S::of(0);
        self.band = S::of(0);
    }

    /// Whether the stage's stored energy has decayed far enough that silent
    /// input produces silent output. At high resonance this stays false for
    /// a long time, which is the honest answer: a nearly self-oscillating
    /// stage is still ringing.
    pub fn is_at_rest(&self, epsilon: S) -> (answer: bool)
        ensures
            answer == (at_rest(self.low, epsilon) && at_rest(self.band, epsilon)),
    {
        self.low.abs().le(epsilon) && self.band.abs().le(epsilon)
    }

    /// Process one sample from a coefficient set, returning the low-pass,
    /// band-pass and high-pass outputs of the one stage. The high-pass is the
    /// exact complement of the other two, not the leaky `input - low`.
    pub fn tick_with(&mut self, input: S, coeffs: &SvfCoeffs<S>) -> (out: (S, S, S))
        ensures
            *final(self) == svf_stepped(*old(self), input, *coeffs),
            out == svf_outputs(*old(self), input, *coeffs),
    {
        let v3 = input.sub(self.low);
        let v1 = coeffs.a1.mul(self.band).add(coeffs.a2.mul(v3));
        let v2 = self.low.add(coeffs.a2.mul(self.band)).add(coeffs.a3.mul(v3));
        let high = input.sub(coeffs.damping.mul(v1)).sub(v2);
        self.band = S::of(2).mul(v1).sub(self.band);
        self.low = S::of(2).mul(v2).sub(self.low);
        (v2, v1, high)
    }
}

impl<S: Curves> Svf<S> {
    /// Process one sample and return the low-pass. `cutoff_hz` is clamped to a
    /// safe range; `resonance` in `[0, 1]` approaches self-oscillation at the
    /// top.
    pub fn next_sample(&mut self, input: S, cutoff_hz: S, resonance: S, sample_rate: u32) -> (out: S)
        ensures
            *final(self) == svf_stepped(
                *old(self),
                input,
                svf_tuned(cutoff_hz, resonance, sample_rate),
            ),
            out == svf_outputs(*old(self), input, svf_tuned(cutoff_hz, resonance, sample_rate)).0,
    {
        self.tick(input, cutoff_hz, resonance, sample_rate).0
    }

    /// Process one sample, returning the low-pass and the high-pass.
    pub fn next_sample_lp_hp(
        &mut self,
        input: S,
        cutoff_hz: S,
        resonance: S,
        sample_rate: u32,
    ) -> (out: (S, S))
        ensures
            *final(self) == svf_stepped(
                *old(self),
                input,
                svf_tuned(cutoff_hz, resonance, sample_rate),
            ),
            ({
                let (low, _, high) = svf_outputs(
                    *old(self),
                    input,
                    svf_tuned(cutoff_hz, resonance, sample_rate),
                );
                out == (low, high)
            }),
    {
        let (low, _, high) = self.tick(input, cutoff_hz, resonance, sample_rate);
        (low, high)
    }

    /// Process one sample and return the low-pass, band-pass, and high-pass
    /// outputs from the same stage.
    pub fn next_sample_lp_bp_hp(
        &mut self,
        input: S,
        cutoff_hz: S,
        resonance: S,
        sample_rate: u32,
    ) -> (out: (S, S, S))
        ensures
            *final(self) == svf_stepped(
                *old(self),
                input,
                svf_tuned(cutoff_hz, resonance, sample_rate),
            ),
            out == svf_outputs(*old(self), input, svf_tuned(cutoff_hz, resonance, sample_rate)),
    {
        self.tick(input, cutoff_hz, resonance, sample_rate)
    }

    fn tick(&mut self, input: S, cutoff_hz: S, resonance: S, sample_rate: u32) -> (out: (S, S, S))
        ensures
            *final(self) == svf_stepped(
                *old(self),
                input,
                svf_tuned(cutoff_hz, resonance, sample_rate),
            ),
            out == svf_outputs(*old(self), input, svf_tuned(cutoff_hz, resonance, sample_rate)),
    {
        let coeffs = SvfCoeffs::for_cutoff(cutoff_hz, resonance, sample_rate);
        self.tick_with(input, &coeffs)
    }
}

impl<S: Curves> SvfCoeffs<S> {
    /// Derive the coefficient set for a cutoff, a resonance and a rate. A
    /// caller holding them constant across many samples calls this once
    /// instead of paying the tangent per sample.
    pub fn for_cutoff(cutoff_hz: S, resonance: S, sample_rate: u32) -> (coeffs: Self)
        ensures
            coeffs == svf_tuned(cutoff_hz, resonance, sample_rate),
    {
        let sr = rate::<S>(sample_rate);
        let cutoff = clamp_param(cutoff_hz, S::of(20), sr.mul(ratio(45, 100)));
        let g = pi::<S>().mul(cutoff).div(sr).tan();
        let held = clamp_param(resonance, S::of(0), S::of(1));
        let damping = clamp(S::of(2).sub(held.mul(ratio(19, 10))), ratio(1, 10), S::of(2));
        let a1 = S::of(1).div(S::of(1).add(g.mul(g.add(damping))));
        let a2 = g.mul(a1);
        let a3 = g.mul(a2);
        SvfCoeffs { g, a1, a2, a3, damping }
    }
}

/// `a` and `b` mixed: `a` at `t = 0`, `b` at `t = 1`. Written as two weights
/// rather than as a step from `a`, so that at each end one term vanishes and
/// the other is untouched.
pub open spec fn mixed<S: Sample>(a: S, b: S, t: S) -> S {
    a.times(S::of_spec(1).minus(t)).plus(b.times(t))
}

fn mix<S: Sample>(a: S, b: S, t: S) -> (value: S)
    ensures
        value == mixed(a, b, t),
{
    a.mul(S::of(1).sub(t)).add(b.mul(t))
}

/// A coefficient set part of the way to another, `t` held to `[0, 1]`.
pub open spec fn svf_lerped<S: Sample>(a: SvfCoeffs<S>, b: SvfCoeffs<S>, t: S) -> SvfCoeffs<S> {
    let t = clamp_of(t, S::of_spec(0), S::of_spec(1));
    SvfCoeffs {
        g: mixed(a.g, b.g, t),
        a1: mixed(a.a1, b.a1, t),
        a2: mixed(a.a2, b.a2, t),
        a3: mixed(a.a3, b.a3, t),
        damping: mixed(a.damping, b.damping, t),
    }
}

impl<S: Sample> SvfCoeffs<S> {
    /// Component-wise linear interpolation toward `other`, `t` clamped to
    /// `[0, 1]`. The stage is stable under an interpolated set, so a caller
    /// sweeping across a block can ramp the numbers instead of re-deriving
    /// the tangent every sample.
    pub fn lerp(&self, other: &Self, t: S) -> (coeffs: Self)
        ensures
            coeffs == svf_lerped(*self, *other, t),
    {
        let t = clamp(t, S::of(0), S::of(1));
        SvfCoeffs {
            g: mix(self.g, other.g, t),
            a1: mix(self.a1, other.a1, t),
            a2: mix(self.a2, other.a2, t),
            a3: mix(self.a3, other.a3, t),
            damping: mix(self.damping, other.damping, t),
        }
    }
}

impl<S: Sample> Default for Svf<S> {
    fn default() -> (svf: Self)
        ensures
            svf == svf_silent::<S>(),
    {
        Self::new()
    }
}

/// The decay per sample of a pole at a cutoff in Hz.
pub open spec fn pole_decay<S: Curves>(cutoff_hz: S, sample_rate: u32) -> S {
    let sr = rate_of::<S>(sample_rate);
    let cutoff = clamp_param_of(cutoff_hz, S::of_spec(10), highest_cutoff(sr));
    tau_of::<S>().negated().times(cutoff).over(sr).exp_spec()
}

fn decay<S: Curves>(cutoff_hz: S, sample_rate: u32) -> (value: S)
    ensures
        value == pole_decay(cutoff_hz, sample_rate),
{
    let sr = rate::<S>(sample_rate);
    let cutoff = clamp_param(cutoff_hz, S::of(10), sr.mul(ratio(45, 100)));
    tau::<S>().neg().mul(cutoff).div(sr).exp()
}

/// A one-pole high-pass filter for noise shaping (hats, snare snap).
#[derive(Clone, Copy, Debug)]
pub struct OnePoleHp<S> {
    pub prev_in: S,
    pub prev_out: S,
    pub coeff: S,
}

impl<S: Sample> OnePoleHp<S> {
    pub fn new() -> (hp: Self)
        ensures
            hp == (OnePoleHp {
                prev_in: S::of_spec(0),
                prev_out: S::of_spec(0),
                coeff: S::of_spec(0),
            }),
    {
        OnePoleHp { prev_in: S::of(0), prev_out: S::of(0), coeff: S::of(0) }
    }

    pub fn reset(&mut self)
        ensures
            *final(self) == (OnePoleHp {
                prev_in: S::of_spec(0),
                prev_out: S::of_spec(0),
                coeff: old(self).coeff,
            }),
    {
        self.prev_in = S::of(0);
        self.prev_out = S::of(0);
    }

    pub fn next_sample(&mut self, input: S) -> (out: S)
        ensures
            out == input.minus(old(self).prev_in).plus(old(self).coeff.times(old(self).prev_out)),
            *final(self) == (OnePoleHp { prev_in: input, prev_out: out, coeff: old(self).coeff }),
    {
        let out = input.sub(self.prev_in).add(self.coeff.mul(self.prev_out));
        self.prev_in = input;
        self.prev_out = out;
        out
    }
}

impl<S: Curves> OnePoleHp<S> {
    pub fn set_cutoff(&mut self, cutoff_hz: S, sample_rate: u32)
        ensures
            *final(self) == (OnePoleHp { coeff: pole_decay(cutoff_hz, sample_rate), ..*old(self) }),
    {
        self.coeff = decay(cutoff_hz, sample_rate);
    }
}

impl<S: Sample> Default for OnePoleHp<S> {
    fn default() -> (hp: Self)
        ensures
            hp == (OnePoleHp {
                prev_in: S::of_spec(0),
                prev_out: S::of_spec(0),
                coeff: S::of_spec(0),
            }),
    {
        Self::new()
    }
}

/// A one-pole low-pass filter: a tone or damping stage. Not for
/// envelope-modulated cutoff sweeps, which are [`Svf`]'s; this smooths a
/// spectral tilt or damps a feedback path whose cutoff changes slowly.
#[derive(Clone, Copy, Debug)]
pub struct OnePoleLp<S> {
    pub state: S,
    pub coeff: S,
}

/// The pole after one sample, which is also its output.
pub open spec fn leaked<S: Sample>(state: S, input: S, coeff: S) -> S {
    state.plus(input.minus(state).times(coeff))
}

impl<S: Sample> OnePoleLp<S> {
    pub fn new() -> (lp: Self)
        ensures
            lp == (OnePoleLp { state: S::of_spec(0), coeff: S::of_spec(0) }),
    {
        OnePoleLp { state: S::of(0), coeff: S::of(0) }
    }

    /// Set the leak coefficient directly, bypassing the Hz mapping, for a
    /// caller that smooths the coefficient itself rather than a cutoff.
    pub fn set_coeff(&mut self, coeff: S)
        ensures
            *final(self) == (OnePoleLp {
                state: old(self).state,
                coeff: clamp_param_of(coeff, S::of_spec(0), S::of_spec(1)),
            }),
    {
        self.coeff = clamp_param(coeff, S::of(0), S::of(1));
    }

    pub fn reset(&mut self)
        ensures
            *final(self) == (OnePoleLp { state: S::of_spec(0), coeff: old(self).coeff }),
    {
        self.state = S::of(0);
    }

    /// Whether the pole's stored sample has decayed below audibility.
    pub fn is_at_rest(&self, epsilon: S) -> (answer: bool)
        ensures
            answer == at_rest(self.state, epsilon),
    {
        self.state.abs().le(epsilon)
    }

    pub fn next_sample(&mut self, input: S) -> (out: S)
        ensures
            out == leaked(old(self).state, input, old(self).coeff),
            *final(self) == (OnePoleLp { state: out, coeff: old(self).coeff }),
    {
        self.state = self.state.add(input.sub(self.state).mul(self.coeff));
        self.state
    }
}

impl<S: Curves> OnePoleLp<S> {
    pub fn set_cutoff(&mut self, cutoff_hz: S, sample_rate: u32)
        ensures
            *final(self) == (OnePoleLp {
                state: old(self).state,
                coeff: S::of_spec(1).minus(pole_decay(cutoff_hz, sample_rate)),
            }),
    {
        self.coeff = S::of(1).sub(decay(cutoff_hz, sample_rate));
    }
}

impl<S: Sample> Default for OnePoleLp<S> {
    fn default() -> (lp: Self)
        ensures
            lp == (OnePoleLp { state: S::of_spec(0), coeff: S::of_spec(0) }),
    {
        Self::new()
    }
}

/// A first-order all-pass stage: unity gain at every frequency, phase shift
/// only. The coefficient is supplied per call rather than stored, since
/// callers like a phaser cascade recompute it from a swept frequency.
#[derive(Clone, Copy, Debug)]
pub struct AllPass<S> {
    pub z: S,
}

/// The output of one all-pass step from the stored sample `z`.
pub open spec fn all_passed<S: Sample>(z: S, input: S, coefficient: S) -> S {
    coefficient.negated().times(input).plus(z)
}

/// The stored sample after that step.
pub open spec fn all_pass_kept<S: Sample>(z: S, input: S, coefficient: S) -> S {
    input.plus(coefficient.times(all_passed(z, input, coefficient)))
}

impl<S: Sample> AllPass<S> {
    pub fn new() -> (stage: Self)
        ensures
            stage == (AllPass { z: S::of_spec(0) }),
    {
        AllPass { z: S::of(0) }
    }

    pub fn reset(&mut self)
        ensures
            *final(self) == (AllPass { z: S::of_spec(0) }),
    {
        self.z = S::of(0);
    }

    pub fn next(&mut self, input: S, coefficient: S) -> (output: S)
        ensures
            output == all_passed(old(self).z, input, coefficient),
            *final(self) == (AllPass { z: all_pass_kept(old(self).z, input, coefficient) }),
    {
        let output = coefficient.neg().mul(input).add(self.z);
        self.z = input.add(coefficient.mul(output));
        output
    }
}

impl<S: Sample> Default for AllPass<S> {
    fn default() -> (stage: Self)
        ensures
            stage == (AllPass { z: S::of_spec(0) }),
    {
        Self::new()
    }
}

/// The least drive that is not simply off: `2^-23`.
pub open spec fn drive_floor<S: Sample>() -> S {
    ratio_of(1, 8_388_608)
}

/// The drive knob held to its range.
pub open spec fn drive_held<S: Sample>(drive: S) -> S {
    clamp_param_of(drive, S::of_spec(0), S::of_spec(1))
}

/// Whether a drive knob is off.
pub open spec fn drive_off<S: Sample>(drive: S) -> bool {
    drive_held(drive).at_most(drive_floor())
}

/// The gain into the shaper at a drive.
pub open spec fn drive_gain<S: Sample>(drive: S) -> S {
    S::of_spec(1).plus(drive_held(drive).times(S::of_spec(15)))
}

/// The makeup gain at a drive: what brings a signal at the `reference` level
/// back to that level. One where the drive is off.
pub open spec fn drive_makeup<S: Curves>(drive: S, reference: S) -> S {
    if drive_off(drive) {
        S::of_spec(1)
    } else {
        reference.over(reference.times(drive_gain(drive)).tanh_spec())
    }
}

/// A sample through the shaper, `compensation` being the makeup gain.
pub open spec fn driven<S: Curves>(input: S, drive: S, compensation: S) -> S {
    if drive_off(drive) {
        input
    } else {
        input.times(drive_gain(drive)).tanh_spec().times(compensation)
    }
}

/// Compensated soft saturation: a gain into a `tanh`, normalized by the
/// shaper's own response to a signal at the `reference` level, so that raising
/// drive changes character, not level. A static nonlinearity cannot be
/// level-flat at every input; anchoring at the operating level is the
/// compromise, and it also caps a full-scale peak at the reference.
pub fn apply_drive<S: Curves>(input: S, drive: S, reference: S) -> (out: S)
    ensures
        out == driven(input, drive, drive_makeup(drive, reference)),
{
    let held = clamp_param(drive, S::of(0), S::of(1));
    if held.le(ratio(1, 8_388_608)) {
        return input;
    }
    apply_drive_compensated(input, drive, drive_compensation(drive, reference))
}

/// The part of [`apply_drive`] that depends on `drive` alone, not on the
/// sample. A caller shaping many samples at one drive computes this once.
pub fn drive_compensation<S: Curves>(drive: S, reference: S) -> (makeup: S)
    ensures
        makeup == drive_makeup(drive, reference),
{
    let held = clamp_param(drive, S::of(0), S::of(1));
    if held.le(ratio(1, 8_388_608)) {
        return S::of(1);
    }
    let input_gain = S::of(1).add(held.mul(S::of(15)));
    reference.div(reference.mul(input_gain).tanh())
}

/// [`apply_drive`] with [`drive_compensation`] already computed.
pub fn apply_drive_compensated<S: Curves>(input: S, drive: S, compensation: S) -> (out: S)
    ensures
        out == driven(input, drive, compensation),
{
    let held = clamp_param(drive, S::of(0), S::of(1));
    if held.le(ratio(1, 8_388_608)) {
        return input;
    }
    let input_gain = S::of(1).add(held.mul(S::of(15)));
    input.mul(input_gain).tanh().mul(compensation)
}

/// Where the voice ceiling starts to bend: above the loudest a sane patch
/// reaches, below where a resonant linear filter runs away.
pub open spec fn ceiling_knee<S: Sample>() -> S {
    ratio_of(3, 2)
}

/// What the voice ceiling tends to.
pub open spec fn ceiling<S: Sample>() -> S {
    ratio_of(5, 2)
}

/// The magnitude the ceiling makes of one above the knee.
pub open spec fn bent<S: Curves>(magnitude: S) -> S {
    let headroom = ceiling::<S>().minus(ceiling_knee());
    ceiling_knee::<S>().plus(
        headroom.times(magnitude.minus(ceiling_knee()).over(headroom).tanh_spec()),
    )
}

/// A sample under the ceiling: itself up to the knee, bent above it.
pub open spec fn under_ceiling<S: Curves>(input: S) -> S {
    if input.abs_spec().at_most(ceiling_knee()) {
        input
    } else if input.below(S::of_spec(0)) {
        bent(input.abs_spec()).negated()
    } else {
        bent(input.abs_spec())
    }
}

/// A safety ceiling for a voice's output: exactly transparent below the knee,
/// asymptotic to the ceiling above it. A bound, not a tone stage: [`Ladder`]
/// and [`Acid`] never reach it, and [`Svf`], which is linear, can.
pub fn soft_ceiling<S: Curves>(input: S) -> (out: S)
    ensures
        out == under_ceiling(input),
{
    let magnitude = input.abs();
    let knee = ratio::<S>(3, 2);
    if magnitude.le(knee) {
        return input;
    }
    let headroom = ratio::<S>(5, 2).sub(knee);
    let over = magnitude.sub(knee).div(headroom);
    let bent = knee.add(headroom.mul(over.tanh()));
    if input.lt(S::of(0)) {
        bent.neg()
    } else {
        bent
    }
}

/// A cascade of identical one-pole stages, and where its half-power point
/// sits relative to one stage's. Both numbers are fractions, numerator first.
#[derive(Clone, Copy, Debug)]
pub struct Cascade {
    /// `sqrt(2^(1/n) - 1)`: an analog cascade of `n` one-poles at one corner
    /// is at half power at this fraction of it.
    pub spread: (usize, usize),
    /// `r / (1 - r)` with `r = 2^(-1/n)`, the power each stage passes at the
    /// cascade's half-power point.
    pub share: (usize, usize),
}

/// The four stages of the [`Ladder`].
pub open spec fn four_poles_of() -> Cascade {
    Cascade { spread: (43_497_944, 100_000_000), share: (52_852_135, 10_000_000) }
}

/// The three stages of the [`Acid`].
pub open spec fn three_poles_of() -> Cascade {
    Cascade { spread: (5_098_245, 10_000_000), share: (3_847_322, 1_000_000) }
}

pub fn four_poles() -> (cascade: Cascade)
    ensures
        cascade == four_poles_of(),
{
    Cascade { spread: (43_497_944, 100_000_000), share: (52_852_135, 10_000_000) }
}

pub fn three_poles() -> (cascade: Cascade)
    ensures
        cascade == three_poles_of(),
{
    Cascade { spread: (5_098_245, 10_000_000), share: (3_847_322, 1_000_000) }
}

/// The per-stage coefficient that puts the whole cascade's half-power point on
/// a corner in Hz, at any rate.
///
/// Each stage has `|H(w)|^2 = g^2 / (1 - 2a cos w + a^2)` with `a = 1 - g`.
/// Setting that to `r = 2^(-1/n)` gives `a^2 - 2ab + 1 = 0` with `b = 1 + e`
/// and `e = r (1 - cos w) / (1 - r)`; the root inside the unit circle is the
/// pole, so `g = sqrt(e (2 + e)) - e`. `1 - cos w` is `2 sin^2(w / 2)`, which
/// is still exact where `cos w` would round to one.
pub open spec fn cascade_coeff<S: Curves>(cascade: Cascade, corner_hz: S, sample_rate: S) -> S {
    let half = pi_of::<S>().times(corner_hz).over(sample_rate).sin_spec();
    let e = ratio_of::<S>(cascade.share.0 as nat, cascade.share.1 as nat).times(
        S::of_spec(2),
    ).times(half).times(half);
    e.times(S::of_spec(2).plus(e)).sqrt_spec().minus(e)
}

/// The coefficient for a cutoff knob in Hz: the stage corner is the cutoff
/// times the model's compensation, clamped, and the cascade is cornered at its
/// spread of that.
pub open spec fn cascade_tuned<S: Curves>(
    cascade: Cascade,
    cutoff_hz: S,
    compensation: S,
    sample_rate: S,
) -> S {
    let stage = clamp_param_of(
        cutoff_hz.times(compensation),
        S::of_spec(20),
        highest_cutoff(sample_rate),
    );
    cascade_coeff(
        cascade,
        stage.times(ratio_of(cascade.spread.0 as nat, cascade.spread.1 as nat)),
        sample_rate,
    )
}

impl Cascade {
    pub fn coeff<S: Curves>(self, corner_hz: S, sample_rate: S) -> (g: S)
        ensures
            g == cascade_coeff(self, corner_hz, sample_rate),
    {
        let half = pi::<S>().mul(corner_hz).div(sample_rate).sin();
        let share = ratio::<S>(self.share.0, self.share.1);
        let e = share.mul(S::of(2)).mul(half).mul(half);
        e.mul(S::of(2).add(e)).sqrt().sub(e)
    }

    pub fn coeff_for<S: Curves>(self, cutoff_hz: S, compensation: S, sample_rate: S) -> (g: S)
        ensures
            g == cascade_tuned(self, cutoff_hz, compensation, sample_rate),
    {
        let stage = clamp_param(
            cutoff_hz.mul(compensation),
            S::of(20),
            sample_rate.mul(ratio(45, 100)),
        );
        self.coeff(stage.mul(ratio(self.spread.0, self.spread.1)), sample_rate)
    }
}

/// One stage of a cascade after a step toward `input`.
pub open spec fn pulled<S: Sample>(stage: S, g: S, input: S) -> S {
    stage.plus(g.times(input.minus(stage)))
}

/// The stages of a cascade after a step: each one follows the one before it.
pub open spec fn cascaded<S: Sample>(stages: Seq<S>, g: S, input: S) -> Seq<S>
    decreases stages.len(),
{
    if stages.len() == 0 {
        stages
    } else {
        let before = cascaded(stages.drop_last(), g, input);
        let fed = if stages.len() == 1 {
            input
        } else {
            before.last()
        };
        before.push(pulled(stages.last(), g, fed))
    }
}

/// The feedback gain of a resonance knob: `most` at full, scaled with the
/// stage coefficient because the one-sample delay in the loop costs more phase
/// the higher the corner sits.
pub open spec fn feedback_gain<S: Sample>(resonance: S, most: S, tracking: S, g: S) -> S {
    clamp_param_of(resonance, S::of_spec(0), S::of_spec(1)).times(most).times(
        S::of_spec(1).plus(tracking.times(g)),
    )
}

/// What goes into a ladder's shaper. A fraction of the input bypasses the
/// feedback subtraction, so that the bass thins rather than vanishes.
pub open spec fn loop_input<S: Sample>(input: S, k: S, bass: S, feedback: S) -> S {
    input.times(S::of_spec(1).plus(k.times(bass))).minus(k.times(feedback))
}

/// A nonlinear four-pole ladder low-pass: four one-pole stages with a
/// resonance path from the last back to the input, saturated inside the loop.
///
/// The only thing the stages ever integrate is a `tanh`, so every stage stays
/// between minus one and one whatever resonance, cutoff, or input level do.
#[derive(Clone, Copy, Debug)]
pub struct Ladder<S> {
    pub stage: [S; 4],
    /// Last output, which is what the feedback path reads.
    pub feedback: S,
}

/// The ladder's stage coefficient at a cutoff. Each stage is cornered at
/// `1.5538` times the cutoff.
pub open spec fn ladder_coeff<S: Curves>(cutoff_hz: S, sample_rate: u32) -> S {
    cascade_tuned(four_poles_of(), cutoff_hz, ratio_of(15_538, 10_000), rate_of(sample_rate))
}

/// The ladder's feedback gain at these settings: at most `4.3`, tracking `1.5`.
pub open spec fn ladder_feedback<S: Curves>(cutoff_hz: S, resonance: S, sample_rate: u32) -> S {
    feedback_gain(
        resonance,
        ratio_of(43, 10),
        ratio_of(3, 2),
        ladder_coeff(cutoff_hz, sample_rate),
    )
}

/// The ladder's stages after a step: they follow a `tanh` of the loop's input,
/// half of the bass compensated.
pub open spec fn ladder_stages<S: Curves>(
    ladder: Ladder<S>,
    input: S,
    cutoff_hz: S,
    resonance: S,
    sample_rate: u32,
) -> Seq<S> {
    cascaded(
        ladder.stage@,
        ladder_coeff(cutoff_hz, sample_rate),
        loop_input(
            input,
            ladder_feedback(cutoff_hz, resonance, sample_rate),
            ratio_of(1, 2),
            ladder.feedback,
        ).tanh_spec(),
    )
}

impl<S: Sample> Ladder<S> {
    /// A ladder with nothing stored.
    pub open spec fn silent(&self) -> bool {
        &&& forall|i: int| 0 <= i < 4 ==> #[trigger] self.stage[i] == S::of_spec(0)
        &&& self.feedback == S::of_spec(0)
    }

    pub fn new() -> (ladder: Self)
        ensures
            ladder.silent(),
    {
        Ladder { stage: [S::of(0); 4], feedback: S::of(0) }
    }

    pub fn reset(&mut self)
        ensures
            final(self).silent(),
    {
        self.stage = [S::of(0); 4];
        self.feedback = S::of(0);
    }
}

impl<S: Curves> Ladder<S> {
    /// The resonance feedback gain this filter would use at these settings.
    /// How much level resonance costs is a function of it, so a host that
    /// wants to compensate reads it here.
    pub fn feedback_at(cutoff_hz: S, resonance: S, sample_rate: u32) -> (k: S)
        ensures
            k == ladder_feedback(cutoff_hz, resonance, sample_rate),
    {
        let g = four_poles().coeff_for(cutoff_hz, ratio(15_538, 10_000), rate(sample_rate));
        clamp_param(resonance, S::of(0), S::of(1)).mul(ratio(43, 10)).mul(
            S::of(1).add(ratio::<S>(3, 2).mul(g)),
        )
    }

    /// Process one sample. Safe to call with `cutoff_hz` moving every sample,
    /// which is what an envelope-swept filter does.
    pub fn next_sample(&mut self, input: S, cutoff_hz: S, resonance: S, sample_rate: u32) -> (out: S)
        ensures
            final(self).stage@ == ladder_stages(
                *old(self),
                input,
                cutoff_hz,
                resonance,
                sample_rate,
            ),
            final(self).feedback == final(self).stage[3],
            out == final(self).stage[3],
    {
        let g = four_poles().coeff_for(cutoff_hz, ratio(15_538, 10_000), rate(sample_rate));
        let k = Self::feedback_at(cutoff_hz, resonance, sample_rate);
        let driven = input.mul(S::of(1).add(k.mul(ratio(1, 2)))).sub(k.mul(self.feedback));
        let shaped = driven.tanh();
        proof {
            lemma_cascaded(self.stage@, g, shaped);
        }
        self.stage[0] = self.stage[0].add(g.mul(shaped.sub(self.stage[0])));
        self.stage[1] = self.stage[1].add(g.mul(self.stage[0].sub(self.stage[1])));
        self.stage[2] = self.stage[2].add(g.mul(self.stage[1].sub(self.stage[2])));
        self.stage[3] = self.stage[3].add(g.mul(self.stage[2].sub(self.stage[3])));
        self.feedback = self.stage[3];
        self.stage[3]
    }
}

/// What each stage of a cascade becomes.
proof fn lemma_cascaded<S: Sample>(stages: Seq<S>, g: S, input: S)
    ensures
        cascaded(stages, g, input).len() == stages.len(),
        forall|i: int|
            0 <= i < stages.len() ==> #[trigger] cascaded(stages, g, input)[i] == pulled(
                stages[i],
                g,
                if i == 0 {
                    input
                } else {
                    cascaded(stages, g, input)[i - 1]
                },
            ),
    decreases stages.len(),
{
    if stages.len() > 0 {
        lemma_cascaded(stages.drop_last(), g, input);
    }
}

impl<S: Sample> Default for Ladder<S> {
    fn default() -> (ladder: Self)
        ensures
            ladder.silent(),
    {
        Self::new()
    }
}

/// A nonlinear three-pole ladder with an asymmetric resonance path.
///
/// Three poles rather than four, so less of the spectrum above the corner is
/// removed; a shaper that need not be symmetric, so there are even harmonics
/// as well as odd; and half the [`Ladder`]'s bass compensation, which is what
/// lets resonance squeeze the body out of a note.
#[derive(Clone, Copy, Debug)]
pub struct Acid<S> {
    pub stage: [S; 3],
    pub feedback: S,
}

/// The acid's stage coefficient at a cutoff. Each stage is cornered at `0.8`
/// times the cutoff.
pub open spec fn acid_coeff<S: Curves>(cutoff_hz: S, sample_rate: u32) -> S {
    cascade_tuned(three_poles_of(), cutoff_hz, ratio_of(8, 10), rate_of(sample_rate))
}

/// The acid's feedback gain at these settings: at most `12`, tracking `1.5`.
pub open spec fn acid_feedback<S: Curves>(cutoff_hz: S, resonance: S, sample_rate: u32) -> S {
    feedback_gain(
        resonance,
        S::of_spec(12),
        ratio_of(3, 2),
        acid_coeff(cutoff_hz, sample_rate),
    )
}

/// What the acid hands to its shaper: a quarter of the bass compensated.
pub open spec fn acid_input<S: Curves>(
    acid: Acid<S>,
    input: S,
    cutoff_hz: S,
    resonance: S,
    sample_rate: u32,
) -> S {
    loop_input(
        input,
        acid_feedback(cutoff_hz, resonance, sample_rate),
        ratio_of(1, 4),
        acid.feedback,
    )
}

impl<S: Sample> Acid<S> {
    /// An acid filter with nothing stored.
    pub open spec fn silent(&self) -> bool {
        &&& forall|i: int| 0 <= i < 3 ==> #[trigger] self.stage[i] == S::of_spec(0)
        &&& self.feedback == S::of_spec(0)
    }

    pub fn new() -> (acid: Self)
        ensures
            acid.silent(),
    {
        Acid { stage: [S::of(0); 3], feedback: S::of(0) }
    }

    pub fn reset(&mut self)
        ensures
            final(self).silent(),
    {
        self.stage = [S::of(0); 3];
        self.feedback = S::of(0);
    }
}

impl<S: Curves> Acid<S> {
    /// The resonance feedback gain this filter would use at these settings.
    pub fn feedback_at(cutoff_hz: S, resonance: S, sample_rate: u32) -> (k: S)
        ensures
            k == acid_feedback(cutoff_hz, resonance, sample_rate),
    {
        let g = three_poles().coeff_for(cutoff_hz, ratio(8, 10), rate(sample_rate));
        clamp_param(resonance, S::of(0), S::of(1)).mul(S::of(12)).mul(
            S::of(1).add(ratio::<S>(3, 2).mul(g)),
        )
    }

    /// Process one sample, `shape` being the saturation inside the loop.
    pub fn next_sample<F: Fn(S) -> S>(
        &mut self,
        input: S,
        cutoff_hz: S,
        resonance: S,
        sample_rate: u32,
        shape: F,
    ) -> (out: S)
        requires
            call_requires(
                shape,
                (acid_input(*old(self), input, cutoff_hz, resonance, sample_rate),),
            ),
        ensures
            exists|shaped: S|
                call_ensures(
                    shape,
                    (acid_input(*old(self), input, cutoff_hz, resonance, sample_rate),),
                    shaped,
                ) && final(self).stage@ == #[trigger] cascaded(
                    old(self).stage@,
                    acid_coeff(cutoff_hz, sample_rate),
                    shaped,
                ),
            final(self).feedback == final(self).stage[2],
            out == final(self).stage[2],
    {
        let g = three_poles().coeff_for(cutoff_hz, ratio(8, 10), rate(sample_rate));
        let k = Self::feedback_at(cutoff_hz, resonance, sample_rate);
        let driven = input.mul(S::of(1).add(k.mul(ratio(1, 4)))).sub(k.mul(self.feedback));
        let shaped = shape(driven);
        proof {
            lemma_cascaded(self.stage@, g, shaped);
        }
        self.stage[0] = self.stage[0].add(g.mul(shaped.sub(self.stage[0])));
        self.stage[1] = self.stage[1].add(g.mul(self.stage[0].sub(self.stage[1])));
        self.stage[2] = self.stage[2].add(g.mul(self.stage[1].sub(self.stage[2])));
        self.feedback = self.stage[2];
        assert(self.stage@ =~= cascaded(old(self).stage@, g, shaped));
        self.stage[2]
    }
}

impl<S: Sample> Default for Acid<S> {
    fn default() -> (acid: Self)
        ensures
            acid.silent(),
    {
        Self::new()
    }
}

/// Saturation that runs ahead of a filter rather than after it.
///
/// There the level is not known: it is the oscillator mix. So the makeup gain
/// follows the input's mean square instead of a fixed anchor. Sweeping drive
/// on a fixed patch changes harmonic content and leaves the level where it
/// was, and raising an oscillator's level changes the timbre.
#[derive(Clone, Copy, Debug)]
pub struct PreDrive<S> {
    /// Running mean square of the input and of the shaped signal. The ratio of
    /// their roots is the makeup gain.
    pub mean_input: S,
    pub mean_shaped: S,
}

/// A pre-drive that has heard nothing.
pub open spec fn pre_drive_silent<S: Sample>() -> PreDrive<S> {
    PreDrive { mean_input: S::of_spec(0), mean_shaped: S::of_spec(0) }
}

/// The gain into the shaper, gentler than [`apply_drive`]'s because this stage
/// sees a raw oscillator mix.
pub open spec fn pre_drive_gain<S: Sample>(drive: S) -> S {
    S::of_spec(1).plus(drive_held(drive).times(S::of_spec(4)))
}

/// The level followers' leak: a time constant of `0.05` seconds.
pub open spec fn pre_drive_follow<S: Curves>(sample_rate: u32) -> S {
    S::of_spec(1).minus(
        S::of_spec(1).negated().over(
            ratio_of::<S>(5, 100).times(rate_of(sample_rate)),
        ).exp_spec(),
    )
}

/// The followers after one sample.
pub open spec fn pre_drive_stepped<S: Curves>(
    stage: PreDrive<S>,
    input: S,
    drive: S,
    sample_rate: u32,
) -> PreDrive<S> {
    if drive_off(drive) {
        stage
    } else {
        let shaped = input.times(pre_drive_gain(drive)).tanh_spec();
        let follow = pre_drive_follow::<S>(sample_rate);
        PreDrive {
            mean_input: pulled(stage.mean_input, follow, input.times(input)),
            mean_shaped: pulled(stage.mean_shaped, follow, shaped.times(shaped)),
        }
    }
}

/// The least mean square the makeup gain is measured against.
pub open spec fn pre_drive_floor<S: Sample>() -> S {
    ratio_of::<S>(1, 1_000_000).times(ratio_of(1, 1_000_000))
}

/// The makeup gain of the followers' state: the ratio of their roots, and the
/// inverse of the gain before they have anything in them.
pub open spec fn pre_drive_makeup<S: Curves>(stage: PreDrive<S>, drive: S) -> S {
    if pre_drive_floor::<S>().below(stage.mean_shaped) {
        stage.mean_input.over(stage.mean_shaped).sqrt_spec()
    } else {
        S::of_spec(1).over(pre_drive_gain(drive))
    }
}

impl<S: Sample> PreDrive<S> {
    pub fn new() -> (stage: Self)
        ensures
            stage == pre_drive_silent::<S>(),
    {
        PreDrive { mean_input: S::of(0), mean_shaped: S::of(0) }
    }

    pub fn reset(&mut self)
        ensures
            *final(self) == pre_drive_silent::<S>(),
    {
        self.mean_input = S::of(0);
        self.mean_shaped = S::of(0);
    }
}

impl<S: Curves> PreDrive<S> {
    pub fn next_sample(&mut self, input: S, drive: S, sample_rate: u32) -> (out: S)
        ensures
            *final(self) == pre_drive_stepped(*old(self), input, drive, sample_rate),
            out == (if drive_off(drive) {
                input
            } else {
                input.times(pre_drive_gain(drive)).tanh_spec().times(
                    pre_drive_makeup(*final(self), drive),
                )
            }),
    {
        let held = clamp_param(drive, S::of(0), S::of(1));
        if held.le(ratio(1, 8_388_608)) {
            return input;
        }
        let gain = S::of(1).add(held.mul(S::of(4)));
        let shaped = input.mul(gain).tanh();
        let window = ratio::<S>(5, 100).mul(rate(sample_rate));
        let follow = S::of(1).sub(S::of(1).neg().div(window).exp());
        self.mean_input = self.mean_input.add(follow.mul(input.mul(input).sub(self.mean_input)));
        self.mean_shaped =
        self.mean_shaped.add(follow.mul(shaped.mul(shaped).sub(self.mean_shaped)));
        let floor = ratio::<S>(1, 1_000_000).mul(ratio(1, 1_000_000));
        let compensation = if floor.lt(self.mean_shaped) {
            self.mean_input.div(self.mean_shaped).sqrt()
        } else {
            S::of(1).div(gain)
        };
        shaped.mul(compensation)
    }
}

impl<S: Sample> Default for PreDrive<S> {
    fn default() -> (stage: Self)
        ensures
            stage == pre_drive_silent::<S>(),
    {
        Self::new()
    }
}

/// A step toward an input ends between the stage and the input.
pub proof fn a_step_stays_between(stage: Fixed, g: Fixed, input: Fixed, bound: int)
    requires
        is_gain(g),
        0 <= bound <= 0x1_0000_0000_0000,
        within(stage, bound),
        within(input, bound),
    ensures
        within(pulled(stage, g, input), bound),
{
    a_gain_shrinks(g, input.minus(stage));
}

/// A cascade fed within a bound stays within it.
pub proof fn a_cascade_stays_within(stages: Seq<Fixed>, g: Fixed, input: Fixed, bound: int)
    requires
        is_gain(g),
        0 <= bound <= 0x1_0000_0000_0000,
        within(input, bound),
        forall|i: int| 0 <= i < stages.len() ==> within(#[trigger] stages[i], bound),
    ensures
        cascaded(stages, g, input).len() == stages.len(),
        forall|i: int|
            0 <= i < stages.len() ==> within(#[trigger] cascaded(stages, g, input)[i], bound),
    decreases stages.len(),
{
    if stages.len() > 0 {
        let before = stages.drop_last();
        assert forall|i: int| 0 <= i < before.len() implies within(
            #[trigger] before[i],
            bound,
        ) by {
            assert(before[i] == stages[i]);
        }
        a_cascade_stays_within(before, g, input, bound);
        let fed = if stages.len() == 1 {
            input
        } else {
            cascaded(before, g, input).last()
        };
        a_step_stays_between(stages.last(), g, fed, bound);
    }
}

/// The stage coefficient of a cascade whose share is at most six is a gain, at
/// any corner and any rate: every stage is stable.
pub proof fn a_cascade_coefficient_is_a_gain(cascade: Cascade, corner_hz: Fixed, sample_rate: Fixed)
    requires
        cascade == four_poles_of() || cascade == three_poles_of(),
    ensures
        is_gain(cascade_coeff(cascade, corner_hz, sample_rate)),
{
    let f = FRACTION as int;
    let half = pi_of::<Fixed>().times(corner_hz).over(sample_rate).sin_spec();
    sine_is_bounded(pi_of::<Fixed>().times(corner_hz).over(sample_rate));
    let share = ratio_of::<Fixed>(cascade.share.0 as nat, cascade.share.1 as nat);
    let above = Fixed::of_spec(cascade.share.0 as nat);
    let below = Fixed::of_spec(cascade.share.1 as nat);
    assert(above.raw == cascade.share.0 * f && below.raw == cascade.share.1 * f);
    assert(magnitude(above.raw as int) * f <= (6 * f) * below.raw) by (nonlinear_arith)
        requires
            above.raw == cascade.share.0 * f,
            below.raw == cascade.share.1 * f,
            cascade.share.0 <= 6 * cascade.share.1,
            magnitude(above.raw as int) == above.raw,
            f == 0x1_0000_0000,
    ;
    quotients_stay_within(above, below, 6 * f);
    products_stay_within(share, Fixed::of_spec(2), 6 * f, 2 * f, 12 * f);
    let twice = share.times(Fixed::of_spec(2));
    products_stay_within(twice, half, 12 * f, 8 * f, 96 * f);
    let once = twice.times(half);
    products_stay_within(once, half, 96 * f, 8 * f, 768 * f);
    let e = once.times(half);
    assert(e.raw >= 0) by {
        lemma_same_sign_twice(twice, half);
    }
    lemma_pole_is_a_gain(e);
}

/// A number times a positive one, times itself again, is not negative.
proof fn lemma_same_sign_twice(positive: Fixed, half: Fixed)
    requires
        within(positive, 12 * FRACTION),
        positive.raw >= 0,
        within(half, 8 * FRACTION),
    ensures
        positive.times(half).times(half).raw >= 0,
{
    let f = FRACTION as int;
    assert((12 * f) * (8 * f) == (96 * f) * f) by (nonlinear_arith);
    assert((96 * f) * (8 * f) == (768 * f) * f) by (nonlinear_arith);
    products_stay_within(positive, half, 12 * f, 8 * f, 96 * f);
    let once = positive.times(half);
    if half.raw >= 0 {
        products_stay_within(once, half, 96 * f, 8 * f, 768 * f);
    } else {
        assert(positive.raw * half.raw <= 0) by (nonlinear_arith)
            requires
                positive.raw >= 0,
                half.raw < 0,
        ;
        assert(once.raw <= 0) by {
            let n = positive.raw * half.raw;
            assert((-n) / f >= 0) by (nonlinear_arith)
                requires
                    -n >= 0,
                    f == 0x1_0000_0000,
            ;
            assert(0int / f == 0);
        }
        products_stay_within(once, half, 96 * f, 8 * f, 768 * f);
    }
}

/// `sqrt(e (2 + e)) - e` is a gain for every `e` that is not negative.
proof fn lemma_pole_is_a_gain(e: Fixed)
    requires
        0 <= e.raw <= 768 * FRACTION,
    ensures
        is_gain(e.times(Fixed::of_spec(2).plus(e)).sqrt_spec().minus(e)),
{
    let f = FRACTION as int;
    let x = e.raw as int;
    let sum = Fixed::of_spec(2).plus(e);
    assert(sum.raw == 2 * f + x);
    let product = e.times(sum);
    let n = x * (2 * f + x);
    assert(0 <= n <= (768 * f) * (770 * f)) by (nonlinear_arith)
        requires
            n == x * (2 * f + x),
            0 <= x <= 768 * f,
            f == 0x1_0000_0000,
    ;
    assert(product.raw == n / f) by {
        assert(quotient(n, f) == n / f);
        assert(n / f <= 768 * 770 * f) by (nonlinear_arith)
            requires
                0 <= n <= (768 * f) * (770 * f),
                f == 0x1_0000_0000,
        ;
    }
    let m = product.raw as int;
    assert(n - f < m * f <= n) by (nonlinear_arith)
        requires
            m == n / f,
            0 <= n,
            f == 0x1_0000_0000,
    ;
    if x == 0 {
        assert(n == 0) by (nonlinear_arith)
            requires
                n == x * (2 * f + x),
                x == 0,
        ;
        assert(product.raw == 0);
    } else {
        assert(n >= 2 * f) by (nonlinear_arith)
            requires
                n == x * (2 * f + x),
                x >= 1,
                f == 0x1_0000_0000,
        ;
        assert(m > 0) by (nonlinear_arith)
            requires
                n - f < m * f,
                n >= 2 * f,
                f == 0x1_0000_0000,
        ;
        a_root_is_a_root(product);
        let r = product.sqrt_spec().raw as int;
        assert(r < x + f) by (nonlinear_arith)
            requires
                r >= 0,
                r * r <= m * f,
                m * f <= n,
                n == x * (2 * f + x),
                x >= 1,
                f == 0x1_0000_0000,
        ;
        assert(r >= x) by (nonlinear_arith)
            requires
                r >= 0,
                m * f < (r + 1) * (r + 1),
                n - f < m * f,
                n == x * (2 * f + x),
                x >= 1,
                f == 0x1_0000_0000,
        ;
    }
}

/// Whatever resonance, cutoff, rate and input level do, every stage of a
/// ladder of fixed-point samples stays between minus one and one: the stages
/// only ever integrate a `tanh`.
pub proof fn a_ladder_never_exceeds_one(
    ladder: Ladder<Fixed>,
    input: Fixed,
    cutoff_hz: Fixed,
    resonance: Fixed,
    sample_rate: u32,
)
    requires
        forall|i: int| 0 <= i < 4 ==> within(#[trigger] ladder.stage[i], FRACTION as int),
    ensures
        ({
            let after = ladder_stages(ladder, input, cutoff_hz, resonance, sample_rate);
            after.len() == 4 && forall|i: int|
                0 <= i < 4 ==> within(#[trigger] after[i], FRACTION as int)
        }),
{
    let driven = loop_input(
        input,
        ladder_feedback(cutoff_hz, resonance, sample_rate),
        ratio_of(1, 2),
        ladder.feedback,
    );
    let g = ladder_coeff(cutoff_hz, sample_rate);
    let rate = rate_of::<Fixed>(sample_rate);
    let stage = clamp_param_of(
        cutoff_hz.times(ratio_of(15_538, 10_000)),
        Fixed::of_spec(20),
        highest_cutoff(rate),
    );
    a_cascade_coefficient_is_a_gain(
        four_poles_of(),
        stage.times(ratio_of(43_497_944, 100_000_000)),
        rate,
    );
    tanh_is_bounded(driven);
    assert forall|i: int| 0 <= i < ladder.stage@.len() implies within(
        #[trigger] ladder.stage@[i],
        FRACTION as int,
    ) by {
        assert(within(ladder.stage[i], FRACTION as int));
    }
    a_cascade_stays_within(ladder.stage@, g, driven.tanh_spec(), FRACTION as int);
}

/// The same holds of an acid filter whose shaper stays between minus one and
/// one.
pub proof fn an_acid_never_exceeds_its_shaper(
    acid: Acid<Fixed>,
    shaped: Fixed,
    cutoff_hz: Fixed,
    sample_rate: u32,
)
    requires
        within(shaped, FRACTION as int),
        forall|i: int| 0 <= i < 3 ==> within(#[trigger] acid.stage[i], FRACTION as int),
    ensures
        ({
            let after = cascaded(acid.stage@, acid_coeff(cutoff_hz, sample_rate), shaped);
            after.len() == 3 && forall|i: int|
                0 <= i < 3 ==> within(#[trigger] after[i], FRACTION as int)
        }),
{
    let g = acid_coeff(cutoff_hz, sample_rate);
    let rate = rate_of::<Fixed>(sample_rate);
    let stage = clamp_param_of(
        cutoff_hz.times(ratio_of(8, 10)),
        Fixed::of_spec(20),
        highest_cutoff(rate),
    );
    a_cascade_coefficient_is_a_gain(
        three_poles_of(),
        stage.times(ratio_of(5_098_245, 10_000_000)),
        rate,
    );
    assert forall|i: int| 0 <= i < acid.stage@.len() implies within(
        #[trigger] acid.stage@[i],
        FRACTION as int,
    ) by {
        assert(within(acid.stage[i], FRACTION as int));
    }
    a_cascade_stays_within(acid.stage@, g, shaped, FRACTION as int);
}

/// Nothing leaves the voice ceiling, and what is under its knee is untouched.
pub proof fn nothing_leaves_the_ceiling(input: Fixed)
    ensures
        2 * magnitude(input.raw as int) <= 3 * FRACTION ==> under_ceiling(input) == input,
        2 * magnitude(under_ceiling(input).raw as int) <= 5 * FRACTION,
{
    let f = FRACTION as int;
    assert((3 * f) * f == 0x3_0000_0000_0000_0000) by (nonlinear_arith)
        requires
            f == 0x1_0000_0000,
    ;
    assert((5 * f) * f == 0x5_0000_0000_0000_0000) by (nonlinear_arith)
        requires
            f == 0x1_0000_0000,
    ;
    assert(ceiling_knee::<Fixed>().raw == 0x1_8000_0000) by {
        assert(0x3_0000_0000_0000_0000int / 0x2_0000_0000 == 0x1_8000_0000);
    }
    assert(ceiling::<Fixed>().raw == 0x2_8000_0000) by {
        assert(0x5_0000_0000_0000_0000int / 0x2_0000_0000 == 0x2_8000_0000);
    }
    let headroom = ceiling::<Fixed>().minus(ceiling_knee());
    assert(headroom == Fixed::of_spec(1));
    let over = input.abs_spec().minus(ceiling_knee()).over(headroom);
    tanh_is_bounded(over);
    one_times(over.tanh_spec());
}

/// A ramp starts on its first set of coefficients and ends on its second.
pub proof fn a_ramp_is_exact_at_both_ends(from: SvfCoeffs<Fixed>, to: SvfCoeffs<Fixed>)
    ensures
        svf_lerped(from, to, Fixed::of_spec(0)) == from,
        svf_lerped(from, to, Fixed::of_spec(1)) == to,
{
    assert forall|a: Fixed, b: Fixed| #[trigger] mixed(a, b, Fixed::of_spec(0)) == a by {
        times_one(a);
        nothing_times(b);
        products_commute(b, Fixed::of_spec(0));
    }
    assert forall|a: Fixed, b: Fixed| #[trigger] mixed(a, b, Fixed::of_spec(1)) == b by {
        times_one(b);
        nothing_times(a);
        products_commute(a, Fixed::of_spec(0));
    }
}

/// A pole at rest stays at rest: silence only brings its stored sample nearer
/// to nothing.
pub proof fn a_resting_pole_stays_at_rest(lp: OnePoleLp<Fixed>, epsilon: Fixed)
    requires
        at_rest(lp.state, epsilon),
        is_gain(lp.coeff),
        lp.state.raw > i64::MIN,
    ensures
        at_rest(leaked(lp.state, Fixed::of_spec(0), lp.coeff), epsilon),
{
    let fall = Fixed::of_spec(0).minus(lp.state);
    a_gain_shrinks(lp.coeff, fall);
    products_commute(lp.coeff, fall);
}

/// A stage at rest is inaudible: what it makes of silence is within a few of
/// the thresholds it rests at, in every output.
pub proof fn a_resting_svf_is_inaudible(
    svf: Svf<Fixed>,
    coeffs: SvfCoeffs<Fixed>,
    epsilon: Fixed,
)
    requires
        at_rest(svf.low, epsilon),
        at_rest(svf.band, epsilon),
        0 <= epsilon.raw <= 0x1_0000_0000_0000,
        is_gain(coeffs.a1),
        is_gain(coeffs.a2),
        is_gain(coeffs.a3),
        0 <= coeffs.damping.raw <= 2 * FRACTION,
    ensures
        ({
            let (low, band, high) = svf_outputs(svf, Fixed::of_spec(0), coeffs);
            &&& within(low, 2 * epsilon.raw)
            &&& within(band, 2 * epsilon.raw)
            &&& within(high, 6 * epsilon.raw)
        }),
{
    let rise = Fixed::of_spec(0).minus(svf.low);
    let band = svf_outputs(svf, Fixed::of_spec(0), coeffs).1;
    a_gain_shrinks(coeffs.a1, svf.band);
    a_gain_shrinks(coeffs.a2, rise);
    a_gain_shrinks(coeffs.a2, svf.band);
    a_gain_shrinks(coeffs.a3, rise);
    let e = epsilon.raw as int;
    let f = FRACTION as int;
    assert((2 * f) * (2 * e) == (4 * e) * f) by (nonlinear_arith);
    products_stay_within(
        coeffs.damping,
        band,
        2 * FRACTION,
        2 * epsilon.raw,
        4 * epsilon.raw,
    );
}

/// What a stage has stored, as energy, in squared counts.
pub open spec fn svf_energy(svf: Svf<Fixed>) -> int {
    svf.low.raw * svf.low.raw + svf.band.raw * svf.band.raw
}

/// A product in counts, and what rounding took or gave.
proof fn lemma_product_rounds(a: Fixed, b: Fixed) -> (rounding: int)
    requires
        0 <= a.raw <= FRACTION,
        within(b, 0x1000_0000_0000_0000),
    ensures
        FRACTION * a.times(b).raw == a.raw * b.raw + rounding,
        -FRACTION < rounding < FRACTION,
        within(a.times(b), magnitude(b.raw as int)),
{
    let f = FRACTION as int;
    let n = a.raw * magnitude(b.raw as int);
    let p = n / f;
    a_gain_shrinks(a, b);
    assert(0 <= n) by (nonlinear_arith)
        requires
            n == a.raw * magnitude(b.raw as int),
            0 <= a.raw,
            0 <= magnitude(b.raw as int),
    ;
    assert(p * f <= n < p * f + f) by (nonlinear_arith)
        requires
            p == n / f,
            f == 0x1_0000_0000,
    ;
    assert(0int / f == 0);
    if b.raw < 0 {
        assert(a.raw * b.raw == -n) by (nonlinear_arith)
            requires
                n == a.raw * -b.raw,
        ;
        assert(a.times(b).raw == -p);
        p * f * -1 - a.raw * b.raw
    } else {
        assert(a.times(b).raw == p);
        p * f - a.raw * b.raw
    }
}

/// What a stage's coefficients are to each other, in counts.
spec fn svf_related(f: int, g: int, k: int, d: int, a1: int, a2: int, a3: int) -> bool {
    &&& 0 <= f * f + g * (g + k) - d * f < f
    &&& 0 <= f * f - a1 * d < d
    &&& 0 <= g * a1 - a2 * f < f
    &&& 0 <= g * a2 - a3 * f < f
}

proof fn lemma_svf_related(g: Fixed, damping: Fixed) -> (d: int)
    requires
        0 <= g.raw <= 8 * FRACTION,
        0 <= damping.raw <= 2 * FRACTION,
    ensures
        ({
            let c = svf_coeffs(g, damping);
            &&& svf_related(
                FRACTION as int,
                g.raw as int,
                damping.raw as int,
                d,
                c.a1.raw as int,
                c.a2.raw as int,
                c.a3.raw as int,
            )
            &&& FRACTION <= d <= 81 * FRACTION
            &&& is_gain(c.a1)
            &&& is_gain(c.a2)
            &&& is_gain(c.a3)
        }),
{
    let f = FRACTION as int;
    let gr = g.raw as int;
    let k = damping.raw as int;
    let s = g.times(g.plus(damping)).raw as int;
    let n = gr * (gr + k);
    assert(0 <= n <= 80 * (f * f)) by (nonlinear_arith)
        requires
            n == gr * (gr + k),
            0 <= gr <= 8 * f,
            0 <= k <= 2 * f,
    ;
    let q = n / f;
    assert(q * f <= n < q * f + f && 0 <= q <= 80 * f) by (nonlinear_arith)
        requires
            q == n / f,
            0 <= n <= 80 * (f * f),
            f == 0x1_0000_0000,
    ;
    assert(s == q);
    let d = f + q;
    let one = Fixed::of_spec(1);
    assert(one.plus(g.times(g.plus(damping))).raw == d);
    let c = svf_coeffs(g, damping);
    let a1 = (f * f) / d;
    assert(a1 * d <= f * f < a1 * d + d && 0 <= a1 <= f) by (nonlinear_arith)
        requires
            a1 == (f * f) / d,
            f <= d,
            f == 0x1_0000_0000,
    ;
    assert(0 <= f * f) by (nonlinear_arith);
    assert(c.a1.raw == a1);
    let m = gr * a1;
    assert(0 <= m <= 8 * (f * f)) by (nonlinear_arith)
        requires
            m == gr * a1,
            0 <= gr <= 8 * f,
            0 <= a1 <= f,
    ;
    let a2 = m / f;
    assert(a2 * f <= m < a2 * f + f && 0 <= a2 <= 8 * f) by (nonlinear_arith)
        requires
            a2 == m / f,
            0 <= m <= 8 * (f * f),
            f == 0x1_0000_0000,
    ;
    assert(c.a2.raw == a2);
    let h = gr * a2;
    assert(0 <= h <= 64 * (f * f)) by (nonlinear_arith)
        requires
            h == gr * a2,
            0 <= gr <= 8 * f,
            0 <= a2 <= 8 * f,
    ;
    let a3 = h / f;
    assert(a3 * f <= h < a3 * f + f && 0 <= a3 <= 64 * f) by (nonlinear_arith)
        requires
            a3 == h / f,
            0 <= h <= 64 * (f * f),
            f == 0x1_0000_0000,
    ;
    assert(c.a3.raw == a3);
    assert(gr <= d) by (nonlinear_arith)
        requires
            n < q * f + f,
            n == gr * (gr + k),
            d == f + q,
            0 <= gr,
            0 <= k,
            f == 0x1_0000_0000,
    {
        if gr > d {
            assert(gr * gr <= n);
            assert(gr * gr < (gr - f) * f + f);
            assert((gr - f) * (gr - f) >= 0);
        }
    }
    assert(a2 <= f) by (nonlinear_arith)
        requires
            a2 * f <= gr * a1,
            a1 * d <= f * f,
            gr <= d,
            0 <= a1,
            0 < d,
            f == 0x1_0000_0000,
    {
        assert(gr * a1 <= d * a1);
        assert(a2 * f <= f * f);
    }
    assert(gr * gr <= d * f) by (nonlinear_arith)
        requires
            n < q * f + f,
            n == gr * (gr + k),
            d == f + q,
            0 <= gr,
            0 <= k,
            f == 0x1_0000_0000,
    ;
    assert(a3 <= f) by (nonlinear_arith)
        requires
            a3 * f <= gr * a2,
            a2 * f <= gr * a1,
            a1 * d <= f * f,
            gr * gr <= d * f,
            0 <= gr,
            0 <= a1,
            0 <= a3,
            0 < d,
            f == 0x1_0000_0000,
    {
        assert((a3 * f) * f <= (gr * a2) * f);
        assert((gr * a2) * f == gr * (a2 * f));
        assert(gr * (a2 * f) <= gr * (gr * a1));
        assert(gr * (gr * a1) == (gr * gr) * a1);
        assert((gr * gr) * a1 <= (d * f) * a1);
        assert((d * f) * a1 == f * (a1 * d));
        assert(f * (a1 * d) <= f * (f * f));
        assert((a3 * f) * f <= (f * f) * f);
    }
    d
}

/// The two ways a step is written come to the same but for rounding: how far the
/// low output has moved is the corner's share of the band, and how far the band
/// has is the corner's share of what drives it.
proof fn lemma_svf_residues(
    f: int,
    g: int,
    k: int,
    d: int,
    a1: int,
    a2: int,
    a3: int,
    b: int,
    l: int,
    v1: int,
    v2: int,
    x1: int,
    x2: int,
) -> (out: (int, int))
    requires
        f == 0x1_0000_0000,
        0 <= g <= 8 * f,
        0 <= k <= 2 * f,
        f <= d <= 81 * f,
        svf_related(f, g, k, d, a1, a2, a3),
        f * v1 == a1 * b - a2 * l + x1,
        f * (v2 - l) == a2 * b - a3 * l + x2,
        -2 * f < x1 < 2 * f,
        -2 * f < x2 < 2 * f,
        -0x10_0000 <= b <= 0x10_0000,
        -0x10_0000 <= l <= 0x10_0000,
        -0x40_0000 <= v1 <= 0x40_0000,
    ensures
        out.0 == f * (v2 - l) - g * v1,
        out.1 == f * (f * (v1 - b)) + g * (f * v2) + (g * k) * v1,
        -19 * f <= out.0 <= 19 * f,
        -315 * (f * f) <= out.1 <= 315 * (f * f),
{
    let y0 = f * f + g * (g + k) - d * f;
    let y1 = f * f - a1 * d;
    let y2 = g * a1 - a2 * f;
    let y3 = g * a2 - a3 * f;
    let z = f * (v2 - l) - g * v1;
    let u = f * (f * (v1 - b)) + g * (f * v2) + (g * k) * v1;
    lemma_svf_low(f, g, a1, a2, a3, b, l, v1, v2, x1, x2, z);
    lemma_bounded(g, x1, 8 * f, 2 * f);
    lemma_bounded(y2, b, f, 0x10_0000);
    lemma_bounded(y3, l, f, 0x10_0000);
    lemma_bounded(f, x2, f, 2 * f);
    assert((8 * f) * (2 * f) == 16 * (f * f) && f * (2 * f) == 2 * (f * f)) by (nonlinear_arith);
    assert(f * 0x10_0000 <= f * f) by (nonlinear_arith)
        requires
            f == 0x1_0000_0000,
    ;
    assert(f * 0x10_0000 * 4096 == f * f) by (nonlinear_arith)
        requires
            f == 0x1_0000_0000,
    ;
    assert(-19 * f <= z <= 19 * f) by (nonlinear_arith)
        requires
            -19 * (f * f) <= f * z <= 19 * (f * f),
            f == 0x1_0000_0000,
    ;
    let r = -(f * (y1 * b)) + g * (y1 * l) + y2 * (d * l) + f * (x1 * d) + f * (y0 * v1);
    lemma_svf_loop(f, g, k, d, a1, a2, b, l, v1, x1, y0, y1, y2, r);
    let way = f * (f * (v1 - b));
    let drag = (g * k) * v1;
    let whole = f * v2;
    assert(f * u == f * way + f * (g * whole) + f * drag) by (nonlinear_arith)
        requires
            u == way + g * whole + drag,
    ;
    let lies = f * l;
    let push = g * v1;
    assert(whole == lies + push + z) by (nonlinear_arith)
        requires
            whole == f * v2,
            lies == f * l,
            z == f * (v2 - l) - push,
    ;
    assert(f * (g * whole) == g * (f * lies) + f * (g * push) + g * (f * z)) by (nonlinear_arith)
        requires
            whole == lies + push + z,
    ;
    assert((g * (g + k)) * v1 == g * push + drag) by (nonlinear_arith)
        requires
            push == g * v1,
            drag == (g * k) * v1,
    ;
    let both = g * push + drag;
    assert(f * both == f * (g * push) + f * drag) by (nonlinear_arith)
        requires
            both == g * push + drag,
    ;
    assert(f * u == r + g * (f * z));
    lemma_bounded(y1, b, d, 0x10_0000);
    lemma_bounded(y1, l, d, 0x10_0000);
    lemma_bounded(d, l, d, 0x10_0000);
    lemma_bounded(x1, d, 2 * f, d);
    lemma_bounded(y0, v1, f, 0x40_0000);
    let e = d * 0x10_0000;
    lemma_bounded(f, y1 * b, f, e);
    lemma_bounded(g, y1 * l, 8 * f, e);
    lemma_bounded(y2, d * l, f, e);
    lemma_bounded(f, x1 * d, f, (2 * f) * d);
    lemma_bounded(f, y0 * v1, f, f * 0x40_0000);
    lemma_bounded(g, f * z, 8 * f, 19 * (f * f));
    assert(-19 * (f * f) <= f * z <= 19 * (f * f)) by (nonlinear_arith)
        requires
            -19 * f <= z <= 19 * f,
            f == 0x1_0000_0000,
    ;
    let cube = f * (f * f);
    assert(10 * (f * e) <= cube && f * ((2 * f) * d) <= 162 * cube && f * (f * 0x40_0000) <= cube
        && (8 * f) * (19 * (f * f)) == 152 * cube && (8 * f) * e == 8 * (f * e)) by (nonlinear_arith)
        requires
            e == d * 0x10_0000,
            d <= 81 * f,
            0 <= d,
            cube == f * (f * f),
            f == 0x1_0000_0000,
    {
        assert(f * e == (f * d) * 0x10_0000);
        assert(f * d <= 81 * (f * f));
        assert(f * ((2 * f) * d) == 2 * (f * (f * d)));
        assert(f * (f * d) <= f * (81 * (f * f)));
    }
    assert(-315 * (f * f) <= u <= 315 * (f * f)) by (nonlinear_arith)
        requires
            -315 * cube - cube <= f * u + cube <= 315 * cube + 3 * cube,
            -315 * cube <= f * u <= 315 * cube,
            cube == f * (f * f),
            f == 0x1_0000_0000,
    ;
    (z, u)
}

proof fn lemma_svf_low(
    f: int,
    g: int,
    a1: int,
    a2: int,
    a3: int,
    b: int,
    l: int,
    v1: int,
    v2: int,
    x1: int,
    x2: int,
    z: int,
)
    requires
        z == f * (v2 - l) - g * v1,
        f * v1 == a1 * b - a2 * l + x1,
        f * (v2 - l) == a2 * b - a3 * l + x2,
    ensures
        f * z == -(g * x1) - (g * a1 - a2 * f) * b + (g * a2 - a3 * f) * l + f * x2,
{
    let fall = f * (v2 - l);
    let push = g * v1;
    assert(f * z == f * fall - f * push) by (nonlinear_arith)
        requires
            z == fall - push,
    ;
    let whole = f * v1;
    assert(f * push == g * whole) by (nonlinear_arith)
        requires
            push == g * v1,
            whole == f * v1,
    ;
    let p = a1 * b;
    let q = a2 * l;
    assert(g * (p - q + x1) == g * p - g * q + g * x1) by (nonlinear_arith);
    let r = a2 * b;
    let s = a3 * l;
    assert(f * (r - s + x2) == f * r - f * s + f * x2) by (nonlinear_arith);
    assert((g * a1 - a2 * f) * b == g * p - f * r) by (nonlinear_arith)
        requires
            p == a1 * b,
            r == a2 * b,
    ;
    assert((g * a2 - a3 * f) * l == g * q - f * s) by (nonlinear_arith)
        requires
            q == a2 * l,
            s == a3 * l,
    ;
}

proof fn lemma_bounded(a: int, b: int, first: int, second: int)
    requires
        -first <= a <= first,
        -second <= b <= second,
    ensures
        -(first * second) <= a * b <= first * second,
{
    assert(-(first * second) <= a * b <= first * second) by (nonlinear_arith)
        requires
            -first <= a <= first,
            -second <= b <= second,
    ;
}

proof fn lemma_svf_loop(
    f: int,
    g: int,
    k: int,
    d: int,
    a1: int,
    a2: int,
    b: int,
    l: int,
    v1: int,
    x1: int,
    y0: int,
    y1: int,
    y2: int,
    r: int,
)
    requires
        y0 == f * f + g * (g + k) - d * f,
        y1 == f * f - a1 * d,
        y2 == g * a1 - a2 * f,
        f * v1 == a1 * b - a2 * l + x1,
        r == -(f * (y1 * b)) + g * (y1 * l) + y2 * (d * l) + f * (x1 * d) + f * (y0 * v1),
    ensures
        f * (f * (f * (v1 - b))) + f * ((g * (g + k)) * v1) + g * (f * (f * l)) == r,
{
    let n = g * (g + k);
    assert(f * ((d * f) * v1) == f * (d * (a1 * b - a2 * l + x1))) by (nonlinear_arith)
        requires
            f * v1 == a1 * b - a2 * l + x1,
    ;
    assert(f * ((d * f) * v1) == f * (f * (f * v1)) + f * (n * v1) - f * (y0 * v1)) by (nonlinear_arith)
        requires
            y0 == f * f + n - d * f,
    {
        assert((d * f) * v1 == (f * f + n - y0) * v1);
    }
    let p = a1 * b;
    let q = a2 * l;
    assert(f * (d * (p - q + x1)) == f * (d * p) - f * (d * q) + f * (x1 * d)) by (nonlinear_arith);
    assert(f * (d * p) == f * ((a1 * d) * b)) by (nonlinear_arith)
        requires
            p == a1 * b,
    ;
    let w = a2 * f;
    assert(f * (d * q) == w * (d * l)) by (nonlinear_arith)
        requires
            q == a2 * l,
            w == a2 * f,
    ;
    assert(f * ((a1 * d) * b) == f * (f * (f * b)) - f * (y1 * b)) by (nonlinear_arith)
        requires
            y1 == f * f - a1 * d,
    {
        assert((a1 * d) * b == (f * f - y1) * b);
    }
    let m = g * a1;
    assert(w * (d * l) == m * (d * l) - y2 * (d * l)) by (nonlinear_arith)
        requires
            y2 == m - w,
    ;
    let t = a1 * d;
    assert(m * (d * l) == g * (t * l)) by (nonlinear_arith)
        requires
            m == g * a1,
            t == a1 * d,
    ;
    assert(g * (t * l) == g * (f * (f * l)) - g * (y1 * l)) by (nonlinear_arith)
        requires
            y1 == f * f - t,
    ;
    assert(f * (f * (f * (v1 - b))) == f * (f * (f * v1)) - f * (f * (f * b))) by (nonlinear_arith);
}

/// A state-variable stage rings, and does not grow. Left to itself, whatever its
/// damping and wherever its corner lies up to the tangent's eight, its stored
/// energy rises on a sample by no more than rounding can bring: some three
/// thousand counts for each count it holds.
pub proof fn a_ringing_stage_gains_only_rounding(
    svf: Svf<Fixed>,
    g: Fixed,
    damping: Fixed,
    bound: int,
)
    requires
        0 <= g.raw <= 8 * FRACTION,
        0 <= damping.raw <= 2 * FRACTION,
        0 <= bound <= 0x10_0000,
        within(svf.low, bound),
        within(svf.band, bound),
    ensures
        svf_energy(svf_stepped(svf, Fixed::of_spec(0), svf_coeffs(g, damping))) <= svf_energy(svf)
            + 2_750 * (bound + 1),
{
    let f = FRACTION as int;
    let c = svf_coeffs(g, damping);
    let d = lemma_svf_related(g, damping);
    let b = svf.band.raw as int;
    let l = svf.low.raw as int;
    let rise = Fixed::of_spec(0).minus(svf.low);
    let e1 = lemma_product_rounds(c.a1, svf.band);
    let e2 = lemma_product_rounds(c.a2, rise);
    let e3 = lemma_product_rounds(c.a2, svf.band);
    let e4 = lemma_product_rounds(c.a3, rise);
    let (low, band, _) = svf_outputs(svf, Fixed::of_spec(0), c);
    let v1 = band.raw as int;
    let v2 = low.raw as int;
    let a1 = c.a1.raw as int;
    let a2 = c.a2.raw as int;
    let a3 = c.a3.raw as int;
    assert(a2 * -l == -(a2 * l) && a3 * -l == -(a3 * l)) by (nonlinear_arith);
    let gr = g.raw as int;
    let k = damping.raw as int;
    let (z, u) = lemma_svf_residues(
        f,
        gr,
        k,
        d,
        a1,
        a2,
        a3,
        b,
        l,
        v1,
        v2,
        e1 + e2,
        e3 + e4,
    );
    let after = svf_stepped(svf, Fixed::of_spec(0), c);
    assert((2 * f) * v1 == 2 * (f * v1) && (2 * f) * v2 == 2 * (f * v2)) by (nonlinear_arith);
    lemma_doubled(band);
    lemma_doubled(low);
    assert(after.band.raw == 2 * v1 - b);
    assert(after.low.raw == 2 * v2 - l);
    let grown = v1 * (v1 - b) + v2 * (v2 - l);
    assert((2 * v1 - b) * (2 * v1 - b) + (2 * v2 - l) * (2 * v2 - l) == b * b + l * l + 4 * grown)
        by (nonlinear_arith)
        requires
            grown == v1 * (v1 - b) + v2 * (v2 - l),
    ;
    let way = f * (f * (v1 - b));
    let pull = gr * (f * v2);
    let drag = (gr * k) * v1;
    assert(v1 * u == v1 * way + v1 * pull + v1 * drag) by (nonlinear_arith)
        requires
            u == way + pull + drag,
    ;
    assert(v1 * drag == (gr * k) * (v1 * v1)) by (nonlinear_arith)
        requires
            drag == (gr * k) * v1,
    ;
    let fall = f * (v2 - l);
    let push = gr * v1;
    assert(f * (v2 * z) == f * (v2 * fall) - f * (v2 * push)) by (nonlinear_arith)
        requires
            z == fall - push,
    ;
    assert(f * (v2 * push) == v1 * pull) by (nonlinear_arith)
        requires
            push == gr * v1,
            pull == gr * (f * v2),
    ;
    let p = v1 * (v1 - b);
    let q = v2 * (v2 - l);
    assert(v1 * way == (f * f) * p) by (nonlinear_arith)
        requires
            way == f * (f * (v1 - b)),
            p == v1 * (v1 - b),
    ;
    assert(f * (v2 * fall) == (f * f) * q) by (nonlinear_arith)
        requires
            fall == f * (v2 - l),
            q == v2 * (v2 - l),
    ;
    assert((f * f) * grown == (f * f) * p + (f * f) * q) by (nonlinear_arith)
        requires
            grown == p + q,
    ;
    assert((f * f) * grown == v1 * u - (gr * k) * (v1 * v1) + f * (v2 * z));
    assert((gr * k) * (v1 * v1) >= 0) by (nonlinear_arith)
        requires
            0 <= gr,
            0 <= k,
    ;
    lemma_bounded(v1, u, 2 * bound, 315 * (f * f));
    lemma_bounded(v2, z, 3 * bound, 19 * f);
    assert(4 * grown <= 2_750 * (bound + 1)) by (nonlinear_arith)
        requires
            (f * f) * grown <= (2 * bound) * (315 * (f * f)) + f * ((3 * bound) * (19 * f)),
            0 <= bound,
            f == 0x1_0000_0000,
    {
        assert((2 * bound) * (315 * (f * f)) == (630 * bound) * (f * f));
        assert(f * ((3 * bound) * (19 * f)) == (57 * bound) * (f * f));
        assert((f * f) * grown <= (f * f) * (687 * bound));
        assert(grown <= 687 * bound);
    }
}

proof fn lemma_doubled(value: Fixed)
    requires
        within(value, 0x1000_0000_0000_0000),
    ensures
        Fixed::of_spec(2).times(value).raw == 2 * value.raw,
{
    let f = FRACTION as int;
    let n = magnitude(value.raw as int);
    assert((2 * f) * n / f == 2 * n && 0 <= (2 * f) * n) by (nonlinear_arith)
        requires
            f == 0x1_0000_0000,
            0 <= n,
    ;
    if value.raw < 0 {
        let raw = value.raw as int;
        assert((2 * f) * raw == -((2 * f) * n)) by (nonlinear_arith)
            requires
                n == -raw,
        ;
    }
}

/// A stage after some samples of silence.
pub open spec fn svf_silenced<S: Sample>(svf: Svf<S>, coeffs: SvfCoeffs<S>, frames: nat) -> Svf<S>
    decreases frames,
{
    if frames == 0 {
        svf
    } else {
        svf_stepped(svf_silenced(svf, coeffs, (frames - 1) as nat), S::of_spec(0), coeffs)
    }
}

/// A stage that is quiet stays quiet for as long as rounding lets it: while what
/// the samples of silence may have added still fits under a bound, everything it
/// stores lies within the bound, and every output within a few of it.
pub proof fn a_quiet_stage_stays_quiet(
    svf: Svf<Fixed>,
    g: Fixed,
    damping: Fixed,
    bound: int,
    frames: nat,
)
    requires
        0 <= g.raw <= 8 * FRACTION,
        0 <= damping.raw <= 2 * FRACTION,
        0 <= bound <= 0x10_0000,
        svf_energy(svf) + frames * (2_750 * (bound + 1)) <= bound * bound,
    ensures
        ({
            let coeffs = svf_coeffs(g, damping);
            let here = svf_silenced(svf, coeffs, frames);
            let (low, band, high) = svf_outputs(here, Fixed::of_spec(0), coeffs);
            &&& svf_energy(here) <= svf_energy(svf) + frames * (2_750 * (bound + 1))
            &&& within(here.low, bound)
            &&& within(here.band, bound)
            &&& within(low, 2 * bound)
            &&& within(band, 2 * bound)
            &&& within(high, 6 * bound)
        }),
    decreases frames,
{
    let coeffs = svf_coeffs(g, damping);
    let here = svf_silenced(svf, coeffs, frames);
    let step = 2_750 * (bound + 1);
    if frames > 0 {
        let fewer = (frames - 1) as nat;
        assert(frames * step == fewer * step + step) by (nonlinear_arith)
            requires
                frames == fewer + 1,
        ;
        a_quiet_stage_stays_quiet(svf, g, damping, bound, fewer);
        a_ringing_stage_gains_only_rounding(
            svf_silenced(svf, coeffs, fewer),
            g,
            damping,
            bound,
        );
    } else {
        assert(0 * step == 0) by (nonlinear_arith);
    }
    let l = here.low.raw as int;
    let b = here.band.raw as int;
    assert(-bound <= l <= bound && -bound <= b <= bound) by (nonlinear_arith)
        requires
            l * l + b * b <= bound * bound,
            0 <= bound,
    ;
    let d = lemma_svf_related(g, damping);
    a_resting_svf_is_inaudible(here, coeffs, Fixed { raw: bound as i64 });
}

} // verus!
