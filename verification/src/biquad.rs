//! Second-order filter stages.
//!
//! A stage is its five coefficients and two stored samples. Designing one
//! writes the coefficients and leaves what is stored, so that a knob can move
//! without a click.

use vstd::prelude::*;

use crate::curves::{pi, pi_of, tau, tau_of, Curves};
use crate::num::{
    clamp, clamp_of, max, max_of, nothing_times, products_commute, ratio, ratio_of, Fixed, Sample,
};

verus! {

/// The shape of an equalizer's band.
#[derive(Clone, Copy, Debug, PartialEq, Eq, Structural)]
pub enum EqBandKind {
    Bell,
    LowShelf,
    HighShelf,
}

/// How a bell's width follows its gain.
#[derive(Clone, Copy, Debug, PartialEq, Eq, Structural)]
pub enum EqQProfile {
    /// The width stays what it is set to.
    Constant,
    /// The bell narrows as its gain grows, reaching its set width at twelve
    /// decibels.
    Proportional,
}

/// A second-order stage.
#[derive(Clone, Copy, Debug)]
pub struct Biquad<S> {
    pub b0: S,
    pub b1: S,
    pub b2: S,
    pub a1: S,
    pub a2: S,
    pub z1: S,
    pub z2: S,
}

/// What a stage does, apart from what it has stored.
pub struct Coefficients<S> {
    pub b0: S,
    pub b1: S,
    pub b2: S,
    pub a1: S,
    pub a2: S,
}

/// A stage with other coefficients and the same stored samples.
pub open spec fn retuned<S>(stage: Biquad<S>, to: Coefficients<S>) -> Biquad<S> {
    Biquad { b0: to.b0, b1: to.b1, b2: to.b2, a1: to.a1, a2: to.a2, ..stage }
}

/// The stage that does nothing.
pub open spec fn identity_stage<S: Sample>() -> Biquad<S> {
    let zero = S::of_spec(0);
    Biquad { b0: S::of_spec(1), b1: zero, b2: zero, a1: zero, a2: zero, z1: zero, z2: zero }
}

/// What a stage makes of a sample.
pub open spec fn stage_out<S: Sample>(stage: Biquad<S>, input: S) -> S {
    stage.b0.times(input).plus(stage.z1)
}

/// What may be stored: a number that is not finite would stay for good.
pub open spec fn kept_of<S: Sample>(value: S) -> S {
    if value.finite_spec() {
        value
    } else {
        S::of_spec(0)
    }
}

fn kept<S: Sample>(value: S) -> (stored: S)
    ensures
        stored == kept_of(value),
{
    if value.is_finite() {
        value
    } else {
        S::of(0)
    }
}

/// A stage after a sample.
pub open spec fn stage_after<S: Sample>(stage: Biquad<S>, input: S) -> Biquad<S> {
    let out = stage_out(stage, input);
    Biquad {
        z1: kept_of(stage.b1.times(input).minus(stage.a1.times(out)).plus(stage.z2)),
        z2: kept_of(stage.b2.times(input).minus(stage.a2.times(out))),
        ..stage
    }
}

/// Whether what a stage has stored is inaudible.
pub open spec fn stage_resting<S: Sample>(stage: Biquad<S>, epsilon: S) -> bool {
    stage.z1.abs_spec().at_most(epsilon) && stage.z2.abs_spec().at_most(epsilon)
}

/// The angle of a frequency held between ten Hz and `0.45` of the rate.
pub open spec fn angle_of<S: Curves>(frequency_hz: S, sample_rate: u32) -> S {
    let rate = S::of_spec(sample_rate as nat);
    tau_of::<S>().times(
        clamp_of(frequency_hz, S::of_spec(10), rate.times(ratio_of(45, 100))),
    ).over(rate)
}

fn angle<S: Curves>(frequency_hz: S, sample_rate: u32) -> (value: S)
    ensures
        value == angle_of(frequency_hz, sample_rate),
{
    let rate = S::of(sample_rate as usize);
    tau::<S>().mul(clamp(frequency_hz, S::of(10), rate.mul(ratio(45, 100)))).div(rate)
}

/// Coefficients divided by the leading one of the denominator.
pub open spec fn normalized<S: Sample>(b0: S, b1: S, b2: S, a0: S, a1: S, a2: S) -> Coefficients<
    S,
> {
    Coefficients {
        b0: b0.over(a0),
        b1: b1.over(a0),
        b2: b2.over(a0),
        a1: a1.over(a0),
        a2: a2.over(a0),
    }
}

/// The least width a stage is designed with.
pub open spec fn width_of<S: Sample>(q: S) -> S {
    max_of(q, ratio_of(1, 20))
}

/// A high-pass or a low-pass.
pub open spec fn pass_design<S: Curves>(
    frequency_hz: S,
    q: S,
    high: bool,
    sample_rate: u32,
) -> Coefficients<S> {
    let w = angle_of(frequency_hz, sample_rate);
    let one = S::of_spec(1);
    let two = S::of_spec(2);
    let alpha = w.sin_spec().over(two.times(width_of(q)));
    let cos = w.cos_spec();
    let edge = if high {
        one.plus(cos).over(two)
    } else {
        one.minus(cos).over(two)
    };
    let middle = if high {
        one.plus(cos).negated()
    } else {
        one.minus(cos)
    };
    normalized(
        edge,
        middle,
        edge,
        one.plus(alpha),
        two.negated().times(cos),
        one.minus(alpha),
    )
}

/// The width a bell is designed with.
pub open spec fn effective_q_of<S: Sample>(q: S, gain_db: S, profile: EqQProfile) -> S {
    match profile {
        EqQProfile::Constant => q,
        EqQProfile::Proportional => q.times(
            clamp_of(gain_db.abs_spec().over(S::of_spec(12)), ratio_of(1, 4), S::of_spec(2)),
        ),
    }
}

/// A bell: boost or cut around a frequency.
pub open spec fn bell_design<S: Curves>(w: S, amplitude: S, q: S) -> Coefficients<S> {
    let one = S::of_spec(1);
    let two = S::of_spec(2);
    let alpha = w.sin_spec().over(two.times(width_of(q)));
    let swing = two.negated().times(w.cos_spec());
    normalized(
        one.plus(alpha.times(amplitude)),
        swing,
        one.minus(alpha.times(amplitude)),
        one.plus(alpha.over(amplitude)),
        swing,
        one.minus(alpha.over(amplitude)),
    )
}

/// A shelf: boost or cut below or above a frequency. A shelf's `q` is its
/// slope.
pub open spec fn shelf_design<S: Curves>(w: S, amplitude: S, q: S, high: bool) -> Coefficients<S> {
    let one = S::of_spec(1);
    let two = S::of_spec(2);
    let sum = amplitude.plus(one);
    let gap = amplitude.minus(one);
    // The two shelves are one formula, with the sign of the cosine turned.
    let cos = if high {
        w.cos_spec().negated()
    } else {
        w.cos_spec()
    };
    let turn = if high {
        two.negated()
    } else {
        two
    };
    let bend = w.sin_spec().over(two).times(
        max_of(
            amplitude.plus(one.over(amplitude)).times(
                one.over(width_of(q)).minus(one),
            ).plus(two),
            S::of_spec(0),
        ).sqrt_spec(),
    );
    let beta = two.times(amplitude.sqrt_spec()).times(bend);
    normalized(
        amplitude.times(sum.minus(gap.times(cos)).plus(beta)),
        turn.times(amplitude).times(gap.minus(sum.times(cos))),
        amplitude.times(sum.minus(gap.times(cos)).minus(beta)),
        sum.plus(gap.times(cos)).plus(beta),
        turn.negated().times(gap.plus(sum.times(cos))),
        sum.plus(gap.times(cos)).minus(beta),
    )
}

/// An equalizer's band.
pub open spec fn band_design<S: Curves>(
    kind: EqBandKind,
    frequency_hz: S,
    gain_db: S,
    q: S,
    profile: EqQProfile,
    sample_rate: u32,
) -> Coefficients<S> {
    let w = angle_of(frequency_hz, sample_rate);
    let amplitude = S::of_spec(10).powf_spec(gain_db.over(S::of_spec(40)));
    match kind {
        EqBandKind::Bell => bell_design(w, amplitude, effective_q_of(q, gain_db, profile)),
        EqBandKind::LowShelf => shelf_design(w, amplitude, q, false),
        EqBandKind::HighShelf => shelf_design(w, amplitude, q, true),
    }
}

/// The squared magnitude of `c0 + c1 z^-1 + c2 z^-2` at an angle, from the
/// squared sine of its half: near the bottom of the band nothing cancels.
pub open spec fn power_at<S: Sample>(c0: S, c1: S, c2: S, half: S) -> S {
    let sum = c0.plus(c1).plus(c2);
    let cross = c0.times(c1).plus(S::of_spec(4).times(c0).times(c2)).plus(c1.times(c2));
    sum.times(sum).minus(S::of_spec(4).times(cross).times(half)).plus(
        S::of_spec(16).times(c0).times(c2).times(half).times(half),
    )
}

/// The squared sine of half a frequency's angle.
pub open spec fn half_at<S: Curves>(hz: S, sample_rate: u32) -> S {
    let sin = pi_of::<S>().times(hz).over(S::of_spec(sample_rate as nat)).sin_spec();
    sin.times(sin)
}

/// A stage's gain at a frequency, in decibels.
pub open spec fn magnitude_of<S: Curves>(stage: Biquad<S>, hz: S, sample_rate: u32) -> S {
    let half = half_at(hz, sample_rate);
    S::of_spec(10).times(
        power_at(stage.b0, stage.b1, stage.b2, half).over(
            power_at(S::of_spec(1), stage.a1, stage.a2, half),
        ).log10_spec(),
    )
}

fn power<S: Sample>(c0: S, c1: S, c2: S, half: S) -> (value: S)
    ensures
        value == power_at(c0, c1, c2, half),
{
    let sum = c0.add(c1).add(c2);
    let cross = c0.mul(c1).add(S::of(4).mul(c0).mul(c2)).add(c1.mul(c2));
    sum.mul(sum).sub(S::of(4).mul(cross).mul(half)).add(
        S::of(16).mul(c0).mul(c2).mul(half).mul(half),
    )
}

impl<S: Sample> Biquad<S> {
    pub fn identity() -> (stage: Self)
        ensures
            stage == identity_stage::<S>(),
    {
        let zero = S::of(0);
        Biquad { b0: S::of(1), b1: zero, b2: zero, a1: zero, a2: zero, z1: zero, z2: zero }
    }

    pub fn process(&mut self, input: S) -> (out: S)
        ensures
            *final(self) == stage_after(*old(self), input),
            out == stage_out(*old(self), input),
    {
        let out = self.b0.mul(input).add(self.z1);
        self.z1 = kept(self.b1.mul(input).sub(self.a1.mul(out)).add(self.z2));
        self.z2 = kept(self.b2.mul(input).sub(self.a2.mul(out)));
        out
    }

    pub fn is_at_rest(&self, epsilon: S) -> (answer: bool)
        ensures
            answer == stage_resting(*self, epsilon),
    {
        self.z1.abs().le(epsilon) && self.z2.abs().le(epsilon)
    }

    fn retune(&mut self, b0: S, b1: S, b2: S, a0: S, a1: S, a2: S)
        ensures
            *final(self) == retuned(*old(self), normalized(b0, b1, b2, a0, a1, a2)),
    {
        self.b0 = b0.div(a0);
        self.b1 = b1.div(a0);
        self.b2 = b2.div(a0);
        self.a1 = a1.div(a0);
        self.a2 = a2.div(a0);
    }
}

impl<S: Curves> Biquad<S> {
    pub fn pass(&mut self, frequency_hz: S, q: S, high: bool, sample_rate: u32)
        ensures
            *final(self) == retuned(
                *old(self),
                pass_design(frequency_hz, q, high, sample_rate),
            ),
    {
        let w = angle(frequency_hz, sample_rate);
        let one = S::of(1);
        let two = S::of(2);
        let alpha = w.sin().div(two.mul(max(q, ratio(1, 20))));
        let cos = w.cos();
        let edge = if high {
            one.add(cos).div(two)
        } else {
            one.sub(cos).div(two)
        };
        let middle = if high {
            one.add(cos).neg()
        } else {
            one.sub(cos)
        };
        self.retune(
            edge,
            middle,
            edge,
            one.add(alpha),
            two.neg().mul(cos),
            one.sub(alpha),
        );
    }

    pub fn eq_band(
        &mut self,
        kind: EqBandKind,
        frequency_hz: S,
        gain_db: S,
        q: S,
        profile: EqQProfile,
        sample_rate: u32,
    )
        ensures
            *final(self) == retuned(
                *old(self),
                band_design(kind, frequency_hz, gain_db, q, profile, sample_rate),
            ),
    {
        let w = angle(frequency_hz, sample_rate);
        let amplitude = S::of(10).powf(gain_db.div(S::of(40)));
        match kind {
            EqBandKind::Bell => {
                let width = match profile {
                    EqQProfile::Constant => q,
                    EqQProfile::Proportional => q.mul(
                        clamp(gain_db.abs().div(S::of(12)), ratio(1, 4), S::of(2)),
                    ),
                };
                self.bell(w, amplitude, width);
            },
            EqBandKind::LowShelf => {
                self.shelf_slope(w, amplitude, q, false);
            },
            EqBandKind::HighShelf => {
                self.shelf_slope(w, amplitude, q, true);
            },
        }
    }

    fn bell(&mut self, w: S, amplitude: S, q: S)
        ensures
            *final(self) == retuned(*old(self), bell_design(w, amplitude, q)),
    {
        let one = S::of(1);
        let two = S::of(2);
        let alpha = w.sin().div(two.mul(max(q, ratio(1, 20))));
        let swing = two.neg().mul(w.cos());
        self.retune(
            one.add(alpha.mul(amplitude)),
            swing,
            one.sub(alpha.mul(amplitude)),
            one.add(alpha.div(amplitude)),
            swing,
            one.sub(alpha.div(amplitude)),
        );
    }

    fn shelf_slope(&mut self, w: S, amplitude: S, q: S, high: bool)
        ensures
            *final(self) == retuned(*old(self), shelf_design(w, amplitude, q, high)),
    {
        let one = S::of(1);
        let two = S::of(2);
        let sum = amplitude.add(one);
        let gap = amplitude.sub(one);
        let cos = if high {
            w.cos().neg()
        } else {
            w.cos()
        };
        let turn = if high {
            two.neg()
        } else {
            two
        };
        let steep = amplitude.add(one.div(amplitude)).mul(
            one.div(max(q, ratio(1, 20))).sub(one),
        ).add(two);
        let bend = w.sin().div(two).mul(max(steep, S::of(0)).sqrt());
        let beta = two.mul(amplitude.sqrt()).mul(bend);
        self.retune(
            amplitude.mul(sum.sub(gap.mul(cos)).add(beta)),
            turn.mul(amplitude).mul(gap.sub(sum.mul(cos))),
            amplitude.mul(sum.sub(gap.mul(cos)).sub(beta)),
            sum.add(gap.mul(cos)).add(beta),
            turn.neg().mul(gap.add(sum.mul(cos))),
            sum.add(gap.mul(cos)).sub(beta),
        );
    }

    pub fn magnitude_db(&self, hz: S, sample_rate: u32) -> (db: S)
        ensures
            db == magnitude_of(*self, hz, sample_rate),
    {
        let sin = pi::<S>().mul(hz).div(S::of(sample_rate as usize)).sin();
        let half = sin.mul(sin);
        let over = power(self.b0, self.b1, self.b2, half);
        let under = power(S::of(1), self.a1, self.a2, half);
        S::of(10).mul(over.div(under).log10())
    }
}

/// The stage that does nothing hands every fixed-point sample on as it is, and
/// never stores anything: to skip it is exact.
pub proof fn an_identity_stage_changes_nothing(input: Fixed)
    ensures
        stage_out(identity_stage::<Fixed>(), input) == input,
        stage_after(identity_stage::<Fixed>(), input) == identity_stage::<Fixed>(),
{
    crate::num::one_times(input);
    crate::num::nothing_times(input);
}

/// A stage with nothing stored makes silence of silence, and stores nothing.
pub proof fn an_empty_stage_stays_silent(stage: Biquad<Fixed>)
    requires
        stage_resting(stage, Fixed::of_spec(0)),
    ensures
        stage_out(stage, Fixed::of_spec(0)) == Fixed::of_spec(0),
        stage_after(stage, Fixed::of_spec(0)) == stage,
{
    let zero = Fixed::of_spec(0);
    assert forall|c: Fixed| #[trigger] c.times(zero) == zero by {
        nothing_times(c);
        products_commute(c, zero);
    }
}

/// A stage at rest is inaudible: what it makes of silence is no more than the
/// threshold it rests at.
pub proof fn a_resting_stage_is_inaudible(stage: Biquad<Fixed>, epsilon: Fixed)
    requires
        stage_resting(stage, epsilon),
    ensures
        stage_out(stage, Fixed::of_spec(0)).abs_spec().at_most(epsilon),
{
    nothing_times(stage.b0);
    products_commute(stage.b0, Fixed::of_spec(0));
}

} // verus!
