//! A stated harmonic target, hit at a stated level.
//!
//! A curve made of the second and third Chebyshev polynomials adds those
//! harmonics to a sine; solved at the operating level, it adds them there in
//! the amounts a profile states.

use vstd::prelude::*;

use crate::curves::{tau, tau_of, Curves};
use crate::num::{
    clamp, clamp_of, is_gain, magnitude, min, min_of, nothing_times, one_times, products_commute,
    products_mirror, ratio, ratio_of, times_one, Fixed, Sample, Wide, FRACTION,
};
use crate::smooth::at_least_one;

verus! {

/// Harmonics a profile describes: the second and the third.
pub const PROFILE_HARMONICS: usize = 2;

/// How far below full scale the level a profile's harmonics are stated at
/// lies, in decibels.
pub const PROFILE_REFERENCE_BELOW: usize = 12;

/// How far below the fundamental a harmonic counts as absent, in decibels.
pub const SILENT_HARMONIC_BELOW: usize = 120;

/// The level a profile is stated at, as an amplitude.
pub open spec fn reference_amplitude_of<S: Curves>() -> S {
    S::of_spec(10).powf_spec(
        S::of_spec(PROFILE_REFERENCE_BELOW as nat).negated().over(S::of_spec(20)),
    )
}

pub fn reference_amplitude<S: Curves>() -> (amplitude: S)
    ensures
        amplitude == reference_amplitude_of::<S>(),
{
    S::of(10).powf(S::of(PROFILE_REFERENCE_BELOW).neg().div(S::of(20)))
}

/// A voicing's harmonic signature, in decibels below the fundamental at the
/// reference level, for harmonics two and three.
#[derive(Debug, Clone, Copy, PartialEq)]
pub struct HarmonicProfile<S> {
    pub second: S,
    pub third: S,
}

/// The level at which a harmonic counts as absent.
pub open spec fn silent_db<S: Sample>() -> S {
    S::of_spec(SILENT_HARMONIC_BELOW as nat).negated()
}

/// Whether a harmonic is absent.
pub open spec fn absent<S: Sample>(db: S) -> bool {
    db.at_most(silent_db())
}

/// A profile of two levels in tenths of a decibel below the fundamental.
pub open spec fn profile_of<S: Sample>(second: nat, third: nat) -> HarmonicProfile<S> {
    HarmonicProfile {
        second: ratio_of::<S>(second, 10).negated(),
        third: ratio_of::<S>(third, 10).negated(),
    }
}

fn profile<S: Sample>(second: usize, third: usize) -> (profile: HarmonicProfile<S>)
    ensures
        profile == profile_of::<S>(second as nat, third as nat),
{
    HarmonicProfile {
        second: ratio::<S>(second, 10).neg(),
        third: ratio::<S>(third, 10).neg(),
    }
}

impl<S: Sample> HarmonicProfile<S> {
    pub fn new(second: S, third: S) -> (profile: Self)
        ensures
            profile == (HarmonicProfile { second, third }),
    {
        HarmonicProfile { second, third }
    }

    /// No added harmonics at all: the identity.
    pub fn transparent() -> (profile: Self)
        ensures
            profile == (HarmonicProfile { second: silent_db::<S>(), third: silent_db() }),
    {
        let silent = S::of(SILENT_HARMONIC_BELOW).neg();
        HarmonicProfile { second: silent, third: silent }
    }

    /// Whether this profile adds nothing, so that the shaper can be skipped
    /// outright.
    pub fn is_transparent(&self) -> (answer: bool)
        ensures
            answer == (absent(self.second) && absent(self.third)),
    {
        let silent = S::of(SILENT_HARMONIC_BELOW).neg();
        self.second.le(silent) && self.third.le(silent)
    }
}

/// The house voicing. Calibrated and uncoloured.
pub fn moo<S: Sample>() -> (voicing: HarmonicProfile<S>)
    ensures
        voicing == (HarmonicProfile { second: silent_db::<S>(), third: silent_db() }),
{
    HarmonicProfile::transparent()
}

/// Fast, tight, controlled: low distortion and mostly odd-order.
pub fn grip<S: Sample>() -> (voicing: HarmonicProfile<S>)
    ensures
        voicing == profile_of::<S>(564, 403),
{
    profile(564, 403)
}

/// Forward and thick: both orders present.
pub fn punch<S: Sample>() -> (voicing: HarmonicProfile<S>)
    ensures
        voicing == profile_of::<S>(415, 469),
{
    profile(415, 469)
}

/// Transformer warmth: even-order dominant.
pub fn iron<S: Sample>() -> (voicing: HarmonicProfile<S>)
    ensures
        voicing == profile_of::<S>(404, 517),
{
    profile(404, 517)
}

/// A memoryless curve that realises a profile.
#[derive(Debug, Clone, Copy)]
pub struct HarmonicShaper<S> {
    /// The weights of the second and third polynomials.
    pub second: S,
    pub third: S,
    /// Restores the fundamental the third polynomial takes away, so that the
    /// curve changes character and not level.
    pub makeup: S,
    pub transparent: bool,
}

/// A harmonic's share of the fundamental.
pub open spec fn share_of<S: Sample, W: Curves + Wide<S>>(db: S) -> W {
    if absent(db) {
        W::of_spec(0)
    } else {
        W::of_spec(10).powf_spec(W::widen_spec(db).over(W::of_spec(20)))
    }
}

/// How much of the fundamental the third polynomial carries at an amplitude.
pub open spec fn spill_of<W: Sample>(a: W) -> W {
    let three = W::of_spec(3);
    three.times(a.times(a).times(a)).minus(three.times(a))
}

/// The smallest denominator that is divided by: `2^-52`.
pub open spec fn divisor_floor<W: Sample>() -> W {
    ratio_of::<W>(1, 67_108_864).times(ratio_of(1, 67_108_864))
}

/// The weight of the third polynomial: from `H3 = -a3 a^3 = -t3 F` with
/// `F = a + a3 (3 a^3 - 3 a)`, one linear equation.
pub open spec fn third_of<W: Sample>(t3: W, a: W) -> W {
    let cube = a.times(a).times(a);
    let denominator = cube.negated().plus(t3.times(spill_of(a)));
    if denominator.abs_spec().below(divisor_floor()) {
        W::of_spec(0)
    } else {
        t3.negated().times(a).over(denominator)
    }
}

/// The fundamental that is left.
pub open spec fn fundamental_of<W: Sample>(third: W, a: W) -> W {
    a.plus(third.times(spill_of(a)))
}

/// The weight of the second polynomial: from `H2 = -a2 a^2 = -t2 F`.
pub open spec fn second_of<W: Sample>(t2: W, fundamental: W, a: W) -> W {
    if W::of_spec(0).below(a.times(a)) {
        t2.times(fundamental).over(a.times(a))
    } else {
        W::of_spec(0)
    }
}

/// The weights that make a profile measure true at an amplitude, and the share
/// of the fundamental they leave.
pub open spec fn solved<S: Sample, W: Curves + Wide<S>>(
    profile: HarmonicProfile<S>,
    amplitude: S,
) -> (S, S, S) {
    let a = W::widen_spec(amplitude);
    let third = third_of(share_of::<S, W>(profile.third), a);
    let fundamental = fundamental_of(third, a);
    let second = second_of(share_of::<S, W>(profile.second), fundamental, a);
    (second.narrow_spec(), third.narrow_spec(), fundamental.over(a).narrow_spec())
}

/// The shaper that hits a profile at an amplitude.
pub open spec fn shaper_of<S: Sample, W: Curves + Wide<S>>(
    profile: HarmonicProfile<S>,
    amplitude: S,
) -> HarmonicShaper<S> {
    let (second, third, fundamental) = solved::<S, W>(profile, amplitude);
    HarmonicShaper {
        second,
        third,
        makeup: if ratio_of::<S>(1, 1_000_000).below(fundamental.abs_spec()) {
            S::of_spec(1).over(fundamental)
        } else {
            S::of_spec(1)
        },
        transparent: absent(profile.second) && absent(profile.third),
    }
}

/// The second and third Chebyshev polynomials.
pub open spec fn chebyshev2<S: Sample>(x: S) -> S {
    S::of_spec(2).times(x).times(x).minus(S::of_spec(1))
}

pub open spec fn chebyshev3<S: Sample>(x: S) -> S {
    S::of_spec(2).times(x).times(chebyshev2(x)).minus(x)
}

/// What a shaper makes of a sample. The input is held to the polynomials'
/// domain, outside which they grow without limit.
pub open spec fn harmonic_of<S: Sample>(shaper: HarmonicShaper<S>, sample: S) -> S {
    if shaper.transparent {
        sample
    } else {
        let x = clamp_of(sample, S::of_spec(1).negated(), S::of_spec(1));
        x.plus(shaper.second.times(chebyshev2(x))).plus(
            shaper.third.times(chebyshev3(x)),
        ).times(shaper.makeup)
    }
}

fn share<S: Sample, W: Curves + Wide<S>>(db: S) -> (value: W)
    ensures
        value == share_of::<S, W>(db),
{
    if db.le(S::of(SILENT_HARMONIC_BELOW).neg()) {
        W::of(0)
    } else {
        W::of(10).powf(W::widen(db).div(W::of(20)))
    }
}

/// The weights that make `profile` measure true at `amplitude`, and the share
/// of the fundamental they leave. Worked out in the wider format, because the
/// cube is small and the subtraction below it is where the precision goes.
pub fn solve_at<S: Sample, W: Curves + Wide<S>>(profile: HarmonicProfile<S>, amplitude: S) -> (out:
    (S, S, S))
    ensures
        out == solved::<S, W>(profile, amplitude),
{
    let t2 = share::<S, W>(profile.second);
    let t3 = share::<S, W>(profile.third);
    let a = W::widen(amplitude);
    let square = a.mul(a);
    let cube = a.mul(a).mul(a);
    let spill = W::of(3).mul(cube).sub(W::of(3).mul(a));
    let denominator = cube.neg().add(t3.mul(spill));
    let floor = ratio::<W>(1, 67_108_864).mul(ratio(1, 67_108_864));
    let third = if denominator.abs().lt(floor) {
        W::of(0)
    } else {
        t3.neg().mul(a).div(denominator)
    };
    let fundamental = a.add(third.mul(spill));
    let second = if W::of(0).lt(square) {
        t2.mul(fundamental).div(square)
    } else {
        W::of(0)
    };
    (second.narrow(), third.narrow(), fundamental.div(a).narrow())
}

impl<S: Curves> HarmonicShaper<S> {
    /// The shaper that hits `profile` at the reference level.
    pub fn new<W: Curves + Wide<S>>(profile: HarmonicProfile<S>) -> (shaper: Self)
        ensures
            shaper == shaper_of::<S, W>(profile, reference_amplitude_of()),
    {
        Self::at_amplitude::<W>(profile, reference_amplitude())
    }

    /// As [`Self::new`], for an arbitrary reference amplitude.
    pub fn at_amplitude<W: Curves + Wide<S>>(profile: HarmonicProfile<S>, amplitude: S) -> (shaper:
        Self)
        ensures
            shaper == shaper_of::<S, W>(profile, amplitude),
    {
        let (second, third, fundamental) = solve_at::<S, W>(profile, amplitude);
        let makeup = if ratio::<S>(1, 1_000_000).lt(fundamental.abs()) {
            S::of(1).div(fundamental)
        } else {
            S::of(1)
        };
        HarmonicShaper { second, third, makeup, transparent: profile.is_transparent() }
    }

    /// Whether this shaper may be skipped outright.
    pub fn is_transparent(&self) -> (answer: bool)
        ensures
            answer == self.transparent,
    {
        self.transparent
    }

    /// Shape one sample, the polynomials by their recurrence.
    pub fn shape(&self, sample: S) -> (out: S)
        ensures
            out == harmonic_of(*self, sample),
    {
        if self.transparent {
            return sample;
        }
        let x = clamp(sample, S::of(1).neg(), S::of(1));
        let second = S::of(2).mul(x).mul(x).sub(S::of(1));
        let third = S::of(2).mul(x).mul(second).sub(x);
        x.add(self.second.mul(second)).add(self.third.mul(third)).mul(self.makeup)
    }
}

/// A transparent voicing hands every sample on as it is.
pub proof fn a_transparent_shaper_is_the_identity<S: Curves, W: Curves + Wide<S>>(
    profile: HarmonicProfile<S>,
    amplitude: S,
    sample: S,
)
    requires
        absent(profile.second),
        absent(profile.third),
    ensures
        harmonic_of(shaper_of::<S, W>(profile, amplitude), sample) == sample,
{
}

/// One-pole DC blocker. An even-order term carries a constant that moves with
/// the level; this takes it out.
#[derive(Debug, Clone, Copy)]
pub struct DcBlocker<S> {
    pub coefficient: S,
    pub last_input: S,
    pub last_output: S,
}

impl<S: Curves> DcBlocker<S> {
    /// A blocker cornered at `cutoff_hz`.
    pub fn new(sample_rate: u32, cutoff_hz: S) -> (blocker: Self)
        ensures
            blocker == (DcBlocker {
                coefficient: S::of_spec(1).minus(
                    min_of(
                        tau_of::<S>().times(cutoff_hz).over(
                            S::of_spec(if sample_rate < 1 { 1 } else { sample_rate as nat }),
                        ),
                        S::of_spec(1),
                    ),
                ),
                last_input: S::of_spec(0),
                last_output: S::of_spec(0),
            }),
    {
        let rate = S::of(at_least_one(sample_rate) as usize);
        DcBlocker {
            coefficient: S::of(1).sub(min(tau::<S>().mul(cutoff_hz).div(rate), S::of(1))),
            last_input: S::of(0),
            last_output: S::of(0),
        }
    }

    pub fn reset(&mut self)
        ensures
            *final(self) == (DcBlocker {
                coefficient: old(self).coefficient,
                last_input: S::of_spec(0),
                last_output: S::of_spec(0),
            }),
    {
        self.last_input = S::of(0);
        self.last_output = S::of(0);
    }

    pub fn process(&mut self, sample: S) -> (out: S)
        ensures
            out == sample.minus(old(self).last_input).plus(
                old(self).coefficient.times(old(self).last_output),
            ),
            *final(self) == (DcBlocker {
                coefficient: old(self).coefficient,
                last_input: sample,
                last_output: out,
            }),
    {
        let out = sample.sub(self.last_input).add(self.coefficient.mul(self.last_output));
        self.last_input = sample;
        self.last_output = out;
        out
    }
}

/// A sample past full scale is shaped as full scale is: a hotter one cannot
/// make it worse.
pub proof fn a_hot_sample_saturates(shaper: HarmonicShaper<Fixed>, sample: Fixed)
    requires
        !shaper.transparent,
    ensures
        sample.raw >= FRACTION ==> harmonic_of(shaper, sample) == harmonic_of(
            shaper,
            Fixed::of_spec(1),
        ),
        sample.raw <= -FRACTION ==> harmonic_of(shaper, sample) == harmonic_of(
            shaper,
            Fixed::of_spec(1).negated(),
        ),
{
}

/// At full scale the solve has nothing to do: the weights are the profile's own
/// shares, and no makeup is needed.
pub proof fn full_scale_solves_to_the_shares(profile: HarmonicProfile<Fixed>)
    requires
        is_gain(share_of::<Fixed, Fixed>(profile.second)),
        is_gain(share_of::<Fixed, Fixed>(profile.third)),
    ensures
        solved::<Fixed, Fixed>(profile, Fixed::of_spec(1)) == (
            share_of::<Fixed, Fixed>(profile.second),
            share_of::<Fixed, Fixed>(profile.third),
            Fixed::of_spec(1),
        ),
{
    let one = Fixed::of_spec(1);
    let t2 = share_of::<Fixed, Fixed>(profile.second);
    let t3 = share_of::<Fixed, Fixed>(profile.third);
    let f = FRACTION as int;
    one_times(one);
    times_one(Fixed::of_spec(3));
    assert(spill_of(one) == Fixed::of_spec(0));
    nothing_times(t3);
    products_commute(t3, Fixed::of_spec(0));
    times_one(t3.negated());
    lemma_floor_is_nothing();
    assert(third_of(t3, one) == t3) by {
        let n = t3.raw as int;
        assert((-n) * f == -(n * f) && (n * f) / f == n && 0 <= n * f) by (nonlinear_arith)
            requires
                0 <= n,
                f == 0x1_0000_0000,
        ;
    }
    assert(fundamental_of(t3, one) == one);
    times_one(t2);
    assert(second_of(t2, one, one) == t2) by {
        let n = t2.raw as int;
        assert((n * f) / f == n && 0 <= n * f) by (nonlinear_arith)
            requires
                0 <= n,
                f == 0x1_0000_0000,
        ;
    }
    assert((f * f) / f == f && 0 <= f * f) by (nonlinear_arith)
        requires
            f == 0x1_0000_0000,
    ;
}

proof fn lemma_floor_is_nothing()
    ensures
        divisor_floor::<Fixed>() == Fixed::of_spec(0),
{
    let f = FRACTION as int;
    assert(ratio_of::<Fixed>(1, 67_108_864).raw == 64) by {
        assert(f * f == 0x1_0000_0000_0000_0000) by (nonlinear_arith)
            requires
                f == 0x1_0000_0000,
        ;
        assert(0x1_0000_0000_0000_0000int / (67_108_864int * 0x1_0000_0000) == 64);
    }
    assert(64int * 64 / f == 0);
}

/// The product of two numbers of which the first is not negative.
proof fn lemma_product(a: Fixed, b: Fixed)
    requires
        0 <= a.raw,
        -0x4_0000_0000 <= b.raw <= 0x4_0000_0000,
        a.raw <= 0x4_0000_0000_0000,
    ensures
        b.raw >= 0 ==> a.times(b).raw >= 0 && a.times(b).raw * FRACTION <= a.raw * b.raw
            < a.times(b).raw * FRACTION + FRACTION,
        b.raw <= 0 ==> a.times(b).raw <= 0 && -a.times(b).raw * FRACTION <= a.raw * -b.raw
            < -a.times(b).raw * FRACTION + FRACTION,
{
    let f = FRACTION as int;
    let x = a.raw as int;
    let y = magnitude(b.raw as int);
    assert(0 <= x * y <= x * 0x4_0000_0000) by (nonlinear_arith)
        requires
            0 <= x,
            0 <= y <= 0x4_0000_0000,
    ;
    let p = x * y / f;
    assert(p * f <= x * y < p * f + f && 0 <= p && p <= 0x7fff_ffff_ffff_ffff) by (nonlinear_arith)
        requires
            p == x * y / f,
            0 <= x * y <= 0x7fff_ffff_ffff_ffff * f,
            f == 0x1_0000_0000,
    ;
    assert(0int / f == 0);
    if b.raw <= 0 {
        let m = -b.raw;
        assert(x * b.raw == -(x * m) && m == y) by (nonlinear_arith)
            requires
                m == -b.raw,
                m == y,
        ;
        assert(a.times(b).raw == -p);
    }
}

/// The harmonics a weighted curve adds to a sine of an amplitude are its weights
/// times the amplitude's square and cube. Solved, they are the profile's shares
/// of the fundamental that is left: exactly but for a few units of rounding.
pub proof fn the_solved_weights_hit_the_profile(
    profile: HarmonicProfile<Fixed>,
    amplitude: Fixed,
)
    requires
        is_gain(share_of::<Fixed, Fixed>(profile.second)),
        is_gain(share_of::<Fixed, Fixed>(profile.third)),
        FRACTION <= 64 * amplitude.raw,
        amplitude.raw <= FRACTION,
    ensures
        ({
            let (second, third, _) = solved::<Fixed, Fixed>(profile, amplitude);
            let square = amplitude.times(amplitude);
            let cube = square.times(amplitude);
            let fundamental = fundamental_of(third, amplitude);
            let t2 = share_of::<Fixed, Fixed>(profile.second);
            let t3 = share_of::<Fixed, Fixed>(profile.third);
            &&& 0 <= fundamental.raw <= amplitude.raw
            &&& magnitude(second.times(square).raw - t2.times(fundamental).raw) <= 2
            &&& FRACTION * magnitude(third.times(cube).raw - t3.times(fundamental).raw) <= 7
                * FRACTION + third.raw
        }),
{
    let f = FRACTION as int;
    let a = amplitude.raw as int;
    let t2 = share_of::<Fixed, Fixed>(profile.second);
    let t3 = share_of::<Fixed, Fixed>(profile.third);
    let (second, third, _) = solved::<Fixed, Fixed>(profile, amplitude);
    let square = amplitude.times(amplitude);
    let cube = square.times(amplitude);
    let spill = spill_of(amplitude);
    let fundamental = fundamental_of(third, amplitude);
    lemma_product(amplitude, amplitude);
    assert(0x10_0000 <= square.raw <= a) by (nonlinear_arith)
        requires
            square.raw * f <= a * a < square.raw * f + f,
            0x400_0000 <= a <= f,
            f == 0x1_0000_0000,
    ;
    lemma_product(square, amplitude);
    assert(0x4000 <= cube.raw <= a) by (nonlinear_arith)
        requires
            cube.raw * f <= square.raw * a < cube.raw * f + f,
            0x10_0000 <= square.raw <= f,
            0x400_0000 <= a <= f,
            f == 0x1_0000_0000,
    ;
    let m = 3 * (a - cube.raw);
    assert(spill.raw == -m) by {
        assert((3 * f) * cube.raw / f == 3 * cube.raw && (3 * f) * a / f == 3 * a && (3 * f)
            * cube.raw >= 0 && (3 * f) * a >= 0) by (nonlinear_arith)
            requires
                f == 0x1_0000_0000,
                0 <= cube.raw,
                0 <= a,
        ;
    }
    lemma_product(t3, spill);
    let t = -t3.times(spill).raw;
    assert(0 <= t <= 3 * f) by (nonlinear_arith)
        requires
            t * f <= t3.raw * m,
            0 <= t,
            0 <= t3.raw <= f,
            0 <= m <= 3 * f,
            f == 0x1_0000_0000,
    ;
    let d = cube.raw + t;
    assert(cube.negated().plus(t3.times(spill)).raw == -d);
    lemma_floor_is_nothing();
    let n = -t3.negated().times(amplitude).raw;
    assert(n >= 0 && n * f <= t3.raw * a < n * f + f) by {
        lemma_product(t3, amplitude);
        let product = t3.times(amplitude).raw as int;
        assert(product <= f) by (nonlinear_arith)
            requires
                product * f <= t3.raw * a,
                0 <= t3.raw <= f,
                0 <= a <= f,
                f == 0x1_0000_0000,
        ;
        products_mirror(t3, amplitude);
    }
    assert(n <= f) by (nonlinear_arith)
        requires
            n * f <= t3.raw * a,
            0 <= t3.raw <= f,
            0 <= a <= f,
            f == 0x1_0000_0000,
    ;
    let w = n * f / d;
    assert(w * d <= n * f < w * d + d && 0 <= w <= 0x4_0000_0000_0000) by (nonlinear_arith)
        requires
            w == n * f / d,
            0 <= n <= f,
            0x4000 <= d,
            f == 0x1_0000_0000,
    ;
    assert(third.raw == w) by {
        assert((-n) * f == -(n * f)) by (nonlinear_arith);
        assert(0int / d == 0);
    }
    assert(0 <= w * m) by (nonlinear_arith)
        requires
            0 <= w,
            0 <= m,
    ;
    lemma_product(third, spill);
    let lost = -third.times(spill).raw;
    lemma_a_fundamental_is_left(a, t3.raw as int, m, t, d, n, w, lost);
    assert(fundamental.raw == a - lost);
    // The second harmonic.
    lemma_product(t2, fundamental);
    let p = t2.times(fundamental).raw as int;
    assert(0 <= p <= f) by (nonlinear_arith)
        requires
            0 <= p,
            p * f <= t2.raw * fundamental.raw,
            0 <= t2.raw <= f,
            0 <= fundamental.raw <= f,
            f == 0x1_0000_0000,
    ;
    let q = square.raw as int;
    let v = p * f / q;
    assert(v * q <= p * f < v * q + q && 0 <= v <= 0x1000_0000_0000 && 0 <= p * f)
        by (nonlinear_arith)
        requires
            v == p * f / q,
            0 <= p <= f,
            0x10_0000 <= q,
            f == 0x1_0000_0000,
    ;
    assert(second.raw == v);
    lemma_product(second, square);
    let s = second.times(square).raw as int;
    assert(magnitude(s - p) <= 2) by (nonlinear_arith)
        requires
            s * f <= v * q < s * f + f,
            v * q <= p * f < v * q + q,
            q <= f,
            f == 0x1_0000_0000,
    ;
    // The third.
    lemma_product(third, cube);
    lemma_product(t3, fundamental);
    lemma_third_residue(
        a,
        t3.raw as int,
        m,
        t,
        d,
        n,
        w,
        lost,
        cube.raw as int,
        third.times(cube).raw as int,
        t3.times(fundamental).raw as int,
    );
}

proof fn lemma_a_fundamental_is_left(
    a: int,
    t3: int,
    m: int,
    t: int,
    d: int,
    n: int,
    w: int,
    lost: int,
)
    requires
        0 < a,
        0 <= t3,
        0 <= m,
        0 <= t,
        t + 1 <= d,
        0 <= n,
        0 <= w,
        t3 * m < t * FRACTION + FRACTION,
        n * FRACTION <= t3 * a,
        w * d <= n * FRACTION,
        0 <= lost,
        lost * FRACTION <= w * m,
    ensures
        lost <= a,
{
    let f = FRACTION as int;
    assert((lost * f) * d <= (w * m) * d) by (nonlinear_arith)
        requires
            lost * f <= w * m,
            0 < d,
    ;
    assert((w * m) * d <= (n * f) * m) by (nonlinear_arith)
        requires
            w * d <= n * f,
            0 <= m,
    ;
    assert((n * f) * m <= (t3 * a) * m) by (nonlinear_arith)
        requires
            n * f <= t3 * a,
            0 <= m,
    ;
    assert((t3 * a) * m <= a * (t * f + f)) by (nonlinear_arith)
        requires
            t3 * m < t * f + f,
            0 < a,
    ;
    assert(a * (t * f + f) <= (a * d) * f) by (nonlinear_arith)
        requires
            t + 1 <= d,
            0 < a,
            f == 0x1_0000_0000,
    ;
    assert(lost <= a) by (nonlinear_arith)
        requires
            (lost * f) * d <= (a * d) * f,
            0 < d,
            f == 0x1_0000_0000,
    ;
}

proof fn lemma_third_residue(
    a: int,
    t3: int,
    m: int,
    t: int,
    d: int,
    n: int,
    w: int,
    lost: int,
    cube: int,
    got: int,
    wanted: int,
)
    requires
        0 <= t3 <= FRACTION,
        0 <= m,
        0 <= w,
        0 < d <= 4 * FRACTION,
        d == cube + t,
        t * FRACTION <= t3 * m < t * FRACTION + FRACTION,
        n * FRACTION <= t3 * a < n * FRACTION + FRACTION,
        w * d <= n * FRACTION < w * d + d,
        lost * FRACTION <= w * m < lost * FRACTION + FRACTION,
        got * FRACTION <= w * cube < got * FRACTION + FRACTION,
        wanted * FRACTION <= t3 * (a - lost) < wanted * FRACTION + FRACTION,
    ensures
        FRACTION * magnitude(got - wanted) <= 7 * FRACTION + w,
{
    let f = FRACTION as int;
    assert(w * cube == w * d - w * t) by (nonlinear_arith)
        requires
            d == cube + t,
    ;
    assert(t3 * (a - lost) == t3 * a - t3 * lost) by (nonlinear_arith);
    assert((t3 * lost) * f <= t3 * (w * m) <= (t3 * lost) * f + t3 * f) by (nonlinear_arith)
        requires
            lost * f <= w * m < lost * f + f,
            0 <= t3,
    ;
    assert((w * t) * f <= w * (t3 * m) <= (w * t) * f + w * f) by (nonlinear_arith)
        requires
            t * f <= t3 * m < t * f + f,
            0 <= w,
    ;
    assert(t3 * (w * m) == w * (t3 * m)) by (nonlinear_arith);
    assert(t3 * lost - w * t <= w && w * t - t3 * lost <= t3) by (nonlinear_arith)
        requires
            (t3 * lost) * f <= (w * t) * f + w * f,
            (w * t) * f <= (t3 * lost) * f + t3 * f,
            f == 0x1_0000_0000,
    ;
}

} // verus!
