//! Laws of the harmonic shaper: its polynomials, its curve and its makeup.

use vstd::prelude::*;

use crate::harmonics::{
    absent, chebyshev2, chebyshev3, fundamental_of, harmonic_of, shaper_of, solved,
    HarmonicProfile, HarmonicShaper,
};
use crate::num::{
    a_product_is_exact_to_a_count, a_quotient_is_exact_to_a_count, a_ratio_is_exact_to_a_count,
    magnitude, within, Fixed, Sample, Wide, FRACTION,
};

verus! {

/// The shaper's polynomials are those of the double and the triple angle: twice the
/// square less one, and four times the cube less three times the number.
pub proof fn the_polynomials_are_of_the_double_and_triple_angle(x: Fixed)
    requires
        within(x, 0x1_0000_0000),
    ensures
        ({
            let n = x.raw as int;
            let unit = FRACTION * FRACTION;
            &&& magnitude(FRACTION * chebyshev2(x).raw - (2 * (n * n) - unit)) < FRACTION
            &&& magnitude(unit * chebyshev3(x).raw - (4 * (n * n * n) - 3 * (unit * n))) <= 3
                * unit
            &&& within(chebyshev2(x), 0x1_0000_0000)
            &&& within(chebyshev3(x), 0x3_0000_0000)
        }),
{
    let f = FRACTION as int;
    let n = x.raw as int;
    let two = Fixed::of_spec(2);
    assert((2 * f) * n == f * (2 * n) && magnitude(f * (2 * n)) <= 2 * f * f) by (nonlinear_arith)
        requires
            -f <= n <= f,
            f == 0x1_0000_0000,
    ;
    assert(f * f == 0x1_0000_0000_0000_0000) by (nonlinear_arith)
        requires
            f == 0x1_0000_0000,
    ;
    a_product_is_exact_to_a_count(two, x);
    let twice = two.times(x);
    let d = twice.raw as int;
    assert(f * d - f * (2 * n) == f * (d - 2 * n)) by (nonlinear_arith);
    assert(d == 2 * n) by (nonlinear_arith)
        requires
            -f < f * (d - 2 * n) < f,
            f == 0x1_0000_0000,
    ;
    assert((2 * n) * n == 2 * (n * n) && 0 <= n * n <= f * f) by (nonlinear_arith)
        requires
            -f <= n <= f,
    ;
    a_product_is_exact_to_a_count(twice, x);
    let p = twice.times(x).raw as int;
    assert(0 <= p <= 2 * f) by (nonlinear_arith)
        requires
            0 <= p,
            f * p <= 2 * (f * f),
            0 < f,
    ;
    let second = chebyshev2(x);
    let t = second.raw as int;
    assert(t == p - f);
    assert((2 * n) * t == 2 * (n * t) && magnitude(n * t) <= f * f) by (nonlinear_arith)
        requires
            -f <= n <= f,
            -f <= t <= f,
    ;
    a_product_is_exact_to_a_count(twice, second);
    let q = twice.times(second).raw as int;
    assert(-2 * f <= q <= 2 * f) by (nonlinear_arith)
        requires
            f * magnitude(q) <= 2 * (f * f),
            0 < f,
            q <= magnitude(q),
            -q <= magnitude(q),
    ;
    let u = chebyshev3(x).raw as int;
    assert(u == q - n);
    let unit = f * f;
    assert(-3 * unit <= unit * u - (4 * (n * n * n) - 3 * (unit * n)) <= 3 * unit)
        by (nonlinear_arith)
        requires
            u == q - n,
            unit == f * f,
            -f < f * q - 2 * (n * t) < f,
            -f < f * t - (2 * (n * n) - f * f) < f,
            -f <= n <= f,
            0 < f,
    {
        let e = f * q - 2 * (n * t);
        let g = f * t - (2 * (n * n) - f * f);
        assert(unit * q == f * (f * q));
        assert(f * (f * q) == f * e + 2 * (n * (f * t)));
        assert(n * (f * t) == n * g + 2 * (n * n * n) - n * (f * f));
        assert(unit * u == unit * q - unit * n);
        assert(-(f * f) <= f * e <= f * f);
        assert(-(f * f) <= n * g <= f * f);
    }
}

/// A shaper adds its weight of each polynomial to the sample and makes the whole of
/// it up, but for rounding.
pub proof fn a_shaper_adds_its_weights(shaper: HarmonicShaper<Fixed>, sample: Fixed)
    requires
        !shaper.transparent,
        within(sample, 0x1_0000_0000),
        within(shaper.second, 0x1_0000_0000),
        within(shaper.third, 0x1_0000_0000),
        within(shaper.makeup, 0x10_0000_0000),
    ensures
        ({
            let made = shaper.makeup.raw as int;
            let raised = FRACTION * sample.raw + shaper.second.raw * chebyshev2(sample).raw
                + shaper.third.raw * chebyshev3(sample).raw;
            magnitude(FRACTION * FRACTION * harmonic_of(shaper, sample).raw - made * raised)
                <= FRACTION * (FRACTION + 2 * magnitude(made))
        }),
{
    let f = FRACTION as int;
    let x = sample.raw as int;
    let a = shaper.second.raw as int;
    let b = shaper.third.raw as int;
    let m = shaper.makeup.raw as int;
    the_polynomials_are_of_the_double_and_triple_angle(sample);
    let second = chebyshev2(sample);
    let third = chebyshev3(sample);
    let t = second.raw as int;
    let u = third.raw as int;
    assert(magnitude(a * t) <= f * f && magnitude(b * u) <= 3 * (f * f)) by (nonlinear_arith)
        requires
            -f <= a <= f,
            -f <= b <= f,
            -f <= t <= f,
            -3 * f <= u <= 3 * f,
    ;
    assert(f * f == 0x1_0000_0000_0000_0000) by (nonlinear_arith)
        requires
            f == 0x1_0000_0000,
    ;
    a_product_is_exact_to_a_count(shaper.second, second);
    a_product_is_exact_to_a_count(shaper.third, third);
    let p = shaper.second.times(second).raw as int;
    let q = shaper.third.times(third).raw as int;
    assert(-f <= p <= f && -3 * f <= q <= 3 * f) by (nonlinear_arith)
        requires
            f * magnitude(p) <= f * f,
            f * magnitude(q) <= 3 * (f * f),
            p <= magnitude(p),
            -p <= magnitude(p),
            q <= magnitude(q),
            -q <= magnitude(q),
            0 < f,
    ;
    let inner = sample.plus(shaper.second.times(second)).plus(shaper.third.times(third));
    let s = inner.raw as int;
    assert(s == x + p + q);
    assert(magnitude(s * m) <= 0x7fff_ffff_ffff_ffff * f) by (nonlinear_arith)
        requires
            -5 * f <= s <= 5 * f,
            -16 * f <= m <= 16 * f,
            f == 0x1_0000_0000,
    ;
    a_product_is_exact_to_a_count(inner, shaper.makeup);
    let h = inner.times(shaper.makeup).raw as int;
    assert(harmonic_of(shaper, sample).raw == h);
    let raised = f * x + a * t + b * u;
    let e = f * h - s * m;
    let g = f * s - raised;
    assert(f * s == f * x + f * p + f * q) by (nonlinear_arith)
        requires
            s == x + p + q,
    ;
    assert(-2 * f < g < 2 * f);
    assert(f * f * h - m * raised == f * e + m * g) by (nonlinear_arith)
        requires
            e == f * h - s * m,
            g == f * s - raised,
    ;
    assert(magnitude(f * e + m * g) <= f * (f + 2 * magnitude(m))) by (nonlinear_arith)
        requires
            -f < e < f,
            -2 * f < g < 2 * f,
            0 < f,
    ;
}

/// A shaper has the weights that were solved for it, and makes up what they leave of
/// the fundamental: the two multiply to one. It stands aside where neither harmonic
/// is wanted.
pub proof fn a_shaper_makes_up_the_fundamental(profile: HarmonicProfile<Fixed>, amplitude: Fixed)
    ensures
        ({
            let (second, third, left) = solved::<Fixed, Fixed>(profile, amplitude);
            let shaper = shaper_of::<Fixed, Fixed>(profile, amplitude);
            &&& shaper.second == second && shaper.third == third
            &&& left.raw > 4294 ==> magnitude(
                left.raw * shaper.makeup.raw - FRACTION * FRACTION,
            ) < left.raw
            &&& shaper.transparent <==> absent(profile.second) && absent(profile.third)
        }),
{
    let f = FRACTION as int;
    let (second, third, left) = solved::<Fixed, Fixed>(profile, amplitude);
    a_ratio_is_exact_to_a_count(1, 1_000_000);
    assert(crate::num::ratio_of::<Fixed>(1, 1_000_000).raw == 4294);
    if left.raw > 4294 {
        assert(f * f <= 0x7fff_ffff_ffff_ffff * left.raw) by (nonlinear_arith)
            requires
                left.raw > 4294,
                f == 0x1_0000_0000,
        ;
        a_quotient_is_exact_to_a_count(Fixed::of_spec(1), left);
    }
}

/// What the weights leave of the fundamental is its share of the amplitude.
pub proof fn what_is_left_is_a_share_of_the_amplitude(
    profile: HarmonicProfile<Fixed>,
    amplitude: Fixed,
)
    requires
        0 < amplitude.raw,
        magnitude(
            fundamental_of(solved::<Fixed, Fixed>(profile, amplitude).1, amplitude).raw as int,
        ) <= amplitude.raw,
    ensures
        ({
            let (_, third, left) = solved::<Fixed, Fixed>(profile, amplitude);
            let fundamental = fundamental_of(third, amplitude).raw;
            magnitude(amplitude.raw * left.raw - fundamental * FRACTION) < amplitude.raw
        }),
{
    let f = FRACTION as int;
    let (_, third, _) = solved::<Fixed, Fixed>(profile, amplitude);
    let fundamental = fundamental_of(third, amplitude);
    assert(magnitude(fundamental.raw as int) * f <= 0x7fff_ffff_ffff_ffff * amplitude.raw)
        by (nonlinear_arith)
        requires
            0 <= magnitude(fundamental.raw as int) <= amplitude.raw,
            f == 0x1_0000_0000,
    ;
    a_quotient_is_exact_to_a_count(fundamental, amplitude);
}

} // verus!
