//! The shapes the devices are built of: oscillators, sweeps and filter designs.

use vstd::prelude::*;

use crate::biquad::{shelf_design, width_of};
use crate::curves::{exponentials_keep_order, ln_two, wrapped, Curves, HALF_TURN};
use crate::filter::svf_coeffs;
use crate::lfo::{lfo_at, Lfo};
use crate::modulation::{allpass_coefficient_of, log2_center_of, phaser_hz_of, swept};
use crate::num::{
    a_product_is_exact_to_a_count, a_quotient_is_exact_to_a_count, a_ratio_is_exact_to_a_count,
    a_share_is_exact_to_a_count, is_gain, magnitude, nothing_times, products_commute,
    products_keep_order, ratio_of, times_one, within, Fixed, Sample, FRACTION,
};

verus! {

/// The coefficients of a state-variable stage are those of its corner and damping:
/// the first is one over one and the corner times the corner and the damping, and
/// each further one the corner's share of the one before.
pub proof fn a_stage_is_tuned_by_its_corner(g: Fixed, damping: Fixed)
    requires
        0 <= g.raw <= 64 * FRACTION,
        0 <= damping.raw <= 2 * FRACTION,
    ensures
        ({
            let c = svf_coeffs(g, damping);
            let under = FRACTION + g.times(g.plus(damping)).raw;
            &&& magnitude(FRACTION * (under - FRACTION) - g.raw * (g.raw + damping.raw)) < FRACTION
            &&& under * c.a1.raw <= FRACTION * FRACTION < under * (c.a1.raw + 1)
            &&& magnitude(FRACTION * c.a2.raw - g.raw * c.a1.raw) < FRACTION
            &&& magnitude(FRACTION * c.a3.raw - g.raw * c.a2.raw) < FRACTION
            &&& c.g == g && c.damping == damping
        }),
{
    let f = FRACTION as int;
    let x = g.raw as int;
    let sum = g.plus(damping);
    let y = sum.raw as int;
    assert(0 <= x * y <= (64 * f) * (66 * f) && (64 * f) * (66 * f) <= 0x7fff_ffff_ffff_ffff * f)
        by (nonlinear_arith)
        requires
            0 <= x <= 64 * f,
            0 <= y <= 66 * f,
            f == 0x1_0000_0000,
    ;
    a_product_is_exact_to_a_count(g, sum);
    let p = g.times(sum).raw as int;
    assert(0 <= p <= 4_224 * f) by (nonlinear_arith)
        requires
            f * p <= (64 * f) * (66 * f),
            0 <= p,
            f == 0x1_0000_0000,
    ;
    let one = Fixed::of_spec(1);
    let under = one.plus(g.times(sum));
    let d = f + p;
    assert(under.raw == d);
    let q = (f * f) / d;
    assert(d * q <= f * f < d * (q + 1) && 0 <= q <= f && 0 < f * f) by (nonlinear_arith)
        requires
            q == (f * f) / d,
            d >= f,
            f == 0x1_0000_0000,
    ;
    let a1 = one.over(under);
    assert(a1.raw == q);
    a_share_is_exact_to_a_count(g, a1);
    let a2 = g.times(a1);
    let z = a2.raw as int;
    assert(0 <= x * z <= 0x7fff_ffff_ffff_ffff * f) by (nonlinear_arith)
        requires
            0 <= x <= 64 * f,
            0 <= z <= x,
            f == 0x1_0000_0000,
    {
        assert(x * z <= (64 * f) * (64 * f));
    }
    a_product_is_exact_to_a_count(g, a2);
}

/// A shelf of no gain does nothing: its weights are those of its answer.
pub proof fn a_flat_shelf_is_the_identity(w: Fixed, q: Fixed, high: bool)
    requires
        0 <= w.sin_spec().raw <= 8 * FRACTION,
        within(w.cos_spec(), 8 * FRACTION),
        0 < q.raw <= 1_000 * FRACTION,
        0 <= shelf_beta(w, q).raw,
    ensures
        ({
            let shelf = shelf_design(w, Fixed::of_spec(1), q, high);
            &&& shelf.b0.raw == FRACTION
            &&& shelf.b1 == shelf.a1
            &&& shelf.b2 == shelf.a2
        }),
{
    let f = FRACTION as int;
    let one = Fixed::of_spec(1);
    let two = Fixed::of_spec(2);
    let cos = if high {
        w.cos_spec().negated()
    } else {
        w.cos_spec()
    };
    let turn = if high {
        two.negated()
    } else {
        two
    };
    let gap = one.minus(one);
    assert(gap == Fixed::of_spec(0));
    nothing_times(cos);
    let beta = shelf_beta(w, q);
    let lead = two.plus(beta);
    times_one(lead);
    products_commute(one, lead);
    let tail = two.minus(beta);
    times_one(tail);
    products_commute(one, tail);
    times_one(turn);
    let m = two.times(cos);
    let c = cos.raw as int;
    assert(within(m, 0x100_0000_0000)) by {
        crate::num::products_stay_within(two, cos, 2 * f, 8 * f, 16 * f);
    }
    let x = turn.raw as int;
    let y = m.raw as int;
    assert(x * -y == -x * y) by (nonlinear_arith);
    assert(turn.times(gap.minus(m)) == turn.negated().times(gap.plus(m)));
    let d = lead.raw as int;
    assert((d * f) / d == f && 0 <= d * f) by (nonlinear_arith)
        requires
            d > 0,
            f == 0x1_0000_0000,
    {
        vstd::arithmetic::div_mod::lemma_div_multiples_vanish(f, d);
        assert(d * f == f * d);
    }
}

/// How steep a flat shelf's bend is.
pub open spec fn shelf_beta<S: Curves>(w: S, q: S) -> S {
    let one = S::of_spec(1);
    let two = S::of_spec(2);
    let bend = w.sin_spec().over(two).times(
        crate::num::max_of(
            one.plus(one.over(one)).times(one.over(width_of(q)).minus(one)).plus(two),
            S::of_spec(0),
        ).sqrt_spec(),
    );
    two.times(one.sqrt_spec()).times(bend)
}

/// A phaser's corner rises with its oscillator.
pub proof fn a_corner_rises_with_its_oscillator(
    low: Fixed,
    high: Fixed,
    log2_center: Fixed,
    octaves: Fixed,
    sample_rate: u32,
)
    requires
        low.raw <= high.raw,
        0 <= octaves.raw,
        1_000 <= sample_rate <= 0x4_0000,
    ensures
        phaser_hz_of(low, log2_center, octaves, sample_rate).raw <= phaser_hz_of(
            high,
            log2_center,
            octaves,
            sample_rate,
        ).raw,
        60 * FRACTION <= phaser_hz_of(low, log2_center, octaves, sample_rate).raw,
{
    let f = FRACTION as int;
    products_keep_order(low, high, octaves);
    let a = log2_center.plus(low.times(octaves));
    let b = log2_center.plus(high.times(octaves));
    assert(ln_two().raw >= 0) by {
        a_ratio_is_exact_to_a_count(11_629_080, 16_777_216);
    }
    products_keep_order(a, b, ln_two());
    exponentials_keep_order(a.times(ln_two()), b.times(ln_two()));
    a_ratio_is_exact_to_a_count(42, 100);
    let part = ratio_of::<Fixed>(42, 100);
    let rate = Fixed::of_spec(sample_rate as nat);
    a_share_is_exact_to_a_count(rate, part);
    let t = rate.times(part).raw as int;
    let g = part.raw as int;
    assert(t >= 60 * f) by (nonlinear_arith)
        requires
            -f < f * t - rate.raw * g < f,
            rate.raw >= 1_000 * f,
            g >= f / 4,
            f == 0x1_0000_0000,
    {
        assert(rate.raw * g >= (1_000 * f) * g);
        assert((1_000 * f) * g >= (1_000 * f) * (f / 4));
    }
}

/// A phaser's centre is a straight line in its color, from the logarithm of 220 on by
/// that of 28; and it sweeps by 0.15 octaves and 2.2 of depth.
pub proof fn a_sweep_is_its_center_and_its_octaves(
    lfo: Fixed,
    depth: Fixed,
    color: Fixed,
    sample_rate: u32,
)
    requires
        is_gain(depth),
        is_gain(color),
    ensures
        magnitude(
            2_097_152 * log2_center_of(color).raw - (16_318_694 * FRACTION + 10_081_754
                * color.raw),
        ) <= 10_000_000,
        swept(lfo, depth, color, sample_rate) == allpass_coefficient_of(
            phaser_hz_of(
                lfo,
                log2_center_of(color),
                Fixed { raw: (644_245_094 + 9_448_928_051 * depth.raw / 0x1_0000_0000) as i64 },
                sample_rate,
            ),
            sample_rate,
        ),
{
    let f = FRACTION as int;
    a_ratio_is_exact_to_a_count(16_318_694, 2_097_152);
    a_ratio_is_exact_to_a_count(10_081_754, 2_097_152);
    a_ratio_is_exact_to_a_count(15, 100);
    a_ratio_is_exact_to_a_count(22, 10);
    let part = ratio_of::<Fixed>(10_081_754, 2_097_152);
    a_share_is_exact_to_a_count(part, color);
    let start = ratio_of::<Fixed>(16_318_694, 2_097_152);
    let k = part.raw as int;
    let c = color.raw as int;
    let p = part.times(color).raw as int;
    let e = 2_097_152 * p - 10_081_754 * c;
    assert(-5_000_000 <= e <= 5_000_000) by (nonlinear_arith)
        requires
            e == 2_097_152 * p - 10_081_754 * c,
            -f < f * p - k * c < f,
            2_097_152 * k <= 10_081_754 * f < 2_097_152 * k + 2_097_152,
            0 <= c <= f,
            f == 0x1_0000_0000,
    {
        let x = f * p - k * c;
        let y = 10_081_754 * f - 2_097_152 * k;
        assert(f * e == 2_097_152 * x - c * y);
        assert(0 <= c * y <= f * 2_097_152);
        assert(-(f * 5_000_000) <= f * e <= f * 5_000_000);
    }
    let d = depth.raw as int;
    assert(ratio_of::<Fixed>(15, 100).raw == 644_245_094);
    assert(ratio_of::<Fixed>(22, 10).raw == 9_448_928_051);
    assert(d * 9_448_928_051 == 9_448_928_051 * d);
    assert(depth.times(ratio_of(22, 10)).raw == (9_448_928_051 * d) / 0x1_0000_0000);
}

/// An oscillator begins at nothing, is over it for the first half of its turn, and
/// under it for the second.
pub proof fn an_oscillator_rises_first(lfo: Lfo<Fixed>)
    requires
        0 <= lfo.phase.raw < FRACTION,
    ensures
        2 * lfo.phase.raw < FRACTION ==> 0 <= lfo_at(lfo, Fixed::of_spec(0)).raw,
        2 * lfo.phase.raw >= FRACTION ==> lfo_at(lfo, Fixed::of_spec(0)).raw <= 0,
        lfo.phase.raw == 0 ==> lfo_at(lfo, Fixed::of_spec(0)).raw == 0,
{
    let f = FRACTION as int;
    let h = HALF_TURN as int;
    let t = lfo.phase.raw as int;
    assert(crate::lfo::turn_of(lfo.phase.plus(Fixed::of_spec(0))) == lfo.phase);
    let tau = crate::curves::tau_of::<Fixed>();
    assert(((2 * 0x1_0000_0000) * h) / 0x1_0000_0000 == 2 * h);
    assert(tau.raw == 2 * h);
    let n = (2 * h) * t;
    let angle = n / f;
    assert(0 <= n && angle * f <= n < angle * f + f && 0 <= angle < 2 * h && (2 * t < f ==> angle
        < h) && (2 * t >= f ==> angle >= h) && (t == 0 ==> angle == 0)) by (nonlinear_arith)
        requires
            n == (2 * h) * t,
            angle == n / f,
            0 <= t < f,
            h == 13_493_038_080,
            f == 0x1_0000_0000,
    ;
    let x = tau.times(lfo.phase);
    assert(x.raw == angle);
    assert(wrapped(x).raw == (if angle < h {
        angle
    } else {
        angle - 2 * h
    }));
    lemma_arch(wrapped(x));
}

proof fn lemma_arch(x: Fixed)
    requires
        within(x, HALF_TURN as int),
    ensures
        ({
            let four = Fixed::of_spec(4);
            let pi = Fixed { raw: HALF_TURN };
            let ramp = four.times(x).over(pi);
            let out = ramp.minus(ramp.times(x.abs_spec()).over(pi)).raw;
            &&& x.raw >= 0 ==> out >= 0
            &&& x.raw <= 0 ==> out <= 0
            &&& x.raw == 0 ==> out == 0
        }),
{
    let f = FRACTION as int;
    let h = HALF_TURN as int;
    let four = Fixed::of_spec(4);
    let pi = Fixed { raw: HALF_TURN };
    let m = magnitude(x.raw as int);
    let times = four.times(x);
    assert(times.raw == 4 * x.raw) by {
        assert((4 * m * 0x1_0000_0000) / 0x1_0000_0000 == 4 * m);
        let raw = x.raw as int;
        let n = (4 * f) * raw;
        assert(magnitude(n) == 4 * m * 0x1_0000_0000 && (n < 0 <==> raw < 0)) by (nonlinear_arith)
            requires
                n == (4 * f) * raw,
                f == 0x1_0000_0000,
                m == (if raw < 0 { -raw } else { raw }),
                magnitude(n) == (if n < 0 { -n } else { n }),
        ;
    }
    let ramp = times.over(pi);
    let size = magnitude(times.raw as int);
    assert(size * f <= 0x7fff_ffff_ffff_ffff * h) by (nonlinear_arith)
        requires
            0 <= size <= 4 * h,
            f == 0x1_0000_0000,
            h > 0,
    ;
    a_quotient_is_exact_to_a_count(times, pi);
    let u = magnitude(ramp.raw as int);
    let a = x.abs_spec();
    assert(a.raw == m);
    assert(u <= 4 * f) by (nonlinear_arith)
        requires
            h * u <= size * f,
            size <= 4 * h,
            h > 0,
            f == 0x1_0000_0000,
    ;
    assert(magnitude(ramp.raw * m) <= 0x7fff_ffff_ffff_ffff * f && magnitude(ramp.raw * m) == u * m
        && (ramp.raw >= 0 ==> ramp.raw * m >= 0) && (ramp.raw <= 0 ==> ramp.raw * m <= 0))
        by (nonlinear_arith)
        requires
            u == (if ramp.raw < 0 { -ramp.raw } else { ramp.raw as int }),
            u <= 4 * f,
            0 <= m <= h,
            h == 13_493_038_080,
            f == 0x1_0000_0000,
            magnitude(ramp.raw * m) == (if ramp.raw * m < 0 {
                -(ramp.raw * m)
            } else {
                ramp.raw * m
            }),
    ;
    a_product_is_exact_to_a_count(ramp, a);
    let bent = ramp.times(a);
    let v = magnitude(bent.raw as int);
    assert(v * f <= 0x7fff_ffff_ffff_ffff * h && v * f <= u * h) by (nonlinear_arith)
        requires
            f * v <= u * m,
            0 <= u <= 4 * f,
            0 <= m <= h,
            f == 0x1_0000_0000,
            h > 0,
    {
        assert(u * m <= u * h);
        assert(u * h <= (4 * f) * h);
    }
    a_quotient_is_exact_to_a_count(bent, pi);
    let w = magnitude(bent.over(pi).raw as int);
    assert(w <= u) by (nonlinear_arith)
        requires
            h * w <= v * f,
            v * f <= u * h,
            h > 0,
    ;
}

} // verus!
