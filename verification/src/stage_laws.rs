//! What the smaller stages do, in counts: envelopes, filter stages, and the
//! limiter's controls and channels.

use vstd::prelude::*;

use crate::biquad::{
    angle_of, bell_design, pass_design, stage_after, stage_out, width_of, Biquad,
};
use crate::curves::Curves;
use crate::env::{adsr_next, segment_rate_of, stage_frames, Adsr, AdsrStage};
use crate::filter::{damping_of, under_ceiling};
use crate::level::time_coeff_of;
use crate::limiter::{
    limiter_next, limiter_out, limiter_taking, LimiterParams, Limiting,
};
use crate::lookahead::{gain_out, released_after, GainState};
use crate::num::{
    a_product_is_exact_to_a_count, a_quotient_is_exact_to_a_count, a_ratio_is_exact_to_a_count,
    a_share_is_exact_to_a_count, held, is_gain, magnitude, ratio_of, times_one, within, Fixed,
    Sample, FRACTION,
};
use crate::smooth::Smoothed;

verus! {

/// An envelope after some samples.
pub open spec fn adsr_after<S: Sample>(env: Adsr<S>, frames: nat) -> Adsr<S>
    decreases frames,
{
    if frames == 0 {
        env
    } else {
        adsr_next(adsr_after(env, (frames - 1) as nat))
    }
}

/// An attack climbs in a straight line by its increment each sample, and stands on
/// one at the sample that would reach it, the decay ahead.
pub proof fn an_attack_climbs_to_one(env: Adsr<Fixed>, frames: nat)
    requires
        env.stage == AdsrStage::Attack,
        is_gain(env.level),
        0 < env.attack_inc.raw <= FRACTION,
        env.level.raw + (frames - 1) * env.attack_inc.raw < FRACTION,
        frames > 0,
    ensures
        ({
            let after = adsr_after(env, frames);
            let level = env.level.raw + frames * env.attack_inc.raw;
            &&& level < FRACTION ==> after.level.raw == level && after.stage == AdsrStage::Attack
            &&& level >= FRACTION ==> after.level.raw == FRACTION && after.stage
                == AdsrStage::Decay
            &&& after == (Adsr { level: after.level, stage: after.stage, ..env })
        }),
    decreases frames,
{
    let inc = env.attack_inc.raw as int;
    let before = (frames - 1) as nat;
    assert(frames * inc == before * inc + inc) by (nonlinear_arith)
        requires
            frames == before + 1,
    ;
    if frames > 1 {
        let fewer = (frames - 2) as nat;
        assert(before * inc == fewer * inc + inc) by (nonlinear_arith)
            requires
                before == fewer + 1,
        ;
        an_attack_climbs_to_one(env, before);
    } else {
        assert(0 * inc == 0);
        assert(adsr_after(env, 0) == env);
    }
}

/// A decay falls in a straight line to the sustain and stays on it; a release
/// falls to nothing and rests there; neither goes past.
pub proof fn an_envelope_falls_by_its_decrement(env: Adsr<Fixed>)
    requires
        is_gain(env.level),
        is_gain(env.sustain),
        is_gain(env.decay_dec),
        is_gain(env.release_dec),
    ensures
        ({
            let after = adsr_next(env);
            let decayed = env.level.raw - env.decay_dec.raw;
            let released = env.level.raw - env.release_dec.raw;
            &&& env.stage == AdsrStage::Decay && decayed > env.sustain.raw ==> after.level.raw
                == decayed && after.stage == AdsrStage::Decay
            &&& env.stage == AdsrStage::Decay && decayed <= env.sustain.raw ==> after.level
                == env.sustain && after.stage == AdsrStage::Sustain
            &&& env.stage == AdsrStage::Sustain ==> after == env
            &&& env.stage == AdsrStage::Release && released > 0 ==> after.level.raw == released
                && after.stage == AdsrStage::Release
            &&& env.stage == AdsrStage::Release && released <= 0 ==> after.level.raw == 0
                && after.stage == AdsrStage::Idle
            &&& env.stage == AdsrStage::Idle ==> after.level.raw == 0 && after.stage
                == AdsrStage::Idle
        }),
{
}

/// A stage lasts its seconds times the rate, and no less than a ten thousandth of
/// a second; a segment's share of one sample is one over that, and one for a sample
/// or less.
pub proof fn a_stage_lasts_its_seconds(seconds: Fixed, sample_rate: u32)
    requires
        0 <= seconds.raw <= 100 * FRACTION,
        1 <= sample_rate <= 0x4_0000,
    ensures
        stage_frames(seconds, sample_rate).raw == (if seconds.raw < 429_496 {
            429_496 * sample_rate
        } else {
            seconds.raw * sample_rate
        }),
        ({
            let rate = segment_rate_of(seconds, sample_rate).raw as int;
            let samples = seconds.raw * sample_rate;
            &&& samples <= FRACTION ==> rate == FRACTION
            &&& samples > FRACTION ==> rate * samples <= FRACTION * FRACTION < (rate + 1) * samples
        }),
{
    let f = FRACTION as int;
    let n = sample_rate as int;
    a_ratio_is_exact_to_a_count(1, 10_000);
    assert(ratio_of::<Fixed>(1, 10_000).raw == 429_496);
    lemma_by_rate(seconds, sample_rate);
    lemma_by_rate(ratio_of(1, 10_000), sample_rate);
    let w = seconds.raw * n;
    if w > f {
        let q = (f * f) / w;
        assert(q * w <= f * f < (q + 1) * w && 0 <= q <= f && 0 < f * f) by (nonlinear_arith)
            requires
                q == (f * f) / w,
                w > f,
                f == 0x1_0000_0000,
        ;
        assert(segment_rate_of(seconds, sample_rate).raw == q);
    }
}

proof fn lemma_by_rate(value: Fixed, sample_rate: u32)
    requires
        0 <= value.raw <= 100 * FRACTION,
        sample_rate <= 0x4_0000,
    ensures
        value.times(Fixed::of_spec(sample_rate as nat)).raw == value.raw * sample_rate,
{
    let f = FRACTION as int;
    let v = value.raw as int;
    let n = sample_rate as int;
    assert((v * (n * f)) / f == v * n && 0 <= v * (n * f) && 0 <= v * n <= 0x1000_0000_0000_0000)
        by (nonlinear_arith)
        requires
            0 <= v <= 100 * f,
            0 <= n <= 0x4_0000,
            f == 0x1_0000_0000,
    {
        assert(v * (n * f) == (v * n) * f);
    }
}

/// What a filter stage does with a sample: it puts out its leading share and what
/// it stored; and it stores, one sample ahead of another, what the other two shares
/// of the sample leave once those of the output are taken from them.
pub proof fn a_stage_is_its_difference_equation(stage: Biquad<Fixed>, input: Fixed)
    requires
        within(stage.b0, 64 * FRACTION),
        within(stage.b1, 64 * FRACTION),
        within(stage.b2, 64 * FRACTION),
        within(stage.a1, 64 * FRACTION),
        within(stage.a2, 64 * FRACTION),
        within(input, 0x1_0000_0000_0000),
        within(stage.z1, 0x1_0000_0000_0000),
        within(stage.z2, 0x1_0000_0000_0000),
    ensures
        ({
            let out = stage_out(stage, input).raw;
            let after = stage_after(stage, input);
            &&& magnitude(FRACTION * (out - stage.z1.raw) - stage.b0.raw * input.raw) < FRACTION
            &&& magnitude(
                FRACTION * (after.z1.raw - stage.z2.raw) - (stage.b1.raw * input.raw - stage.a1.raw
                    * out),
            ) < 2 * FRACTION
            &&& magnitude(
                FRACTION * after.z2.raw - (stage.b2.raw * input.raw - stage.a2.raw * out),
            ) < 2 * FRACTION
            &&& after == (Biquad { z1: after.z1, z2: after.z2, ..stage })
        }),
{
    let bound = 0x41_0000_0000_0000int;
    lemma_weight(stage.b0, input, 0x1_0000_0000_0000);
    let out = stage_out(stage, input);
    assert(within(out, bound));
    lemma_weight(stage.b1, input, 0x1_0000_0000_0000);
    lemma_weight(stage.b2, input, 0x1_0000_0000_0000);
    lemma_weight(stage.a1, out, bound);
    lemma_weight(stage.a2, out, bound);
}

proof fn lemma_weight(weight: Fixed, value: Fixed, bound: int)
    requires
        within(weight, 64 * FRACTION),
        within(value, bound),
        0 <= bound <= 0x41_0000_0000_0000,
    ensures
        magnitude(FRACTION * weight.times(value).raw - weight.raw * value.raw) < FRACTION,
        within(weight.times(value), 64 * bound),
{
    let f = FRACTION as int;
    let w = weight.raw as int;
    let v = value.raw as int;
    assert(-((64 * f) * bound) <= w * v <= (64 * f) * bound) by (nonlinear_arith)
        requires
            -64 * f <= w <= 64 * f,
            -bound <= v <= bound,
            0 <= f,
    ;
    assert((64 * f) * bound <= 0x7fff_ffff_ffff_ffff * f) by (nonlinear_arith)
        requires
            bound <= 0x41_0000_0000_0000,
            f == 0x1_0000_0000,
    ;
    a_product_is_exact_to_a_count(weight, value);
    let p = magnitude(weight.times(value).raw as int);
    assert(p <= 64 * bound) by (nonlinear_arith)
        requires
            f * p <= (64 * f) * bound,
            f == 0x1_0000_0000,
    ;
}

proof fn lemma_normal(value: Fixed, by: Fixed)
    requires
        within(value, 0x1_0000_0000_0000),
        FRACTION / 2 <= by.raw,
    ensures
        magnitude(by.raw * value.over(by).raw - value.raw * FRACTION) < by.raw,
{
    let f = FRACTION as int;
    let v = magnitude(value.raw as int);
    let b = by.raw as int;
    assert(v * f <= 0x7fff_ffff_ffff_ffff * b) by (nonlinear_arith)
        requires
            0 <= v <= 0x1_0000_0000_0000,
            b >= f / 2,
            f == 0x1_0000_0000,
    ;
    a_quotient_is_exact_to_a_count(value, by);
}

/// A low pass lets what does not move through at its level, and a high pass lets
/// none of it through: at rest the first's weights come to those of its answer, and
/// the second's to nothing, to within rounding. At the top of the band it is the
/// other way about.
pub proof fn a_pass_keeps_its_end_of_the_band(frequency_hz: Fixed, q: Fixed, sample_rate: u32)
    requires
        0 <= angle_of(frequency_hz, sample_rate).sin_spec().raw <= 8 * FRACTION,
        within(angle_of(frequency_hz, sample_rate).cos_spec(), 8 * FRACTION),
        0 < q.raw <= 1_000 * FRACTION,
    ensures
        ({
            let low = pass_design(frequency_hz, q, false, sample_rate);
            let high = pass_design(frequency_hz, q, true, sample_rate);
            &&& magnitude(
                low.b0.raw + low.b1.raw + low.b2.raw - (FRACTION + low.a1.raw + low.a2.raw),
            ) <= 8
            &&& magnitude(high.b0.raw + high.b1.raw + high.b2.raw) <= 8
            &&& magnitude(low.b0.raw - low.b1.raw + low.b2.raw) <= 8
            &&& magnitude(
                high.b0.raw - high.b1.raw + high.b2.raw - (FRACTION - high.a1.raw + high.a2.raw),
            ) <= 8
            &&& low.b0 == low.b2 && high.b0 == high.b2
            &&& low.a1 == high.a1 && low.a2 == high.a2
        }),
{
    let f = FRACTION as int;
    let w = angle_of(frequency_hz, sample_rate);
    let one = Fixed::of_spec(1);
    let two = Fixed::of_spec(2);
    a_ratio_is_exact_to_a_count(1, 20);
    let sin = w.sin_spec();
    let cos = w.cos_spec();
    let wide = width_of(q);
    let alpha = sin.over(two.times(wide));
    lemma_alpha(sin, wide);
    let al = alpha.raw as int;
    let c = cos.raw as int;
    let lead = one.plus(alpha);
    assert(lead.raw == f + al);
    lemma_halved(one.minus(cos));
    lemma_halved(one.plus(cos));
    let e = one.minus(cos).over(two);
    let g = one.plus(cos).over(two);
    lemma_minus_twice(cos);
    let swing = two.negated().times(cos);
    assert(swing.raw == -2 * c);
    lemma_normal(e, lead);
    lemma_normal(g, lead);
    lemma_normal(one.minus(cos), lead);
    lemma_normal(one.plus(cos).negated(), lead);
    lemma_normal(swing, lead);
    lemma_normal(one.minus(alpha), lead);
    let low = pass_design(frequency_hz, q, false, sample_rate);
    let high = pass_design(frequency_hz, q, true, sample_rate);
    let d = f + al;
    lemma_sum_low(
        d,
        al,
        c,
        e.raw as int,
        low.b0.raw as int,
        low.b1.raw as int,
        low.a1.raw as int,
        low.a2.raw as int,
    );
    let u = high.b1.raw as int;
    let t = high.a1.raw as int;
    assert(d * -u == -(d * u) && d * -t == -(d * t)) by (nonlinear_arith);
    lemma_sum_low(
        d,
        al,
        -c,
        g.raw as int,
        high.b0.raw as int,
        -u,
        -t,
        high.a2.raw as int,
    );
}

proof fn lemma_alpha(sin: Fixed, wide: Fixed)
    requires
        0 <= sin.raw <= 8 * FRACTION,
        214_748_364 <= wide.raw <= 1_000 * FRACTION,
    ensures
        0 <= sin.over(Fixed::of_spec(2).times(wide)).raw <= 100 * FRACTION,
{
    let f = FRACTION as int;
    let w = wide.raw as int;
    assert(((2 * f) * w) / f == 2 * w && 0 <= (2 * f) * w) by (nonlinear_arith)
        requires
            0 <= w,
            f == 0x1_0000_0000,
    {
        assert((2 * f) * w == (2 * w) * f);
    }
    let by = Fixed::of_spec(2).times(wide);
    assert(by.raw == 2 * w);
    let s = sin.raw as int;
    assert(s * f <= (100 * f) * (2 * w)) by (nonlinear_arith)
        requires
            0 <= s <= 8 * f,
            w >= 214_748_364,
            f == 0x1_0000_0000,
    ;
    crate::num::quotients_stay_within(sin, by, 100 * f);
}

proof fn lemma_halved(value: Fixed)
    requires
        within(value, 0x1_0000_0000_0000),
    ensures
        magnitude(2 * value.over(Fixed::of_spec(2)).raw - value.raw) <= 1,
{
    let v = magnitude(value.raw as int);
    assert((v * 0x1_0000_0000) / 0x2_0000_0000 == v / 2);
    let raw = value.raw as int;
    assert(magnitude(raw * 0x1_0000_0000) == v * 0x1_0000_0000);
}

proof fn lemma_minus_twice(value: Fixed)
    requires
        within(value, 0x1_0000_0000_0000),
    ensures
        Fixed::of_spec(2).negated().times(value).raw == -2 * value.raw,
{
    let v = magnitude(value.raw as int);
    let raw = value.raw as int;
    let n = -0x2_0000_0000 * raw;
    assert(magnitude(n) == 2 * v * 0x1_0000_0000);
    assert((2 * v * 0x1_0000_0000) / 0x1_0000_0000 == 2 * v);
}

proof fn lemma_sum_low(d: int, al: int, c: int, e: int, b0: int, b1: int, a1: int, a2: int)
    requires
        d == FRACTION + al,
        0 <= al,
        -1 <= 2 * e - (FRACTION - c) <= 1,
        -d < d * b0 - e * FRACTION < d,
        -d < d * b1 - (FRACTION - c) * FRACTION < d,
        -d < d * a1 + 2 * c * FRACTION < d,
        -d < d * a2 - (FRACTION - al) * FRACTION < d,
    ensures
        -8 <= b0 + b1 + b0 - (FRACTION + a1 + a2) <= 8,
        -8 <= b0 - b1 + b0 <= 8,
{
    let f = FRACTION as int;
    let x = 2 * b0 + b1 - f - a1 - a2;
    let y = 2 * b0 - b1;
    assert(-(6 * d) < d * x < 6 * d) by (nonlinear_arith)
        requires
            x == 2 * b0 + b1 - f - a1 - a2,
            d == f + al,
            0 <= al,
            -1 <= 2 * e - (f - c) <= 1,
            -d < d * b0 - e * f < d,
            -d < d * b1 - (f - c) * f < d,
            -d < d * a1 + 2 * c * f < d,
            -d < d * a2 - (f - al) * f < d,
            f == 0x1_0000_0000,
    {
        let k = 2 * e - (f - c);
        assert(-f <= k * f <= f);
        assert(2 * (e * f) == (f - c) * f + k * f);
        assert(d * x == 2 * (d * b0) + d * b1 - d * f - d * a1 - d * a2);
        assert(d * f == f * f + al * f);
    }
    assert(-8 <= x <= 8) by (nonlinear_arith)
        requires
            -(6 * d) < d * x < 6 * d,
            d > 0,
    ;
    assert(-(4 * d) < d * y < 4 * d) by (nonlinear_arith)
        requires
            y == 2 * b0 - b1,
            d == f + al,
            0 <= al,
            -1 <= 2 * e - (f - c) <= 1,
            -d < d * b0 - e * f < d,
            -d < d * b1 - (f - c) * f < d,
            f == 0x1_0000_0000,
    {
        let k = 2 * e - (f - c);
        assert(-f <= k * f <= f);
        assert(2 * (e * f) == (f - c) * f + k * f);
        assert(d * y == 2 * (d * b0) - d * b1);
    }
    assert(-8 <= y <= 8) by (nonlinear_arith)
        requires
            -(4 * d) < d * y < 4 * d,
            d > 0,
    ;
}

/// A bell of no gain does nothing: its weights are those of its answer.
pub proof fn a_flat_bell_is_the_identity(w: Fixed, q: Fixed)
    requires
        0 <= w.sin_spec().raw <= 8 * FRACTION,
        0 < q.raw <= 1_000 * FRACTION,
    ensures
        ({
            let bell = bell_design(w, Fixed::of_spec(1), q);
            &&& bell.b0.raw == FRACTION
            &&& bell.b1 == bell.a1
            &&& bell.b2 == bell.a2
        }),
{
    let f = FRACTION as int;
    let one = Fixed::of_spec(1);
    a_ratio_is_exact_to_a_count(1, 20);
    lemma_alpha(w.sin_spec(), width_of(q));
    let alpha = w.sin_spec().over(Fixed::of_spec(2).times(width_of(q)));
    times_one(alpha);
    let al = alpha.raw as int;
    assert((al * f) / f == al && 0 <= al * f) by (nonlinear_arith)
        requires
            0 <= al,
            f == 0x1_0000_0000,
    ;
    assert(alpha.over(one) == alpha);
    let d = f + al;
    assert((d * f) / d == f && 0 <= d * f) by (nonlinear_arith)
        requires
            d > 0,
            f == 0x1_0000_0000,
    {
        vstd::arithmetic::div_mod::lemma_div_multiples_vanish(f, d);
        assert(d * f == f * d);
    }
}

/// A resonance takes the damping from two at none to a tenth at full, in a straight
/// line.
pub proof fn a_resonance_takes_the_damping(resonance: Fixed)
    requires
        is_gain(resonance),
    ensures
        magnitude(10 * damping_of(resonance).raw - (20 * FRACTION - 19 * resonance.raw)) <= 40,
        FRACTION / 10 <= damping_of(resonance).raw <= 2 * FRACTION,
{
    let f = FRACTION as int;
    a_ratio_is_exact_to_a_count(19, 10);
    a_ratio_is_exact_to_a_count(1, 10);
    let part = ratio_of::<Fixed>(19, 10);
    let r = resonance.raw as int;
    let g = part.raw as int;
    assert(g == 8_160_437_862);
    assert(0 <= r * g <= 0x7fff_ffff_ffff_ffff * f) by (nonlinear_arith)
        requires
            0 <= r <= f,
            g == 8_160_437_862,
            f == 0x1_0000_0000,
    ;
    a_product_is_exact_to_a_count(resonance, part);
    let p = resonance.times(part).raw as int;
    assert(-20 <= 10 * p - 19 * r <= 20) by (nonlinear_arith)
        requires
            -f < f * p - r * g < f,
            10 * g == 19 * f - 4,
            0 <= r <= f,
            f == 0x1_0000_0000,
    {
        assert(f * (10 * p - 19 * r) == 10 * (f * p - r * g) - 4 * r);
        assert(-(f * 20) <= f * (10 * p - 19 * r) <= f * 20);
    }
}

/// A voice is its own up to one and a half, and no sign turns.
pub proof fn a_ceiling_is_transparent_below_its_knee(input: Fixed)
    requires
        input.raw > i64::MIN,
    ensures
        2 * magnitude(input.raw as int) <= 3 * FRACTION ==> under_ceiling(input) == input,
{
    a_ratio_is_exact_to_a_count(3, 2);
}

/// A limiter with its channels exchanged.
pub open spec fn limiter_exchanged<S, W>(limiter: Limiting<S, W>) -> Limiting<S, W> {
    Limiting {
        peak_l: limiter.peak_r,
        peak_r: limiter.peak_l,
        delay_l: limiter.delay_r,
        delay_r: limiter.delay_l,
        ..limiter
    }
}

/// The channels of a limiter are alike and share one gain: exchanged, they come out
/// exchanged, and each is within a count of the gain of the sample that leaves its
/// delay, unless the ceiling holds it.
pub proof fn a_limiter_is_one_gain(limiter: Limiting<Fixed, Fixed>, l: Fixed, r: Fixed)
    requires
        is_gain(gain_out(limiter_next(limiter, l, r).gain)),
        !limiter.backstop,
    ensures
        ({
            let gain = gain_out(limiter_next(limiter, l, r).gain).raw;
            let out = limiter_out(limiter, l, r);
            let other = limiter_out(limiter_exchanged(limiter), r, l);
            &&& magnitude(FRACTION * out.0.raw - limiter.delay_l.last().raw * gain) < FRACTION
            &&& magnitude(FRACTION * out.1.raw - limiter.delay_r.last().raw * gain) < FRACTION
            &&& other == (out.1, out.0)
        }),
{
    let gain = gain_out(limiter_next(limiter, l, r).gain);
    a_share_is_exact_to_a_count(limiter.delay_l.last(), gain);
    a_share_is_exact_to_a_count(limiter.delay_r.last(), gain);
    assert(crate::limiter::limiter_peak(limiter_exchanged(limiter), r, l)
        == crate::limiter::limiter_peak(limiter, l, r));
}

/// A released gain goes down at once and comes up by its coefficient's share, and
/// lands within a millionth.
pub proof fn a_release_rises_by_its_share(released: Fixed, least: Fixed, coeff: Fixed)
    requires
        is_gain(released),
        is_gain(least),
        is_gain(coeff),
    ensures
        ({
            let after = released_after(released, least, coeff).raw;
            &&& least.raw <= released.raw ==> after == least.raw
            &&& released.raw < least.raw ==> released.raw <= after <= least.raw
            &&& released.raw < least.raw ==> magnitude(
                FRACTION * (least.raw - after) - coeff.raw * (least.raw - released.raw),
            ) <= 4_296 * FRACTION
        }),
{
    a_ratio_is_exact_to_a_count(1, 1_000_000);
    let way = released.minus(least);
    a_share_is_exact_to_a_count(way, coeff);
    assert(way.raw * coeff.raw == -(coeff.raw * (least.raw - released.raw))) by (nonlinear_arith)
        requires
            way.raw == released.raw - least.raw,
    ;
}

/// A control of the limiter takes its value where that lies in its range, and the
/// nearer end where it does not: the ceiling from -24 dB to nothing, the release
/// from 1 ms to 500, the gain to 24 dB. The ceiling and the gain move their lags'
/// targets alone.
pub proof fn a_limiter_takes_its_controls<W>(limiter: Limiting<Fixed, W>, id: u32, value: Fixed)
    ensures
        ({
            let after = limiter_taking(limiter, id, value);
            let now = after.params;
            let v = value.raw as int;
            let f = FRACTION as int;
            &&& id == 0 ==> held(v, -24 * f, 0, now.ceiling_db) && after == (Limiting {
                params: LimiterParams { ceiling_db: now.ceiling_db, ..limiter.params },
                ceiling_db: Smoothed { target: now.ceiling_db, ..limiter.ceiling_db },
                ..limiter
            })
            &&& id == 1 ==> held(v, f, 500 * f, now.release_ms) && after == (Limiting {
                params: LimiterParams { release_ms: now.release_ms, ..limiter.params },
                gain: GainState {
                    release_coeff: time_coeff_of(now.release_ms, limiter.sample_rate),
                    ..limiter.gain
                },
                ..limiter
            })
            &&& id == 2 ==> held(v, 0, 24 * f, now.gain_db) && after == (Limiting {
                params: LimiterParams { gain_db: now.gain_db, ..limiter.params },
                gain_db: Smoothed { target: now.gain_db, ..limiter.gain_db },
                ..limiter
            })
            &&& id > 2 ==> after == limiter
        }),
{
}

} // verus!
