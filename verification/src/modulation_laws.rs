//! What the delay modes of the modulation processor do, in counts.

use vstd::prelude::*;

use crate::curves::Curves;
use crate::delayline::{read_at, MIN_LINE_FRAMES};
use crate::lfo::{lfo_after, lfo_at, lfo_next, lfo_step, Lfo};
use crate::modulation::{
    delay_times, frames_of, mod_frame, mod_taking, resonance_trim_of, the_trim_caps_the_resonance,
    wet_of, Modulating, ModulationMode, ModulationParams,
};
use crate::num::{
    a_blend_stays_within, a_product_is_exact_to_a_count, a_ratio_is_exact_to_a_count,
    a_share_is_exact_to_a_count, held, is_gain, magnitude, quotient, ratio_of, within, Fixed,
    Sample, FRACTION,
};
use crate::smooth::{smoothed_next, Smoothed};

verus! {

/// A time that an oscillator swings about a base, all in counts.
pub open spec fn swung(base: int, swing: int, lfo: Fixed) -> Fixed {
    Fixed { raw: (base + quotient(swing * lfo.raw, FRACTION as int)) as i64 }
}

/// What a tap reads of one channel of a line.
#[verifier::opaque]
pub open spec fn tapped<S: Sample>(past: Seq<S>, offset: S) -> S {
    read_at(past, offset)
}

/// A frame and what comes of it.
#[verifier::opaque]
pub open spec fn rendered<S: Curves>(m: Modulating<S>, l: S, r: S) -> (Modulating<S>, (S, S)) {
    mod_frame(m, l, r)
}

proof fn lemma_taps<S: Sample>(
    m: Modulating<S>,
    mode: ModulationMode,
    depth: S,
    lfo_l: S,
    lfo_r: S,
    color: S,
)
    ensures
        ({
            let (base, swing) = delay_times(mode, depth, color);
            let a = frames_of(m, base.plus(swing.times(lfo_l)));
            let b = frames_of(m, base.plus(swing.times(lfo_r)));
            let wet = wet_of(m, mode, depth, lfo_l, lfo_r, color);
            &&& mode == ModulationMode::Chorus || mode == ModulationMode::Flange ==> wet == (
                tapped(m.line.l, a),
                tapped(m.line.r, b),
            )
            &&& mode == ModulationMode::Ensemble ==> ({
                let c = frames_of(m, base.plus(swing.times(ratio_of(47, 100))));
                wet == (
                    tapped(m.line.l, a).plus(tapped(m.line.l, b)).plus(tapped(m.line.l, c)).over(
                        S::of_spec(3),
                    ),
                    tapped(m.line.r, b).plus(tapped(m.line.r, a)).plus(tapped(m.line.r, c)).over(
                        S::of_spec(3),
                    ),
                )
            })
            &&& mode == ModulationMode::Adt ==> ({
                let c = frames_of(m, base.times(ratio_of(137, 100)));
                wet == (
                    tapped(m.line.l, a).plus(tapped(m.line.l, c)).times(ratio_of(1, 2)),
                    tapped(m.line.r, b).plus(tapped(m.line.r, c)).times(ratio_of(1, 2)),
                )
            })
        }),
{
    reveal(tapped);
}

/// What a delay mode hears, as a whole.
#[verifier::opaque]
pub open spec fn hears<S: Sample>(
    m: Modulating<S>,
    mode: ModulationMode,
    depth: S,
    lfo_l: S,
    lfo_r: S,
    color: S,
) -> (S, S) {
    wet_of(m, mode, depth, lfo_l, lfo_r, color)
}

proof fn lemma_heard_taps<S: Sample>(
    m: Modulating<S>,
    mode: ModulationMode,
    depth: S,
    lfo_l: S,
    lfo_r: S,
    color: S,
)
    ensures
        ({
            let (base, swing) = delay_times(mode, depth, color);
            let a = frames_of(m, base.plus(swing.times(lfo_l)));
            let b = frames_of(m, base.plus(swing.times(lfo_r)));
            let wet = hears(m, mode, depth, lfo_l, lfo_r, color);
            &&& mode == ModulationMode::Chorus || mode == ModulationMode::Flange ==> wet == (
                tapped(m.line.l, a),
                tapped(m.line.r, b),
            )
            &&& mode == ModulationMode::Ensemble ==> ({
                let c = frames_of(m, base.plus(swing.times(ratio_of(47, 100))));
                wet == (
                    tapped(m.line.l, a).plus(tapped(m.line.l, b)).plus(tapped(m.line.l, c)).over(
                        S::of_spec(3),
                    ),
                    tapped(m.line.r, b).plus(tapped(m.line.r, a)).plus(tapped(m.line.r, c)).over(
                        S::of_spec(3),
                    ),
                )
            })
            &&& mode == ModulationMode::Adt ==> ({
                let c = frames_of(m, base.times(ratio_of(137, 100)));
                wet == (
                    tapped(m.line.l, a).plus(tapped(m.line.l, c)).times(ratio_of(1, 2)),
                    tapped(m.line.r, b).plus(tapped(m.line.r, c)).times(ratio_of(1, 2)),
                )
            })
        }),
{
    reveal(hears);
    lemma_taps(m, mode, depth, lfo_l, lfo_r, color);
}

/// A swung time moves with the oscillator, and the further the larger its swing:
/// an eighth of a millisecond of swing and more tells any two values of the
/// oscillator apart that are sixteen counts apart.
pub proof fn a_swing_moves_with_its_oscillator(base: int, swing: int, more: int, a: Fixed, b: Fixed)
    requires
        0 <= base <= 100 * FRACTION,
        FRACTION / 8 <= swing <= more <= 100 * FRACTION,
        within(a, 8 * FRACTION),
        within(b, 8 * FRACTION),
        a.raw + 16 <= b.raw,
    ensures
        swung(base, swing, a).raw < swung(base, swing, b).raw,
        0 <= a.raw ==> swung(base, swing, b).raw <= swung(base, more, b).raw,
        b.raw <= 0 ==> swung(base, more, a).raw <= swung(base, swing, a).raw,
        magnitude(FRACTION * (swung(base, swing, a).raw - base) - swing * a.raw) < FRACTION,
{
    lemma_swing(swing, a.raw as int);
    lemma_swing(swing, b.raw as int);
    lemma_swing(more, a.raw as int);
    lemma_swing(more, b.raw as int);
    let f = FRACTION as int;
    let p = quotient(swing * a.raw, f);
    let q = quotient(swing * b.raw, f);
    assert(swing * b.raw >= swing * a.raw + swing * 16) by (nonlinear_arith)
        requires
            a.raw + 16 <= b.raw,
            0 <= swing,
    ;
    assert(f * q > f * p);
    assert(0 <= a.raw ==> swing * b.raw <= more * b.raw) by (nonlinear_arith)
        requires
            swing <= more,
            a.raw + 16 <= b.raw,
    ;
    assert(b.raw <= 0 ==> more * a.raw <= swing * a.raw) by (nonlinear_arith)
        requires
            swing <= more,
            a.raw + 16 <= b.raw,
    ;
    lemma_quotients(swing * b.raw, more * b.raw, f);
    lemma_quotients(more * a.raw, swing * a.raw, f);
}

proof fn lemma_quotients(a: int, b: int, d: int)
    requires
        0 < d,
    ensures
        a <= b ==> quotient(a, d) <= quotient(b, d),
{
    if a <= b {
        let x = magnitude(a);
        let y = magnitude(b);
        let p = x / d;
        let q = y / d;
        assert(0 <= p && 0 <= q && (x <= y ==> p <= q) && (y <= x ==> q <= p)) by (nonlinear_arith)
            requires
                p == x / d,
                q == y / d,
                0 <= x,
                0 <= y,
                0 < d,
        ;
    }
}

proof fn lemma_swing(swing: int, lfo: int)
    requires
        0 <= swing <= 100 * FRACTION,
        -8 * FRACTION <= lfo <= 8 * FRACTION,
    ensures
        ({
            let p = quotient(swing * lfo, FRACTION as int);
            &&& -FRACTION < FRACTION * p - swing * lfo < FRACTION
            &&& lfo >= 0 ==> FRACTION * p <= swing * lfo && 0 <= p
            &&& lfo <= 0 ==> FRACTION * p >= swing * lfo && p <= 0
            &&& -800 * FRACTION <= p <= 800 * FRACTION
        }),
{
    let f = FRACTION as int;
    let n = magnitude(swing * lfo);
    let q = n / f;
    assert(n <= (800 * f) * f && (lfo >= 0 ==> swing * lfo >= 0) && (lfo <= 0 ==> swing * lfo <= 0))
        by (nonlinear_arith)
        requires
            n == (if swing * lfo < 0 { -(swing * lfo) } else { swing * lfo }),
            0 <= swing <= 100 * f,
            -8 * f <= lfo <= 8 * f,
    ;
    assert(q * f <= n < q * f + f && 0 <= q <= 800 * f) by (nonlinear_arith)
        requires
            q == n / f,
            0 <= n <= (800 * f) * f,
            f == 0x1_0000_0000,
    ;
    assert(0int / f == 0);
}

/// An offset is a thousandth of its milliseconds times the rate, rounded down,
/// and held between one sample and the line's reach.
pub proof fn an_offset_is_its_milliseconds(m: Modulating<Fixed>, ms: Fixed)
    requires
        0 <= ms.raw <= 1_000 * FRACTION,
        m.sample_rate <= 0x4_0000,
        MIN_LINE_FRAMES <= m.line.l.len() <= 0x4000_0000,
    ensures
        ({
            let offset = frames_of(m, ms).raw;
            let most = (m.line.l.len() - 3) * FRACTION;
            &&& FRACTION <= offset <= most
            &&& offset < most ==> ms.raw * m.sample_rate < 1_000 * (offset + 1)
            &&& offset > FRACTION ==> 1_000 * offset <= ms.raw * m.sample_rate
        }),
{
    let f = FRACTION as int;
    let t = ms.raw as int;
    let n = m.sample_rate as int;
    let w = t * n;
    assert(0 <= w <= 0x1000_0000_0000_0000 && (t * (n * f)) / f == w && 0 <= t * (n * f))
        by (nonlinear_arith)
        requires
            w == t * n,
            0 <= t <= 1_000 * f,
            0 <= n <= 0x4_0000,
            f == 0x1_0000_0000,
    {
        assert(t * (n * f) == (t * n) * f);
    }
    let q = (w * f) / (1_000 * f);
    assert(1_000 * q <= w < 1_000 * q + 1_000 && 0 <= q && 0 <= w * f) by (nonlinear_arith)
        requires
            q == (w * f) / (1_000 * f),
            0 <= w,
            f == 0x1_0000_0000,
    ;
}

proof fn lemma_scaled(count: nat, value: Fixed)
    requires
        count <= 100,
        is_gain(value),
    ensures
        Fixed::of_spec(count).times(value).raw == count * value.raw,
{
    let f = FRACTION as int;
    let c = count as int;
    let v = value.raw as int;
    assert(((c * f) * v) / f == c * v && 0 <= (c * f) * v && 0 <= c * v <= 100 * f)
        by (nonlinear_arith)
        requires
            0 <= c <= 100,
            0 <= v <= f,
            f == 0x1_0000_0000,
    {
        assert((c * f) * v == (c * v) * f);
    }
}

proof fn lemma_time(base: Fixed, swing: Fixed, lfo: Fixed)
    requires
        0 <= base.raw <= 100 * FRACTION,
        0 <= swing.raw <= 100 * FRACTION,
        within(lfo, 8 * FRACTION),
    ensures
        base.plus(swing.times(lfo)) == swung(base.raw as int, swing.raw as int, lfo),
{
    lemma_swing(swing.raw as int, lfo.raw as int);
}

/// A chorus hears each channel of its line at a base of 8 ms and 18 of color, swung
/// by half a millisecond and 10 of depth: the left with the one oscillator, the
/// right with the other.
pub proof fn a_chorus_swings_about_its_base(
    m: Modulating<Fixed>,
    depth: Fixed,
    lfo_l: Fixed,
    lfo_r: Fixed,
    color: Fixed,
)
    requires
        is_gain(depth),
        is_gain(color),
        within(lfo_l, 8 * FRACTION),
        within(lfo_r, 8 * FRACTION),
    ensures
        ({
            let base = 8 * FRACTION + 18 * color.raw;
            let swing = FRACTION / 2 + 10 * depth.raw;
            hears(m, ModulationMode::Chorus, depth, lfo_l, lfo_r, color) == (
                tapped(m.line.l, frames_of(m, swung(base, swing, lfo_l))),
                tapped(m.line.r, frames_of(m, swung(base, swing, lfo_r))),
            )
        }),
{
    lemma_heard_taps(m, ModulationMode::Chorus, depth, lfo_l, lfo_r, color);
    lemma_scaled(18, color);
    lemma_scaled(10, depth);
    a_ratio_is_exact_to_a_count(1, 2);
    let base = Fixed::of_spec(8).plus(Fixed::of_spec(18).times(color));
    let swing = ratio_of::<Fixed>(1, 2).plus(Fixed::of_spec(10).times(depth));
    lemma_time(base, swing, lfo_l);
    lemma_time(base, swing, lfo_r);
}

/// A flange does the same nearer by: 0.7 ms and 5 of color, swung by 0.15 and 5.5
/// of depth.
pub proof fn a_flange_swings_about_its_base(
    m: Modulating<Fixed>,
    depth: Fixed,
    lfo_l: Fixed,
    lfo_r: Fixed,
    color: Fixed,
)
    requires
        is_gain(depth),
        is_gain(color),
        within(lfo_l, 8 * FRACTION),
        within(lfo_r, 8 * FRACTION),
    ensures
        ({
            let base = 7 * FRACTION / 10 + 5 * color.raw;
            let swing = 15 * FRACTION / 100 + 11 * depth.raw / 2;
            hears(m, ModulationMode::Flange, depth, lfo_l, lfo_r, color) == (
                tapped(m.line.l, frames_of(m, swung(base, swing, lfo_l))),
                tapped(m.line.r, frames_of(m, swung(base, swing, lfo_r))),
            )
        }),
{
    lemma_heard_taps(m, ModulationMode::Flange, depth, lfo_l, lfo_r, color);
    lemma_scaled(5, color);
    a_ratio_is_exact_to_a_count(7, 10);
    a_ratio_is_exact_to_a_count(15, 100);
    a_ratio_is_exact_to_a_count(55, 10);
    let d = depth.raw as int;
    let f = FRACTION as int;
    assert(ratio_of::<Fixed>(55, 10).raw == 23_622_320_128);
    assert((23_622_320_128 * d) / 0x1_0000_0000 == 11 * d / 2);
    assert(ratio_of::<Fixed>(55, 10).times(depth).raw == 11 * d / 2);
    let base = ratio_of::<Fixed>(7, 10).plus(Fixed::of_spec(5).times(color));
    let swing = ratio_of::<Fixed>(15, 100).plus(ratio_of::<Fixed>(55, 10).times(depth));
    lemma_time(base, swing, lfo_l);
    lemma_time(base, swing, lfo_r);
}

/// An ensemble is the mean of three taps of each line, about 6 ms and 14 of color,
/// swung by 1 and 8 of depth: one with each oscillator, and one that stands at 47
/// hundredths of the swing.
pub proof fn an_ensemble_is_the_mean_of_three(
    m: Modulating<Fixed>,
    depth: Fixed,
    lfo_l: Fixed,
    lfo_r: Fixed,
    color: Fixed,
    bound: int,
)
    requires
        is_gain(depth),
        is_gain(color),
        within(lfo_l, 8 * FRACTION),
        within(lfo_r, 8 * FRACTION),
        0 <= bound <= 0x100_0000_0000_0000,
        forall|offset: Fixed| within(#[trigger] tapped(m.line.l, offset), bound),
        forall|offset: Fixed| within(#[trigger] tapped(m.line.r, offset), bound),
    ensures
        ({
            let base = 6 * FRACTION + 14 * color.raw;
            let swing = FRACTION + 8 * depth.raw;
            let a = frames_of(m, swung(base, swing, lfo_l));
            let b = frames_of(m, swung(base, swing, lfo_r));
            let c = frames_of(m, swung(base, swing, ratio_of(47, 100)));
            let wet = hears(m, ModulationMode::Ensemble, depth, lfo_l, lfo_r, color);
            &&& magnitude(
                3 * wet.0.raw - (tapped(m.line.l, a).raw + tapped(m.line.l, b).raw + tapped(
                    m.line.l,
                    c,
                ).raw),
            ) < 3
            &&& magnitude(
                3 * wet.1.raw - (tapped(m.line.r, a).raw + tapped(m.line.r, b).raw + tapped(
                    m.line.r,
                    c,
                ).raw),
            ) < 3
        }),
{
    lemma_heard_taps(m, ModulationMode::Ensemble, depth, lfo_l, lfo_r, color);
    lemma_scaled(14, color);
    lemma_scaled(8, depth);
    a_ratio_is_exact_to_a_count(47, 100);
    let base = Fixed::of_spec(6).plus(Fixed::of_spec(14).times(color));
    let swing = Fixed::of_spec(1).plus(Fixed::of_spec(8).times(depth));
    lemma_time(base, swing, lfo_l);
    lemma_time(base, swing, lfo_r);
    lemma_time(base, swing, ratio_of(47, 100));
    let a = frames_of(m, base.plus(swing.times(lfo_l)));
    let b = frames_of(m, base.plus(swing.times(lfo_r)));
    let c = frames_of(m, base.plus(swing.times(ratio_of(47, 100))));
    lemma_third_of(tapped(m.line.l, a).plus(tapped(m.line.l, b)).plus(tapped(m.line.l, c)));
    lemma_third_of(tapped(m.line.r, b).plus(tapped(m.line.r, a)).plus(tapped(m.line.r, c)));
}

proof fn lemma_third_of(sum: Fixed)
    requires
        within(sum, 0x1000_0000_0000_0000),
    ensures
        magnitude(3 * sum.over(Fixed::of_spec(3)).raw - sum.raw) < 3,
{
    let f = FRACTION as int;
    let s = magnitude(sum.raw as int);
    let q = (s * f) / (3 * f);
    assert(3 * q <= s < 3 * q + 3 && 0 <= q && 0 <= s * f) by (nonlinear_arith)
        requires
            q == (s * f) / (3 * f),
            0 <= s,
            f == 0x1_0000_0000,
    ;
    let raw = sum.raw as int;
    assert(raw < 0 ==> raw * f == -(s * f) && raw * f < 0) by (nonlinear_arith)
        requires
            raw < 0 ==> s == -raw,
            f == 0x1_0000_0000,
    ;
}

/// A doubling is the mean of two taps of each line, about 14 ms and 28 of color:
/// one swung by 0.08 and 2.5 of depth, and one that stands 37 hundredths further
/// back than the base.
pub proof fn a_doubling_is_the_mean_of_two(
    m: Modulating<Fixed>,
    depth: Fixed,
    lfo_l: Fixed,
    lfo_r: Fixed,
    color: Fixed,
    bound: int,
)
    requires
        is_gain(depth),
        is_gain(color),
        within(lfo_l, 8 * FRACTION),
        within(lfo_r, 8 * FRACTION),
        0 <= bound <= 0x100_0000_0000_0000,
        forall|offset: Fixed| within(#[trigger] tapped(m.line.l, offset), bound),
        forall|offset: Fixed| within(#[trigger] tapped(m.line.r, offset), bound),
    ensures
        ({
            let base = 14 * FRACTION + 28 * color.raw;
            let swing = 8 * FRACTION / 100 + 5 * depth.raw / 2;
            let a = frames_of(m, swung(base, swing, lfo_l));
            let b = frames_of(m, swung(base, swing, lfo_r));
            let c = frames_of(m, swung(0, base, ratio_of(137, 100)));
            let wet = hears(m, ModulationMode::Adt, depth, lfo_l, lfo_r, color);
            &&& magnitude(2 * wet.0.raw - (tapped(m.line.l, a).raw + tapped(m.line.l, c).raw)) < 2
            &&& magnitude(2 * wet.1.raw - (tapped(m.line.r, b).raw + tapped(m.line.r, c).raw)) < 2
        }),
{
    lemma_heard_taps(m, ModulationMode::Adt, depth, lfo_l, lfo_r, color);
    lemma_scaled(28, color);
    a_ratio_is_exact_to_a_count(8, 100);
    a_ratio_is_exact_to_a_count(25, 10);
    a_ratio_is_exact_to_a_count(137, 100);
    a_ratio_is_exact_to_a_count(1, 2);
    assert(ratio_of::<Fixed>(1, 2).raw == 0x8000_0000);
    let d = depth.raw as int;
    let f = FRACTION as int;
    assert(ratio_of::<Fixed>(25, 10).raw == 10_737_418_240);
    assert((10_737_418_240 * d) / 0x1_0000_0000 == 5 * d / 2);
    assert(ratio_of::<Fixed>(25, 10).times(depth).raw == 5 * d / 2);
    let base = Fixed::of_spec(14).plus(Fixed::of_spec(28).times(color));
    let swing = ratio_of::<Fixed>(8, 100).plus(ratio_of::<Fixed>(25, 10).times(depth));
    lemma_time(base, swing, lfo_l);
    lemma_time(base, swing, lfo_r);
    lemma_swing(base.raw as int, ratio_of::<Fixed>(137, 100).raw as int);
    let a = frames_of(m, base.plus(swing.times(lfo_l)));
    let b = frames_of(m, base.plus(swing.times(lfo_r)));
    let c = frames_of(m, base.times(ratio_of(137, 100)));
    assert(within(tapped(m.line.l, a), bound) && within(tapped(m.line.l, c), bound));
    assert(within(tapped(m.line.r, b), bound) && within(tapped(m.line.r, c), bound));
    lemma_half_of(tapped(m.line.l, a).plus(tapped(m.line.l, c)));
    lemma_half_of(tapped(m.line.r, b).plus(tapped(m.line.r, c)));
}

proof fn lemma_half_of(sum: Fixed)
    ensures
        magnitude(2 * sum.times(ratio_of(1, 2)).raw - sum.raw) < 2,
{
    a_ratio_is_exact_to_a_count(1, 2);
    assert(ratio_of::<Fixed>(1, 2).raw == 0x8000_0000);
    a_share_is_exact_to_a_count(sum, ratio_of(1, 2));
    let f = FRACTION as int;
    let h = sum.times(ratio_of(1, 2)).raw as int;
    let g = ratio_of::<Fixed>(1, 2).raw as int;
    let s = sum.raw as int;
    assert(-2 < 2 * h - s < 2) by (nonlinear_arith)
        requires
            -f < f * h - s * g < f,
            g == 0x8000_0000,
            f == 0x1_0000_0000,
    ;
}

/// A frame of a delay mode: what it hears is what the mode hears of the line as it
/// was, the left at the oscillator and the right up to a quarter turn on; that is
/// what it feeds back, and what it puts out moves to the trimmed sound by the tone
/// filter's share. The oscillator then moves one sample.
pub proof fn a_delay_mode_renders<S: Curves>(m: Modulating<S>, l: S, r: S)
    requires
        m.params.mode != ModulationMode::Phaser,
    ensures
        ({
            let (after, out) = rendered(m, l, r);
            &&& (after.feedback_l, after.feedback_r) == hears(
                m,
                m.params.mode,
                after.depth.value,
                lfo_at(m.lfo, S::of_spec(0)),
                lfo_at(m.lfo, after.spread.value.times(ratio_of(1, 4))),
                after.color.value,
            )
            &&& after.lfo == lfo_after(m.lfo, 1, m.params.rate_hz, m.sample_rate)
            &&& out == (after.tone_l.state, after.tone_r.state)
            &&& after.tone_l.coeff == after.tone_r.coeff || (after.tone_l.coeff == m.tone_l.coeff
                && after.tone_r.coeff == m.tone_r.coeff)
            &&& after.params == m.params
            &&& after.sample_rate == m.sample_rate
            &&& after.depth == smoothed_next(m.depth)
            &&& after.color == smoothed_next(m.color)
            &&& after.spread == smoothed_next(m.spread)
            &&& after.feedback == smoothed_next(m.feedback)
            &&& after.tone == smoothed_next(m.tone)
        }),
{
    reveal(rendered);
    reveal(hears);
}

/// What a delay mode writes and puts out: over the input, the feedback of what it
/// hears of each channel, with up to 35 hundredths taken from the other; and the
/// tone filter's share of the way to what the trim leaves of it.
pub proof fn a_delay_mode_feeds_back(m: Modulating<Fixed>, l: Fixed, r: Fixed, bound: int)
    requires
        m.params.mode != ModulationMode::Phaser,
        m.line.l.len() > 0,
        m.line.r.len() > 0,
        0 <= bound <= 0x100_0000_0000_0000,
        within(rendered(m, l, r).0.feedback_l, bound),
        within(rendered(m, l, r).0.feedback_r, bound),
        within(l, bound),
        within(r, bound),
        within(m.tone_l.state, bound),
        within(m.tone_r.state, bound),
        is_gain(rendered(m, l, r).0.spread.value),
        within(rendered(m, l, r).0.feedback.value, FRACTION as int),
        is_gain(rendered(m, l, r).0.tone_l.coeff),
        is_gain(rendered(m, l, r).0.tone_r.coeff),
    ensures
        ({
            let (after, out) = rendered(m, l, r);
            let cross = after.spread.value.times(ratio_of(35, 100)).raw as int;
            let feedback = after.feedback.value.raw as int;
            let left = if 4 * magnitude(feedback) <= 3 * FRACTION {
                FRACTION as int
            } else {
                4 * (FRACTION - magnitude(feedback))
            };
            let a = after.feedback_l.raw as int;
            let b = after.feedback_r.raw as int;
            &&& magnitude(100 * cross - 35 * after.spread.value.raw) <= 200
            &&& echoed(after.line.l[0].raw - l.raw, a, b, cross, feedback)
            &&& echoed(after.line.r[0].raw - r.raw, b, a, cross, feedback)
            &&& filtered(out.0.raw as int, m.tone_l.state.raw as int, a, left, after.tone_l.coeff)
            &&& filtered(out.1.raw as int, m.tone_r.state.raw as int, b, left, after.tone_r.coeff)
        }),
{
    lemma_written(m, l, r);
    let f = FRACTION as int;
    let after = rendered(m, l, r).0;
    let spread = after.spread.value;
    let feedback = after.feedback.value;
    a_ratio_is_exact_to_a_count(35, 100);
    let part = ratio_of::<Fixed>(35, 100);
    a_share_is_exact_to_a_count(spread, part);
    let cross = spread.times(part);
    let x = cross.raw as int;
    let s = spread.raw as int;
    let g = part.raw as int;
    assert(-200 <= 100 * x - 35 * s <= 200) by (nonlinear_arith)
        requires
            -f < f * x - s * g < f,
            100 * g <= 35 * f < 100 * g + 100,
            0 <= s <= f,
            f == 0x1_0000_0000,
    {
        let e = f * x - s * g;
        let y = 35 * f - 100 * g;
        assert(f * (100 * x - 35 * s) == 100 * e - s * y);
        assert(0 <= s * y <= f * 100);
        assert(-(f * 200) <= f * (100 * x - 35 * s) <= f * 200);
    }
    the_trim_caps_the_resonance(feedback);
    lemma_trim(feedback);
    let a = after.feedback_l;
    let b = after.feedback_r;
    lemma_echo(feedback, a, b, cross, bound);
    lemma_echo(feedback, b, a, cross, bound);
    let trim = resonance_trim_of(feedback);
    lemma_filter(m.tone_l.state, a, trim, after.tone_l.coeff, bound);
    lemma_filter(m.tone_r.state, b, trim, after.tone_r.coeff, bound);
}

proof fn lemma_written<S: Curves>(m: Modulating<S>, l: S, r: S)
    requires
        m.params.mode != ModulationMode::Phaser,
        m.line.l.len() > 0,
        m.line.r.len() > 0,
    ensures
        ({
            let (after, out) = rendered(m, l, r);
            let cross = after.spread.value.times(ratio_of(35, 100));
            let rest = S::of_spec(1).minus(cross);
            let feedback = after.feedback.value;
            let trim = resonance_trim_of(feedback);
            let a = after.feedback_l;
            let b = after.feedback_r;
            &&& after.line.l[0] == l.plus(feedback.times(a.times(rest).plus(b.times(cross))))
            &&& after.line.r[0] == r.plus(feedback.times(b.times(rest).plus(a.times(cross))))
            &&& out.0 == m.tone_l.state.plus(
                a.times(trim).minus(m.tone_l.state).times(after.tone_l.coeff),
            )
            &&& out.1 == m.tone_r.state.plus(
                b.times(trim).minus(m.tone_r.state).times(after.tone_r.coeff),
            )
        }),
{
    reveal(rendered);
}

proof fn lemma_trim(feedback: Fixed)
    requires
        within(feedback, FRACTION as int),
    ensures
        resonance_trim_of(feedback).raw == (if 4 * magnitude(feedback.raw as int) <= 3 * FRACTION {
            FRACTION as int
        } else {
            4 * (FRACTION - magnitude(feedback.raw as int))
        }),
{
    let f = FRACTION as int;
    let left = f - magnitude(feedback.raw as int);
    assert((4 * f) * left / f == 4 * left && 0 <= (4 * f) * left) by (nonlinear_arith)
        requires
            f == 0x1_0000_0000,
            0 <= left,
    ;
    assert(Fixed::of_spec(4).times(Fixed::of_spec(1).minus(feedback.abs_spec())).raw == 4 * left);
}

/// Whether what is written over the input is the feedback of a channel and what
/// the cross brings it from the other, to within four counts.
pub open spec fn echoed(back: int, own: int, other: int, cross: int, feedback: int) -> bool {
    magnitude(
        FRACTION * FRACTION * back - feedback * (own * (FRACTION - cross) + other * cross),
    ) <= 4 * FRACTION * FRACTION
}

proof fn lemma_echo(feedback: Fixed, own: Fixed, other: Fixed, cross: Fixed, bound: int)
    requires
        within(feedback, FRACTION as int),
        is_gain(cross),
        within(own, bound),
        within(other, bound),
        0 <= bound <= 0x100_0000_0000_0000,
    ensures
        ({
            let mixed = own.times(Fixed::of_spec(1).minus(cross)).plus(other.times(cross));
            &&& echoed(
                feedback.times(mixed).raw as int,
                own.raw as int,
                other.raw as int,
                cross.raw as int,
                feedback.raw as int,
            )
            &&& within(feedback.times(mixed), 0x100_0000_0000_0000)
        }),
{
    let f = FRACTION as int;
    let rest = Fixed::of_spec(1).minus(cross);
    a_share_is_exact_to_a_count(own, rest);
    a_share_is_exact_to_a_count(other, cross);
    a_blend_stays_within(own, other, cross, bound);
    let sum = own.times(rest).plus(other.times(cross));
    let k = feedback.raw as int;
    let p = own.times(rest).raw as int;
    let q = other.times(cross).raw as int;
    let s = sum.raw as int;
    assert(-(0x100_0000_0000_0000 * f) <= k * s <= 0x100_0000_0000_0000 * f) by (nonlinear_arith)
        requires
            -f <= k <= f,
            -0x100_0000_0000_0000 <= s <= 0x100_0000_0000_0000,
            f == 0x1_0000_0000,
    ;
    a_product_is_exact_to_a_count(feedback, sum);
    let b = feedback.times(sum).raw as int;
    let w = own.raw * (f - cross.raw) + other.raw * cross.raw;
    let e = f * f * b - k * w;
    assert(-(4 * f * f) <= e <= 4 * f * f) by (nonlinear_arith)
        requires
            e == f * f * b - k * w,
            -f < f * b - k * s < f,
            s == p + q,
            -(2 * f) < f * (p + q) - w < 2 * f,
            -f <= k <= f,
            f == 0x1_0000_0000,
    {
        let x = f * b - k * s;
        let y = f * s - w;
        assert(e == f * x + k * y) by {
            assert(f * (f * b - k * s) == f * f * b - k * (f * s));
            assert(k * (f * s - w) == k * (f * s) - k * w);
        }
        assert(-(f * f) <= f * x <= f * f);
        assert(-(2 * f * f) <= k * y <= 2 * f * f);
    }
}

/// Whether a filter moved from a state by its share of the way to what a gain
/// leaves of an input, to within three counts.
pub open spec fn filtered(out: int, state: int, input: int, gain: int, coeff: Fixed) -> bool {
    magnitude(
        FRACTION * FRACTION * (out - state) - coeff.raw * (input * gain - state * FRACTION),
    ) <= 3 * FRACTION * FRACTION
}

proof fn lemma_filter(state: Fixed, input: Fixed, gain: Fixed, coeff: Fixed, bound: int)
    requires
        is_gain(gain),
        is_gain(coeff),
        within(input, bound),
        within(state, bound),
        0 <= bound <= 0x100_0000_0000_0000,
    ensures
        filtered(
            state.plus(input.times(gain).minus(state).times(coeff)).raw as int,
            state.raw as int,
            input.raw as int,
            gain.raw as int,
            coeff,
        ),
{
    let f = FRACTION as int;
    a_share_is_exact_to_a_count(input, gain);
    let x = input.times(gain);
    let way = x.minus(state);
    a_share_is_exact_to_a_count(way, coeff);
    let c = coeff.raw as int;
    let d = way.times(coeff).raw as int;
    let v = x.raw as int;
    let s = state.raw as int;
    let t = input.raw * gain.raw;
    let e = f * f * d - c * (t - s * f);
    assert(-(3 * f * f) <= e <= 3 * f * f) by (nonlinear_arith)
        requires
            e == f * f * d - c * (t - s * f),
            -f < f * d - (v - s) * c < f,
            -f < f * v - t < f,
            0 <= c <= f,
            f == 0x1_0000_0000,
    {
        let p = f * d - (v - s) * c;
        let q = f * v - t;
        assert(e == f * p + c * q) by {
            assert(f * (f * d - (v - s) * c) == f * f * d - c * (f * v - s * f));
            assert(c * (f * v - t) == c * (f * v) - c * t);
            assert(c * (t - s * f) == c * t - c * (s * f));
            assert(c * (f * v - s * f) == c * (f * v) - c * (s * f));
        }
        assert(-(f * f) <= f * p <= f * f);
        assert(-(f * f) <= c * q <= f * f);
    }
}

/// An oscillator turns by its rate over the sample rate each sample, and keeps to
/// one turn.
pub proof fn an_oscillator_turns_at_its_rate(lfo: Lfo<Fixed>, rate_hz: Fixed, sample_rate: u32)
    requires
        0 <= lfo.phase.raw < FRACTION,
        1 <= sample_rate <= 0x4_0000,
        0 <= rate_hz.raw,
        4 * rate_hz.raw <= sample_rate * FRACTION,
    ensures
        ({
            let after = lfo_next(lfo, rate_hz, sample_rate).phase.raw;
            let step = rate_hz.raw as int / sample_rate as int;
            &&& 0 <= after < FRACTION
            &&& after == lfo.phase.raw + step || after == lfo.phase.raw + step - FRACTION
        }),
{
    let f = FRACTION as int;
    let n = sample_rate as int;
    let h = rate_hz.raw as int;
    a_ratio_is_exact_to_a_count(1, 4);
    let quarter = ratio_of::<Fixed>(1, 4);
    assert(quarter.raw == 0x4000_0000);
    assert(((n * 0x1_0000_0000) * 0x4000_0000) / 0x1_0000_0000 == n * 0x4000_0000);
    let rate = Fixed::of_spec(sample_rate as nat);
    assert(rate.times(quarter).raw == n * 0x4000_0000);
    let q = (h * f) / (n * f);
    assert(q == h / n && 0 <= q && 0 <= h * f && 4 * q <= f) by (nonlinear_arith)
        requires
            q == (h * f) / (n * f),
            0 <= h,
            4 * h <= n * f,
            1 <= n,
            f == 0x1_0000_0000,
    {
        vstd::arithmetic::div_mod::lemma_div_denominator(h * f, f, n);
        vstd::arithmetic::div_mod::lemma_div_multiples_vanish(h, f);
        assert(h * f == f * h);
        assert(n * f == f * n);
        assert(n * (h / n) <= h);
        if 4 * q > f {
            assert(4 * (n * q) == n * (4 * q));
            assert(n * (4 * q) >= n * (f + 1));
        }
    }
    assert(lfo_step(rate_hz, sample_rate).raw == q);
}

/// An offset is a turn of the oscillator: hearing it ahead is hearing it there.
pub proof fn an_offset_is_a_turn(lfo: Lfo<Fixed>, offset: Fixed)
    requires
        0 <= lfo.phase.raw < FRACTION,
        0 <= offset.raw < FRACTION,
    ensures
        lfo_at(lfo, offset) == lfo_at(
            Lfo { phase: Fixed { raw: (lfo.phase.raw + offset.raw) as i64 } },
            Fixed::of_spec(0),
        ),
        lfo.phase.raw + offset.raw >= FRACTION ==> lfo_at(lfo, offset) == lfo_at(
            Lfo { phase: Fixed { raw: (lfo.phase.raw + offset.raw - FRACTION) as i64 } },
            Fixed::of_spec(0),
        ),
{
}

/// A control of the modulation processor takes its value where that lies in its
/// range, and the nearer end where it does not; what glides moves its lag's target
/// alone. The rate goes from a fiftieth of a hertz to 12, the feedback to 92
/// hundredths either way, the stages from 4 to 12, the others to one.
pub proof fn a_modulation_takes_its_controls(m: Modulating<Fixed>, id: u32, value: Fixed)
    requires
        within(value, 1_000 * FRACTION),
    ensures
        ({
            let after = mod_taking(m, id, value);
            let was = m.params;
            let now = after.params;
            let v = value.raw as int;
            let f = FRACTION as int;
            &&& id == 0 ==> now == (ModulationParams { mode: now.mode, ..was })
            &&& id == 0 && v < f / 2 ==> now.mode == ModulationMode::Chorus
            &&& id == 0 && f / 2 <= v < 3 * f / 2 ==> now.mode == ModulationMode::Flange
            &&& id == 0 && 3 * f / 2 <= v < 5 * f / 2 ==> now.mode == ModulationMode::Phaser
            &&& id == 0 && 5 * f / 2 <= v < 7 * f / 2 ==> now.mode == ModulationMode::Ensemble
            &&& id == 0 && 7 * f / 2 <= v ==> now.mode == ModulationMode::Adt
            &&& id == 1 ==> held(v, 85_899_345, 12 * f, now.rate_hz) && now == (ModulationParams {
                rate_hz: now.rate_hz,
                ..was
            })
            &&& id == 2 ==> held(v, 0, f, now.depth) && now == (ModulationParams {
                depth: now.depth,
                ..was
            }) && after.depth == (Smoothed { target: now.depth, ..m.depth })
            &&& id == 3 ==> held(v, 0, f, now.color) && now == (ModulationParams {
                color: now.color,
                ..was
            }) && after.color == (Smoothed { target: now.color, ..m.color })
            &&& id == 4 ==> held(v, -3_951_369_912, 3_951_369_912, now.feedback) && now == (
            ModulationParams { feedback: now.feedback, ..was }) && after.feedback == (Smoothed {
                target: now.feedback,
                ..m.feedback
            })
            &&& id == 5 ==> held(v, 0, f, now.spread) && now == (ModulationParams {
                spread: now.spread,
                ..was
            }) && after.spread == (Smoothed { target: now.spread, ..m.spread })
            &&& id == 6 ==> held(v, 0, f, now.tone) && now == (ModulationParams {
                tone: now.tone,
                ..was
            }) && after.tone == (Smoothed { target: now.tone, ..m.tone })
            &&& id == 7 ==> now == (ModulationParams { stages: now.stages, ..was }) && 4
                <= now.stages <= 12
            &&& id == 7 && v < 9 * f / 2 ==> now.stages == 4
            &&& id == 7 && 9 * f / 2 <= v < 23 * f / 2 ==> -f <= 2 * (now.stages * f - v) <= f
            &&& id == 7 && 23 * f / 2 <= v ==> now.stages == 12
            &&& id == 7 ==> !after.phaser_primed
            &&& id > 7 ==> after == m
            &&& id != 2 ==> after.depth == m.depth
            &&& id != 3 ==> after.color == m.color
            &&& id != 4 ==> after.feedback == m.feedback
            &&& id != 5 ==> after.spread == m.spread
            &&& id != 6 ==> after.tone == m.tone
            &&& after.line == m.line
            &&& after.lfo == m.lfo
            &&& after.sample_rate == m.sample_rate
        }),
{
    a_ratio_is_exact_to_a_count(2, 100);
    a_ratio_is_exact_to_a_count(92, 100);
}

} // verus!
