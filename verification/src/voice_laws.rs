//! What a voice's filters and shapers do, in counts, and how the equalizer's designs
//! and the limiter's frames hang together.

use vstd::prelude::*;

use crate::biquad::{bell_design, effective_q_of, width_of, EqQProfile};
use crate::bitcrush::{source_of, BitcrushEffect, BitcrushStyle};
use crate::curves::{tanh_is_bounded, Curves};
use crate::eq::plot_hz;
use crate::filter::{cascaded, drive_gain, drive_makeup, drive_off, driven};
use crate::level::linear_of;
use crate::limiter::{limiter_next, Limiting};
use crate::num::{
    a_product_is_exact_to_a_count, a_quotient_is_exact_to_a_count, a_ratio_is_exact_to_a_count,
    a_share_is_exact_to_a_count, is_gain, magnitude, nothing_times, products_commute,
    products_keep_order, ratio_of, times_one, within, Fixed, Sample,
    FRACTION,
};
use crate::stage_laws::limiter_exchanged;
use crate::tuning_laws::powers_keep_order;

verus! {

/// The poles of a cascade follow one another: each moves its share of the way to
/// where the one before it went, and the first to the input.
pub proof fn each_pole_follows_the_one_before(
    stages: Seq<Fixed>,
    g: Fixed,
    input: Fixed,
    i: int,
)
    requires
        0 <= i < stages.len(),
        is_gain(g),
        within(input, 0x100_0000_0000_0000),
        forall|k: int| 0 <= k < stages.len() ==> within(#[trigger] stages[k], 0x100_0000_0000_0000),
    ensures
        ({
            let after = cascaded(stages, g, input);
            let fed = if i == 0 {
                input.raw
            } else {
                after[i - 1].raw
            };
            &&& after.len() == stages.len()
            &&& magnitude(
                FRACTION * (after[i].raw - stages[i].raw) - g.raw * (fed - stages[i].raw),
            ) < FRACTION
            &&& within(after[i], 0x100_0000_0000_0000)
        }),
    decreases stages.len(),
{
    let shorter = stages.drop_last();
    let before = cascaded(shorter, g, input);
    let after = cascaded(stages, g, input);
    lemma_cascade_length(shorter, g, input);
    assert forall|k: int| 0 <= k < shorter.len() implies within(
        #[trigger] shorter[k],
        0x100_0000_0000_0000,
    ) by {
        assert(shorter[k] == stages[k]);
    }
    if i < stages.len() - 1 {
        each_pole_follows_the_one_before(shorter, g, input, i);
        assert(after[i] == before[i]);
        if i > 0 {
            assert(after[i - 1] == before[i - 1]);
        }
    } else {
        if i > 0 {
            each_pole_follows_the_one_before(shorter, g, input, i - 1);
        }
        let fed = if i == 0 {
            input
        } else {
            before.last()
        };
        let way = fed.minus(stages[i]);
        a_share_is_exact_to_a_count(way, g);
        assert(way.raw * g.raw == g.raw * way.raw) by (nonlinear_arith);
    }
}

proof fn lemma_cascade_length(stages: Seq<Fixed>, g: Fixed, input: Fixed)
    ensures
        cascaded(stages, g, input).len() == stages.len(),
    decreases stages.len(),
{
    if stages.len() > 0 {
        lemma_cascade_length(stages.drop_last(), g, input);
    }
}

/// Drive changes character and not level: what comes in at the reference goes out at
/// it, to within two counts, whatever the drive; and no drive is no change at all.
pub proof fn a_drive_keeps_its_reference(reference: Fixed, drive: Fixed)
    requires
        0 < reference.raw <= 16 * FRACTION,
        0x10_0000 <= reference.times(drive_gain(drive)).tanh_spec().raw,
    ensures
        magnitude(
            driven(reference, drive, drive_makeup(drive, reference)).raw - reference.raw,
        ) <= 2,
        drive.raw <= 0 ==> driven(reference, drive, drive_makeup(drive, reference)) == reference,
{
    let f = FRACTION as int;
    a_ratio_is_exact_to_a_count(1, 8_388_608);
    if !drive_off(drive) {
        let shaped = reference.times(drive_gain(drive)).tanh_spec();
        tanh_is_bounded(reference.times(drive_gain(drive)));
        let t = shaped.raw as int;
        let r = reference.raw as int;
        assert(r * f <= 0x7fff_ffff_ffff_ffff * t) by (nonlinear_arith)
            requires
                0 < r <= 16 * f,
                t >= 0x10_0000,
                f == 0x1_0000_0000,
        ;
        a_quotient_is_exact_to_a_count(reference, shaped);
        let makeup = reference.over(shaped);
        let k = makeup.raw as int;
        assert(0 <= t * k <= 0x7fff_ffff_ffff_ffff * f) by (nonlinear_arith)
            requires
                t * k <= r * f,
                0 <= k,
                0 < t,
                r <= 16 * f,
                f == 0x1_0000_0000,
        ;
        a_product_is_exact_to_a_count(shaped, makeup);
        let out = shaped.times(makeup).raw as int;
        assert(-2 <= out - r <= 2) by (nonlinear_arith)
            requires
                -f < f * out - t * k < f,
                -t < t * k - r * f < t,
                0 < t <= f,
                f == 0x1_0000_0000,
        {
            assert(f * (out - r) == (f * out - t * k) + (t * k - r * f));
        }
    }
}

/// The drive's gain goes from one to sixteen, in a straight line.
pub proof fn a_drive_gain_goes_to_sixteen(drive: Fixed)
    requires
        is_gain(drive),
    ensures
        drive_gain(drive).raw == FRACTION + 15 * drive.raw,
{
    let d = drive.raw as int;
    let f = FRACTION as int;
    assert((d * (15 * f)) / f == 15 * d && 0 <= d * (15 * f)) by (nonlinear_arith)
        requires
            0 <= d,
            f == 0x1_0000_0000,
    {
        assert(d * (15 * f) == (15 * d) * f);
    }
}

/// A glide between two latches is a straight line: so much of the way as the hold
/// has run.
pub proof fn a_glide_runs_between_its_latches(c: BitcrushEffect<Fixed>, prev: Fixed, last: Fixed)
    requires
        c.params.style == BitcrushStyle::Glide,
        FRACTION <= c.params.downsample.raw <= 64 * FRACTION,
        0 <= c.phase.raw <= c.params.downsample.raw,
        within(prev, 0x100_0000_0000_0000),
        within(last, 0x100_0000_0000_0000),
    ensures
        ({
            let out = source_of(c, prev, last).raw;
            let hold = c.params.downsample.raw;
            &&& magnitude(
                hold * (out - prev.raw) - c.phase.raw * (last.raw - prev.raw),
            ) <= hold * 2 + hold * (magnitude(last.raw - prev.raw) / 0x1_0000_0000)
            &&& c.phase.raw == 0 ==> out == prev.raw
        }),
{
    let f = FRACTION as int;
    let h = c.params.downsample.raw as int;
    let p = c.phase.raw as int;
    assert(p * f <= 0x7fff_ffff_ffff_ffff * h) by (nonlinear_arith)
        requires
            0 <= p <= h,
            f == 0x1_0000_0000,
    ;
    a_quotient_is_exact_to_a_count(c.phase, c.params.downsample);
    let part = c.phase.over(c.params.downsample);
    let u = part.raw as int;
    assert(0 <= u <= f) by (nonlinear_arith)
        requires
            h * u <= p * f,
            0 <= u,
            0 <= p <= h,
            h > 0,
            f == 0x1_0000_0000,
    ;
    let way = last.minus(prev);
    a_share_is_exact_to_a_count(way, part);
    let w = way.raw as int;
    let o = way.times(part).raw as int;
    let far = magnitude(w);
    let q = far / 0x1_0000_0000;
    let e = h * o - p * w;
    assert(-(h * (2 + q)) <= e <= h * (2 + q)) by (nonlinear_arith)
        requires
            e == h * o - p * w,
            -f < f * o - w * u < f,
            -h < h * u - p * f < h,
            far == (if w < 0 { -w } else { w }),
            q == far / 0x1_0000_0000,
            h > 0,
            f == 0x1_0000_0000,
    {
        let x = f * o - w * u;
        let y = h * u - p * f;
        assert(f * e == h * x + w * y) by {
            assert(h * (f * o - w * u) == f * (h * o) - w * (h * u));
            assert(w * (h * u - p * f) == w * (h * u) - f * (p * w));
        }
        assert(-(h * f) <= h * x <= h * f);
        assert(far < f * q + f);
        assert(-(far * h) <= w * y <= far * h) by {
            assert(far * h >= 0);
            if w >= 0 {
                assert(w * y <= w * h && w * y >= -(w * h));
            } else {
                assert(w * y <= -(w * h) && w * y >= w * h);
            }
        }
        assert(far * h <= (f * q + f) * h);
        assert((f * q + f) * h == f * (h * q) + f * h);
        assert(f * e <= f * (h * (2 + q)));
        assert(f * e >= -(f * (h * (2 + q))));
    }
    assert(h * (2 + q) == h * 2 + h * q) by (nonlinear_arith);
    assert(source_of(c, prev, last).raw == prev.raw + o);
    if p == 0 {
        assert(u == 0) by (nonlinear_arith)
            requires
                h * u <= p * f,
                p == 0,
                0 <= u,
                h > 0,
        ;
        nothing_times(way);
        products_commute(way, Fixed::of_spec(0));
    }
}

/// The plot runs upward from 20 Hz.
pub proof fn a_plot_runs_upward(low: Fixed, high: Fixed)
    requires
        low.raw <= high.raw,
    ensures
        plot_hz(low).raw <= plot_hz(high).raw,
        plot_hz(Fixed::of_spec(0)) == Fixed::of_spec(20),
{
    powers_keep_order(Fixed::of_spec(1_000), low, high);
    products_keep_order(
        Fixed::of_spec(1_000).powf_spec(low),
        Fixed::of_spec(1_000).powf_spec(high),
        Fixed::of_spec(20),
    );
    times_one(Fixed::of_spec(20));
}

/// A proportional bell is as wide as its gain is far from nothing, boost or cut: a
/// quarter of its width up to three decibels, all of it at twelve, twice at 24.
pub proof fn a_proportional_width_follows_the_gain(q: Fixed, gain_db: Fixed, other_db: Fixed)
    requires
        0 <= q.raw <= 1_000 * FRACTION,
        within(gain_db, 100 * FRACTION),
        magnitude(gain_db.raw as int) <= magnitude(other_db.raw as int),
        within(other_db, 100 * FRACTION),
    ensures
        effective_q_of(q, gain_db, EqQProfile::Constant) == q,
        effective_q_of(q, gain_db.negated(), EqQProfile::Proportional) == effective_q_of(
            q,
            gain_db,
            EqQProfile::Proportional,
        ),
        effective_q_of(q, gain_db, EqQProfile::Proportional).raw <= effective_q_of(
            q,
            other_db,
            EqQProfile::Proportional,
        ).raw,
        magnitude(gain_db.raw as int) == 12 * FRACTION ==> effective_q_of(
            q,
            gain_db,
            EqQProfile::Proportional,
        ) == q,
        magnitude(gain_db.raw as int) >= 24 * FRACTION ==> effective_q_of(
            q,
            gain_db,
            EqQProfile::Proportional,
        ).raw == 2 * q.raw,
        magnitude(gain_db.raw as int) <= 3 * FRACTION ==> magnitude(
            4 * effective_q_of(q, gain_db, EqQProfile::Proportional).raw - q.raw,
        ) < 4,
{
    let f = FRACTION as int;
    a_ratio_is_exact_to_a_count(1, 4);
    let quarter = ratio_of::<Fixed>(1, 4);
    assert(quarter.raw == 0x4000_0000);
    lemma_twelfth(gain_db.abs_spec());
    lemma_twelfth(other_db.abs_spec());
    let twelve = Fixed::of_spec(12);
    let a = crate::num::clamp_of(gain_db.abs_spec().over(twelve), quarter, Fixed::of_spec(2));
    let b = crate::num::clamp_of(other_db.abs_spec().over(twelve), quarter, Fixed::of_spec(2));
    products_keep_order(a, b, q);
    products_commute(q, a);
    products_commute(q, b);
    times_one(q);
    let x = q.raw as int;
    assert((x * (2 * f)) / f == 2 * x && 0 <= x * (2 * f)) by (nonlinear_arith)
        requires
            0 <= x,
            f == 0x1_0000_0000,
    {
        assert(x * (2 * f) == (2 * x) * f);
    }
    assert((x * 0x4000_0000) / 0x1_0000_0000 == x / 4);
}

proof fn lemma_twelfth(value: Fixed)
    requires
        0 <= value.raw <= 0x100_0000_0000,
    ensures
        value.over(Fixed::of_spec(12)).raw == value.raw / 12,
{
    let v = value.raw as int;
    assert((v * 0x1_0000_0000) / 0xc_0000_0000 == v / 12);
}

/// A bell leaves both ends of the band as they are: at rest, and at the top, its
/// weights come to those of its answer; and a boost lifts what lies between.
pub proof fn a_bell_leaves_the_ends_of_the_band(w: Fixed, amplitude: Fixed, q: Fixed)
    requires
        0 <= w.sin_spec().raw <= 8 * FRACTION,
        within(w.cos_spec(), 8 * FRACTION),
        0 < q.raw <= 1_000 * FRACTION,
        FRACTION / 16 <= amplitude.raw <= 16 * FRACTION,
        0 <= bell_alpha(w, q).raw <= 100 * FRACTION,
    ensures
        ({
            let bell = bell_design(w, amplitude, q);
            &&& bell.b1 == bell.a1
            &&& magnitude(bell.b0.raw + bell.b2.raw - (FRACTION + bell.a2.raw)) <= 4
            &&& amplitude.raw >= FRACTION ==> bell.b0.raw >= FRACTION - 1
            &&& amplitude.raw >= FRACTION ==> bell.b2.raw <= bell.a2.raw + 1
        }),
{
    let f = FRACTION as int;
    let one = Fixed::of_spec(1);
    let alpha = bell_alpha(w, q);
    let al = alpha.raw as int;
    let am = amplitude.raw as int;
    assert(0 <= al * am <= (100 * f) * (16 * f) && (100 * f) * (16 * f) <= 0x7fff_ffff_ffff_ffff
        * f) by (nonlinear_arith)
        requires
            0 <= al <= 100 * f,
            0 <= am <= 16 * f,
            f == 0x1_0000_0000,
    ;
    a_product_is_exact_to_a_count(alpha, amplitude);
    let up = alpha.times(amplitude).raw as int;
    assert(0 <= up <= 1_600 * f) by (nonlinear_arith)
        requires
            f * up <= (100 * f) * (16 * f),
            0 <= up,
            f == 0x1_0000_0000,
    ;
    assert(al * f <= 0x7fff_ffff_ffff_ffff * am) by (nonlinear_arith)
        requires
            0 <= al <= 100 * f,
            am >= f / 16,
            f == 0x1_0000_0000,
    ;
    a_quotient_is_exact_to_a_count(alpha, amplitude);
    let down = alpha.over(amplitude).raw as int;
    assert(0 <= down <= 1_600 * f) by (nonlinear_arith)
        requires
            am * down <= al * f,
            0 <= down,
            al <= 100 * f,
            am >= f / 16,
            f == 0x1_0000_0000,
    ;
    let lead = one.plus(alpha.over(amplitude));
    let d = f + down;
    assert(lead.raw == d);
    lemma_over_lead(one.plus(alpha.times(amplitude)), lead);
    lemma_over_lead(one.minus(alpha.times(amplitude)), lead);
    lemma_over_lead(one.minus(alpha.over(amplitude)), lead);
    let bell = bell_design(w, amplitude, q);
    let b0 = bell.b0.raw as int;
    let b2 = bell.b2.raw as int;
    let a2 = bell.a2.raw as int;
    let x = b0 + b2 - f - a2;
    assert(-(4 * d) < d * x < 4 * d) by (nonlinear_arith)
        requires
            x == b0 + b2 - f - a2,
            d == f + down,
            down >= 0,
            -d < d * b0 - (f + up) * f < d,
            -d < d * b2 - (f - up) * f < d,
            -d < d * a2 - (f - down) * f < d,
            f == 0x1_0000_0000,
    {
        assert(d * x == d * b0 + d * b2 - d * f - d * a2);
        assert(d * f == f * f + down * f);
    }
    assert(-4 <= x <= 4) by (nonlinear_arith)
        requires
            -(4 * d) < d * x < 4 * d,
            d > 0,
    ;
    if am >= f {
        assert(down <= al && al <= up) by (nonlinear_arith)
            requires
                am * down <= al * f,
                0 <= down,
                am >= f,
                -f < f * up - al * am < f,
                f * up <= al * am,
                0 <= al,
                f == 0x1_0000_0000,
        {
            assert(f * down <= am * down);
            assert(al * am >= al * f);
            assert(f * up > al * f - f);
        }
        assert(b0 >= f - 1) by (nonlinear_arith)
            requires
                -d < d * b0 - (f + up) * f,
                d == f + down,
                down <= up,
                down >= 0,
                f == 0x1_0000_0000,
        {
            assert((f + up) * f >= d * f);
            assert(d * b0 > d * f - d);
        }
        assert(b2 <= a2 + 1) by (nonlinear_arith)
            requires
                d * b2 - (f - up) * f < d,
                -d < d * a2 - (f - down) * f,
                down <= up,
                d > 0,
                f == 0x1_0000_0000,
        {
            assert((f - up) * f <= (f - down) * f);
            assert(d * b2 < d * a2 + 2 * d);
        }
    }
}

/// How wide a bell of a width is at an angle.
pub open spec fn bell_alpha<S: Curves>(w: S, q: S) -> S {
    w.sin_spec().over(S::of_spec(2).times(width_of(q)))
}

proof fn lemma_over_lead(value: Fixed, lead: Fixed)
    requires
        within(value, 2_000 * FRACTION),
        FRACTION <= lead.raw,
    ensures
        magnitude(lead.raw * value.over(lead).raw - value.raw * FRACTION) < lead.raw,
{
    let f = FRACTION as int;
    let v = magnitude(value.raw as int);
    let d = lead.raw as int;
    assert(v * f <= 0x7fff_ffff_ffff_ffff * d) by (nonlinear_arith)
        requires
            0 <= v <= 2_000 * f,
            d >= f,
            f == 0x1_0000_0000,
    ;
    a_quotient_is_exact_to_a_count(value, lead);
}

/// What a limiter takes in of each channel is its input at the drive's gain, and
/// exchanging the channels exchanges what it keeps of them.
pub proof fn a_limiter_drives_both_channels(limiter: Limiting<Fixed, Fixed>, l: Fixed, r: Fixed)
    requires
        limiter.delay_l.len() > 0,
        limiter.delay_r.len() == limiter.delay_l.len(),
        within(l, 0x1000_0000_0000),
        within(r, 0x1000_0000_0000),
        within(linear_of(limiter_next(limiter, l, r).gain_db.value), 0x1000_0000_0000),
    ensures
        ({
            let after = limiter_next(limiter, l, r);
            let drive = linear_of(after.gain_db.value).raw;
            &&& magnitude(FRACTION * after.delay_l[0].raw - l.raw * drive) < FRACTION
            &&& magnitude(FRACTION * after.delay_r[0].raw - r.raw * drive) < FRACTION
            &&& after.peak_l.last() == after.delay_l[0]
            &&& after.peak_r.last() == after.delay_r[0]
            &&& limiter_next(limiter_exchanged(limiter), r, l) == limiter_exchanged(after)
        }),
{
    let drive = linear_of(limiter_next(limiter, l, r).gain_db.value);
    lemma_driven(l, drive);
    lemma_driven(r, drive);
    assert(crate::limiter::limiter_peak(limiter_exchanged(limiter), r, l)
        == crate::limiter::limiter_peak(limiter, l, r));
}

proof fn lemma_driven(value: Fixed, gain: Fixed)
    requires
        within(value, 0x1000_0000_0000),
        within(gain, 0x1000_0000_0000),
    ensures
        magnitude(FRACTION * value.times(gain).raw - value.raw * gain.raw) < FRACTION,
{
    let v = value.raw as int;
    let g = gain.raw as int;
    let f = FRACTION as int;
    assert(-(0x7fff_ffff_ffff_ffff * f) <= v * g <= 0x7fff_ffff_ffff_ffff * f) by (nonlinear_arith)
        requires
            -0x1000_0000_0000 <= v <= 0x1000_0000_0000,
            -0x1000_0000_0000 <= g <= 0x1000_0000_0000,
            f == 0x1_0000_0000,
    ;
    a_product_is_exact_to_a_count(value, gain);
}

} // verus!
