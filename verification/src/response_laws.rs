//! Laws of what a stage does to a frequency, of the drive ahead of a filter, and of
//! what a device lets go of.

use vstd::prelude::*;

use crate::biquad::{identity_stage, magnitude_of, power_at};
use crate::bitcrush::{crushed, shuffled, uniform_of, BitcrushStyle};
use crate::bus_comp::BusSection;
use crate::curves::{a_decay_lies_between_its_bounds, a_root_is_a_root, Curves};
use crate::dynamics::CompressorEffect;
use crate::env::decay_coeff;
use crate::eq::{response_sum, stage_designed, stage_on, EqParams};
use crate::filter::{
    acid_coeff, acid_feedback, acid_input, driven, pre_drive_follow, pre_drive_gain,
    pre_drive_makeup, pre_drive_stepped, Acid, PreDrive, SvfCoeffs,
};
use crate::filter_effect::{filter_frame, FilterEffect};
use crate::hosted_source::{faded, faded_channel, faded_once};
use crate::limiter::{limiter_cleared, Limiting};
use crate::num::{
    a_product_is_exact_to_a_count, a_quotient_is_exact_to_a_count, a_ratio_is_exact_to_a_count,
    held, is_gain, magnitude, within, Fixed, Sample, Wide, FRACTION,
};
use crate::smooth::settled;
use crate::tuning_laws::a_loop_takes_its_feedback_away;

verus! {

/// A whole number of times a number is exact.
proof fn lemma_whole_times(count: nat, value: Fixed)
    requires
        count <= 16,
        within(value, 0x1000_0000_0000),
    ensures
        Fixed::of_spec(count).times(value).raw == count * value.raw,
{
    let f = FRACTION as int;
    let n = count as int;
    let v = value.raw as int;
    let many = Fixed::of_spec(count);
    assert((n * f) * v == f * (n * v) && -0x1_0000_0000_0000 <= n * v <= 0x1_0000_0000_0000)
        by (nonlinear_arith)
        requires
            0 <= n <= 16,
            -0x1000_0000_0000 <= v <= 0x1000_0000_0000,
    ;
    a_product_is_exact_to_a_count(many, value);
    let p = many.times(value).raw as int;
    assert(f * p - f * (n * v) == f * (p - n * v)) by (nonlinear_arith);
    assert(p == n * v) by (nonlinear_arith)
        requires
            -f < f * (p - n * v) < f,
            f == 0x1_0000_0000,
    ;
}

/// The three parts a power is made of.
proof fn lemma_power_parts(c0: Fixed, c1: Fixed, c2: Fixed)
    requires
        within(c0, 0x4_0000_0000),
        within(c1, 0x4_0000_0000),
        within(c2, 0x4_0000_0000),
    ensures
        ({
            let sum = c0.plus(c1).plus(c2);
            let cross = c0.times(c1).plus(Fixed::of_spec(4).times(c0).times(c2)).plus(
                c1.times(c2),
            );
            let last = Fixed::of_spec(16).times(c0).times(c2);
            let s = c0.raw + c1.raw + c2.raw;
            &&& sum.raw == s
            &&& magnitude(FRACTION * sum.times(sum).raw - s * s) < FRACTION
            &&& magnitude(
                FRACTION * cross.raw - (c0.raw * c1.raw + 4 * (c0.raw * c2.raw) + c1.raw
                    * c2.raw),
            ) < 3 * FRACTION
            &&& Fixed::of_spec(4).times(cross).raw == 4 * cross.raw
            &&& magnitude(FRACTION * last.raw - 16 * (c0.raw * c2.raw)) < FRACTION
            &&& within(sum.times(sum), 0x100_0000_0000)
            &&& within(cross, 0x100_0000_0000)
            &&& within(last, 0x200_0000_0000)
        }),
{
    let f = FRACTION as int;
    let x = c0.raw as int;
    let y = c1.raw as int;
    let z = c2.raw as int;
    let s = x + y + z;
    let sum = c0.plus(c1).plus(c2);
    lemma_whole_times(4, c0);
    lemma_whole_times(16, c0);
    assert(-16 * f * f <= x * y <= 16 * f * f && -16 * f * f <= x * z <= 16 * f * f && -16 * f * f
        <= y * z <= 16 * f * f && 0 <= s * s <= 144 * f * f) by (nonlinear_arith)
        requires
            -4 * f <= x <= 4 * f,
            -4 * f <= y <= 4 * f,
            -4 * f <= z <= 4 * f,
            s == x + y + z,
            f == 0x1_0000_0000,
    ;
    assert((4 * x) * z == 4 * (x * z) && (16 * x) * z == 16 * (x * z)) by (nonlinear_arith);
    assert(f * f == 0x1_0000_0000_0000_0000) by (nonlinear_arith)
        requires
            f == 0x1_0000_0000,
    ;
    a_product_is_exact_to_a_count(sum, sum);
    a_product_is_exact_to_a_count(c0, c1);
    a_product_is_exact_to_a_count(c1, c2);
    a_product_is_exact_to_a_count(Fixed::of_spec(4).times(c0), c2);
    a_product_is_exact_to_a_count(Fixed::of_spec(16).times(c0), c2);
    let cross = c0.times(c1).plus(Fixed::of_spec(4).times(c0).times(c2)).plus(c1.times(c2));
    lemma_whole_times(4, cross);
}

/// A row of three's power is the square of its sum where the frequency is nothing,
/// the square of its alternating sum at half the rate, and at a quarter of the rate
/// the two squares of its real and its turned part.
pub proof fn a_power_is_a_square_at_its_ends(c0: Fixed, c1: Fixed, c2: Fixed, half: Fixed)
    requires
        within(c0, 0x4_0000_0000),
        within(c1, 0x4_0000_0000),
        within(c2, 0x4_0000_0000),
    ensures
        ({
            let out = FRACTION * power_at(c0, c1, c2, half).raw;
            let sum = c0.raw + c1.raw + c2.raw;
            let turned = c0.raw - c1.raw + c2.raw;
            let across = c0.raw - c2.raw;
            &&& half.raw == 0 ==> magnitude(out - sum * sum) < FRACTION
            &&& half.raw == FRACTION ==> magnitude(out - turned * turned) < 14 * FRACTION
            &&& 2 * half.raw == FRACTION ==> magnitude(
                out - (across * across + c1.raw * c1.raw),
            ) < 10 * FRACTION
        }),
{
    let f = FRACTION as int;
    let x = c0.raw as int;
    let y = c1.raw as int;
    let z = c2.raw as int;
    lemma_power_parts(c0, c1, c2);
    let cross = c0.times(c1).plus(Fixed::of_spec(4).times(c0).times(c2)).plus(c1.times(c2));
    let four = Fixed::of_spec(4).times(cross);
    let last = Fixed::of_spec(16).times(c0).times(c2);
    assert((x - y + z) * (x - y + z) == (x + y + z) * (x + y + z) - 4 * (x * y + 4 * (x * z) + y
        * z) + 16 * (x * z)) by (nonlinear_arith);
    assert((x - z) * (x - z) + y * y == (x + y + z) * (x + y + z) - 2 * (x * y + 4 * (x * z) + y
        * z) + 4 * (x * z)) by (nonlinear_arith);
    if half.raw == 0 {
        lemma_nothing(four, half);
        lemma_nothing(last, half);
        lemma_nothing(last.times(half), half);
    } else if half.raw == FRACTION {
        assert(half == Fixed::of_spec(1));
        crate::num::times_one(four);
        crate::num::times_one(last);
    } else if 2 * half.raw == FRACTION {
        lemma_halved(four, half);
        lemma_halved(last, half);
        lemma_halved(last.times(half), half);
    }
}

proof fn lemma_nothing(value: Fixed, nothing: Fixed)
    requires
        nothing.raw == 0,
    ensures
        value.times(nothing).raw == 0,
{
    assert(value.raw * 0 == 0);
    a_product_is_exact_to_a_count(value, nothing);
}

proof fn lemma_halved(value: Fixed, half: Fixed)
    requires
        2 * half.raw == FRACTION,
        within(value, 0x1000_0000_0000),
    ensures
        -1 <= 2 * value.times(half).raw - value.raw <= 1,
        within(value.times(half), 0x1000_0000_0000),
{
    let f = FRACTION as int;
    let v = value.raw as int;
    let h = half.raw as int;
    assert(2 * (v * h) == v * f && magnitude(v * h) <= 0x1000_0000_0000 * f) by (nonlinear_arith)
        requires
            2 * h == f,
            f == 0x1_0000_0000,
            -0x1000_0000_0000 <= v <= 0x1000_0000_0000,
    ;
    a_product_is_exact_to_a_count(value, half);
    let p = value.times(half).raw as int;
    assert(2 * (f * p) - v * f == f * (2 * p - v)) by (nonlinear_arith);
    assert(-1 <= 2 * p - v <= 1) by (nonlinear_arith)
        requires
            -2 * f < f * (2 * p - v) < 2 * f,
            f == 0x1_0000_0000,
    ;
    assert(f * magnitude(p) <= 0x1000_0000_0000 * f);
}

/// With none of its stages live, a bank is flat; with one, it does what that stage
/// does.
pub proof fn a_bank_adds_up_its_live_stages(
    params: EqParams<Fixed>,
    hz: Fixed,
    sample_rate: u32,
    only: int,
    count: int,
)
    requires
        forall|i: int| 0 <= i < count && i != only ==> !#[trigger] stage_on(params, i),
        0 <= only < count ==> stage_on(params, only),
    ensures
        !(0 <= only < count) ==> response_sum(params, hz, sample_rate, count).raw == 0,
        0 <= only < count ==> response_sum(params, hz, sample_rate, count) == magnitude_of(
            stage_designed(identity_stage(), params, only, sample_rate),
            hz,
            sample_rate,
        ),
    decreases count,
{
    if count > 0 {
        a_bank_adds_up_its_live_stages(params, hz, sample_rate, only, count - 1);
        assert(stage_on(params, count - 1) == (only == count - 1));
    }
}

/// What is left of a distance after one sample of a span.
proof fn lemma_left_of_a_span(span: Fixed)
    requires
        span.raw * 256 >= FRACTION,
    ensures
        ({
            let s = span.raw as int;
            let left = Fixed::of_spec(1).negated().over(span).exp_spec().raw as int;
            &&& (FRACTION - left) * s <= FRACTION * FRACTION + 255 * s
            &&& left * (FRACTION * s + FRACTION * FRACTION - 256 * s) <= FRACTION * FRACTION * s
            &&& 0 <= left <= FRACTION
        }),
{
    let f = FRACTION as int;
    let s = span.raw as int;
    let minus = Fixed::of_spec(1).negated();
    let x = minus.over(span);
    assert(f * f <= 0x7fff_ffff_ffff_ffff * s && f * f <= 256 * f * s) by (nonlinear_arith)
        requires
            s * 256 >= f,
            f == 0x1_0000_0000,
    ;
    a_quotient_is_exact_to_a_count(minus, span);
    let w = -x.raw as int;
    assert(w * s <= f * f < w * s + s && 0 <= w <= 256 * f) by (nonlinear_arith)
        requires
            0 <= w,
            s * w <= f * f,
            -s < s * (-w) - (-f) * f < s,
            f * f <= 256 * f * s,
            f * f <= 0x7fff_ffff_ffff_ffff * s,
            s * 256 >= f,
            f == 0x1_0000_0000,
    ;
    a_decay_lies_between_its_bounds(x);
    let left = x.exp_spec().raw as int;
    assert((f - left) * s <= f * f + 255 * s) by (nonlinear_arith)
        requires
            f - w - 255 <= left,
            w * s <= f * f,
            0 < s,
    ;
    assert(left * (f * s + f * f - 256 * s) <= f * f * s) by (nonlinear_arith)
        requires
            left * (f + w - 255) <= f * f,
            f * f < w * s + s,
            0 <= left,
            0 < s,
    {
        assert((left * (f + w - 255)) * s <= (f * f) * s);
        assert(f * s + f * f - 256 * s <= (f + w - 255) * s);
        assert(left * (f * s + f * f - 256 * s) <= left * ((f + w - 255) * s));
        assert(left * ((f + w - 255) * s) == (left * (f + w - 255)) * s);
    }
}

/// The means ahead of a filter follow over a twentieth of a second: on each sample
/// they cover one part in that many samples, but for rounding.
pub proof fn a_pre_drive_follows_over_a_twentieth(sample_rate: u32)
    requires
        0 < sample_rate <= 0x100_0000,
    ensures
        ({
            let span = 214_748_364 * sample_rate;
            let covered = pre_drive_follow::<Fixed>(sample_rate).raw;
            &&& covered * span <= FRACTION * FRACTION + 255 * span
            &&& (FRACTION - covered) * (FRACTION * span + FRACTION * FRACTION - 256 * span)
                <= FRACTION * FRACTION * span
            &&& 0 <= covered <= FRACTION
        }),
{
    let f = FRACTION as int;
    let rate = sample_rate as int;
    let part = crate::num::ratio_of::<Fixed>(5, 100);
    a_ratio_is_exact_to_a_count(5, 100);
    assert(part.raw == 214_748_364);
    let many = Fixed::of_spec(sample_rate as nat);
    assert(part.raw * many.raw == f * (214_748_364 * rate)) by (nonlinear_arith)
        requires
            part.raw == 214_748_364,
            many.raw == rate * f,
    ;
    assert(f * (214_748_364 * rate) <= 0x7fff_ffff_ffff_ffff * f) by (nonlinear_arith)
        requires
            0 < rate <= 0x100_0000,
            f == 0x1_0000_0000,
    ;
    a_product_is_exact_to_a_count(part, many);
    let span = part.times(many);
    let p = span.raw as int;
    assert(f * p - f * (214_748_364 * rate) == f * (p - 214_748_364 * rate)) by (nonlinear_arith);
    assert(p == 214_748_364 * rate) by (nonlinear_arith)
        requires
            -f < f * (p - 214_748_364 * rate) < f,
            f == 0x1_0000_0000,
    ;
    lemma_left_of_a_span(span);
}

/// A drive ahead of a filter raises its input up to fivefold, and one that is off
/// hears nothing.
pub proof fn a_pre_drive_raises_fivefold(
    stage: PreDrive<Fixed>,
    input: Fixed,
    drive: Fixed,
    sample_rate: u32,
)
    ensures
        0 <= drive.raw <= FRACTION ==> pre_drive_gain(drive).raw == FRACTION + 4 * drive.raw,
        drive.raw > FRACTION ==> pre_drive_gain(drive).raw == 5 * FRACTION,
        drive.raw < 0 ==> pre_drive_gain(drive).raw == FRACTION,
        drive.raw <= 0 ==> pre_drive_stepped(stage, input, drive, sample_rate) == stage,
{
    let held_drive = crate::filter::drive_held(drive);
    let f = FRACTION as int;
    let d = held_drive.raw as int;
    assert(d * (4 * f) == f * (4 * d) && 0 <= f * (4 * d) <= 0x7fff_ffff_ffff_ffff * f)
        by (nonlinear_arith)
        requires
            0 <= d <= f,
            f == 0x1_0000_0000,
    ;
    a_product_is_exact_to_a_count(held_drive, Fixed::of_spec(4));
    let p = held_drive.times(Fixed::of_spec(4)).raw as int;
    assert(f * p - f * (4 * d) == f * (p - 4 * d)) by (nonlinear_arith);
    assert(p == 4 * d) by (nonlinear_arith)
        requires
            -f < f * (p - 4 * d) < f,
            f == 0x1_0000_0000,
    ;
}

/// What a drive ahead of a filter gives back is the root of what it took: its square
/// is the mean of the input over the mean of the shaped.
pub proof fn a_pre_drive_gives_back_what_it_took(stage: PreDrive<Fixed>, drive: Fixed)
    requires
        stage.mean_shaped.raw > 0,
        stage.mean_input.over(stage.mean_shaped).raw > 0,
        stage.mean_input.raw * FRACTION <= 0x7fff_ffff_ffff_ffff * stage.mean_shaped.raw,
    ensures
        ({
            let makeup = pre_drive_makeup(stage, drive).raw;
            let input = stage.mean_input.raw;
            let shaped = stage.mean_shaped.raw;
            &&& makeup * makeup * shaped <= input * FRACTION * FRACTION
            &&& input * FRACTION * FRACTION < (makeup + 1) * (makeup + 1) * shaped + shaped
                * FRACTION
            &&& makeup >= 0
        }),
{
    let f = FRACTION as int;
    let ratio = stage.mean_input.over(stage.mean_shaped);
    let q = ratio.raw as int;
    let a = stage.mean_input.raw as int;
    let b = stage.mean_shaped.raw as int;
    assert(crate::filter::pre_drive_floor::<Fixed>().raw == 0) by {
        a_ratio_is_exact_to_a_count(1, 1_000_000);
        let small = crate::num::ratio_of::<Fixed>(1, 1_000_000);
        assert(small.raw == 4294);
        assert(4294int * 4294 < FRACTION);
        a_product_is_exact_to_a_count(small, small);
    }
    assert(a > 0) by {
        if a <= 0 {
            assert(magnitude(a) * FRACTION >= 0) by (nonlinear_arith)
                requires
                    magnitude(a) >= 0,
            ;
            assert(stage.mean_input.over(stage.mean_shaped).raw <= 0) by {
                lemma_quotient_sign(stage.mean_input, stage.mean_shaped);
            }
        }
    }
    a_quotient_is_exact_to_a_count(stage.mean_input, stage.mean_shaped);
    a_root_is_a_root(ratio);
    let m = ratio.sqrt_spec().raw as int;
    assert(m * m * b <= a * f * f) by (nonlinear_arith)
        requires
            m * m <= q * f,
            b * q <= a * f,
            0 < b,
            0 < f,
    {
        assert((m * m) * b <= (q * f) * b);
        assert((q * f) * b == (b * q) * f);
        assert((b * q) * f <= (a * f) * f);
    }
    assert(a * f * f < (m + 1) * (m + 1) * b + b * f) by (nonlinear_arith)
        requires
            q * f < (m + 1) * (m + 1),
            a * f - b * q < b,
            0 < b,
            0 < f,
    {
        assert((a * f) * f < (b * q + b) * f);
        assert((b * q + b) * f == (q * f) * b + b * f);
        assert((q * f) * b < ((m + 1) * (m + 1)) * b);
    }
}

proof fn lemma_quotient_sign(a: Fixed, b: Fixed)
    requires
        a.raw <= 0,
        b.raw > 0,
    ensures
        a.over(b).raw <= 0,
{
    crate::num::quotients_keep_order(a, Fixed::of_spec(0), b);
    assert(0 * FRACTION == 0);
}

/// The acid filter feeds back twelve times its resonance, and half as much again as
/// its pole's share on top; a quarter of that goes to the bass.
pub proof fn an_acid_feeds_back_twelvefold(
    acid: Acid<Fixed>,
    input: Fixed,
    cutoff_hz: Fixed,
    resonance: Fixed,
    sample_rate: u32,
)
    requires
        0 <= acid_coeff::<Fixed>(cutoff_hz, sample_rate).raw <= FRACTION,
        is_gain(resonance),
        within(input, 0x1_0000_0000_0000),
        within(acid.feedback, 0x1_0000_0000_0000),
    ensures
        ({
            let g = acid_coeff::<Fixed>(cutoff_hz, sample_rate).raw;
            let k = acid_feedback(cutoff_hz, resonance, sample_rate).raw;
            let bass = acid_feedback(cutoff_hz, resonance, sample_rate).times(
                crate::num::ratio_of(1, 4),
            ).raw;
            let fed = acid_input(acid, input, cutoff_hz, resonance, sample_rate).raw;
            &&& magnitude(2 * FRACTION * k - 12 * (resonance.raw * (2 * FRACTION + 3 * g))) < 26
                * FRACTION
            &&& 4 * bass <= k < 4 * bass + 4
            &&& magnitude(
                FRACTION * fed - (input.raw * (FRACTION + bass) - k * acid.feedback.raw),
            ) < 2 * FRACTION
        }),
{
    let f = FRACTION as int;
    let pole = acid_coeff::<Fixed>(cutoff_hz, sample_rate);
    let g = pole.raw as int;
    let r = resonance.raw as int;
    let tracking = crate::num::ratio_of::<Fixed>(3, 2);
    a_ratio_is_exact_to_a_count(3, 2);
    assert(tracking.raw == 6_442_450_944);
    assert(2 * (tracking.raw * g) == f * (3 * g) && 0 <= tracking.raw * g <= 2 * f * f)
        by (nonlinear_arith)
        requires
            tracking.raw == 6_442_450_944,
            f == 0x1_0000_0000,
            0 <= g <= f,
    ;
    a_product_is_exact_to_a_count(tracking, pole);
    let t = tracking.times(pole).raw as int;
    assert(-1 <= 2 * t - 3 * g <= 1) by (nonlinear_arith)
        requires
            -2 * f < 2 * (f * t) - f * (3 * g) < 2 * f,
            f == 0x1_0000_0000,
    ;
    let kept = crate::num::clamp_param_of(resonance, Fixed::of_spec(0), Fixed::of_spec(1));
    assert(kept == resonance);
    assert(r * (12 * f) == f * (12 * r) && 0 <= f * (12 * r) <= 12 * f * f) by (nonlinear_arith)
        requires
            0 <= r <= f,
            f == 0x1_0000_0000,
    ;
    a_product_is_exact_to_a_count(resonance, Fixed::of_spec(12));
    let many = resonance.times(Fixed::of_spec(12));
    let m = many.raw as int;
    assert(f * m - f * (12 * r) == f * (m - 12 * r)) by (nonlinear_arith);
    assert(m == 12 * r) by (nonlinear_arith)
        requires
            -f < f * (m - 12 * r) < f,
            f == 0x1_0000_0000,
    ;
    let track = Fixed::of_spec(1).plus(tracking.times(pole));
    let h = track.raw as int;
    assert(h == f + t);
    assert(0 <= m * h <= 48 * f * f) by (nonlinear_arith)
        requires
            0 <= m <= 12 * f,
            0 <= h <= 4 * f,
    ;
    a_product_is_exact_to_a_count(many, track);
    let gain = many.times(track);
    let k = gain.raw as int;
    assert(gain == acid_feedback(cutoff_hz, resonance, sample_rate));
    assert(0 <= k <= 48 * f) by (nonlinear_arith)
        requires
            f * k <= m * h,
            m * h <= 48 * f * f,
            0 <= k,
            0 < f,
    ;
    assert(-26 * f < 2 * f * k - 12 * (r * (2 * f + 3 * g)) < 26 * f) by (nonlinear_arith)
        requires
            -f < f * k - m * h < f,
            m == 12 * r,
            h == f + t,
            -1 <= 2 * t - 3 * g <= 1,
            0 <= r <= f,
            0 < f,
    {
        assert(2 * (m * h) == 12 * (r * (2 * f + 2 * t)));
        assert(r * (2 * f + 2 * t) - r * (2 * f + 3 * g) == r * (2 * t - 3 * g));
        assert(-f <= r * (2 * t - 3 * g) <= f);
    }
    let quarter = crate::num::ratio_of::<Fixed>(1, 4);
    a_ratio_is_exact_to_a_count(1, 4);
    assert(4 * quarter.raw == f);
    a_loop_takes_its_feedback_away(input, gain, quarter, acid.feedback);
    let q = quarter.raw as int;
    assert(4 * (k * q) == f * k && 0 <= k * q <= 48 * f * f) by (nonlinear_arith)
        requires
            4 * q == f,
            0 <= k <= 48 * f,
            0 <= q <= f,
    ;
    a_product_is_exact_to_a_count(gain, quarter);
    let b = gain.times(quarter).raw as int;
    assert(4 * b <= k < 4 * b + 4) by (nonlinear_arith)
        requires
            -f < f * b - k * q < f,
            f * b <= k * q,
            4 * (k * q) == f * k,
            0 < f,
    ;
}

/// A fade takes a frame at a time: each sample gets the level of its own frame, one
/// step on from the last, held between silence and all of it; and the samples past
/// the fade are left alone.
pub proof fn a_fade_takes_a_frame_at_a_time(
    samples: Seq<Fixed>,
    gain: Fixed,
    step: Fixed,
    frames: int,
    i: int,
)
    requires
        0 <= i < samples.len(),
        within(gain, 0x4000_0000_0000),
        within(step, 0x4000_0000_0000),
    ensures
        faded_channel(samples, gain, step, frames).len() == samples.len(),
        frames <= i ==> faded_channel(samples, gain, step, frames)[i] == samples[i],
        i < frames ==> faded_channel(samples, gain, step, frames)[i] == samples[i].times(
            faded_once(faded(gain, step, i), step),
        ),
        held(gain.raw + step.raw, 0, FRACTION as int, faded_once(gain, step)),
        i < frames && i > 0 ==> faded_channel(samples, gain, step, frames)[i]
            == faded_channel(samples.skip(1), faded_once(gain, step), step, frames - 1)[i - 1],
{
    if i > 0 {
        lemma_faded_from_the_front(gain, step, i + 1);
    }
}

proof fn lemma_faded_from_the_front(gain: Fixed, step: Fixed, frames: int)
    requires
        frames > 0,
    ensures
        faded(gain, step, frames) == faded(faded_once(gain, step), step, frames - 1),
    decreases frames,
{
    if frames > 1 {
        lemma_faded_from_the_front(gain, step, frames - 1);
    } else {
        reveal_with_fuel(faded, 2);
    }
}

/// A compressor that lets go forgets its level and nothing else, and it may be left
/// alone when its level is nothing and none of its controls moves.
pub proof fn a_section_lets_go_of_its_level(
    section: &CompressorEffect<Fixed>,
    after: &CompressorEffect<Fixed>,
)
    ensures
        section.resets(after) ==> after.detector.level.raw == 0 && after.params == section.params
            && after.detector.attack == section.detector.attack && after.detector.release
            == section.detector.release && after.threshold_db == section.threshold_db
            && after.ratio == section.ratio && after.makeup_db == section.makeup_db && after.mix
            == section.mix && after.block == section.block,
        section.resting() <==> section.detector.level.raw == 0 && settled(section.threshold_db)
            && settled(section.ratio) && settled(section.makeup_db) && settled(section.mix),
        section.retimes(section.sample_rate, after) ==> *after == *section,
{
}

/// A cleared limiter holds nothing back: its delays are silent for their whole
/// length, its gain is one throughout, and its controls are as they were.
pub proof fn a_cleared_limiter_is_silent<W: Wide<Fixed>>(limiter: Limiting<Fixed, W>, i: int)
    requires
        0 <= i < limiter.delay_l.len(),
        limiter.delay_r.len() == limiter.delay_l.len(),
    ensures
        ({
            let after = limiter_cleared(limiter);
            &&& after.delay_l.len() == limiter.delay_l.len() && after.delay_r.len()
                == limiter.delay_r.len()
            &&& after.delay_l[i].raw == 0 && after.delay_r[i].raw == 0
            &&& after.silent_run == limiter.delay_l.len()
            &&& after.gain.released.raw == FRACTION
            &&& after.gain.average.len() == limiter.gain.average.len()
            &&& after.gain.window == limiter.gain.window && after.gain.release_coeff
                == limiter.gain.release_coeff
            &&& i < after.gain.average.len() ==> after.gain.average[i].raw == FRACTION
            &&& after.params == limiter.params && after.ceiling_db == limiter.ceiling_db
                && after.gain_db == limiter.gain_db && after.kernels == limiter.kernels
        }),
{
}

/// A companded sample is placed by the logarithm of one and 255 times it, over that
/// of 256; the place is put on the grid, and 256 to that place is taken back.
pub proof fn a_companded_sample_is_placed_by_its_logarithm(sample: Fixed, step: Fixed, noise: u32)
    requires
        within(sample, 0x1_0000_0000),
    ensures
        ({
            let out = crushed(BitcrushStyle::Mu, sample, step, noise);
            let raised = Fixed::of_spec(1).plus(Fixed::of_spec(255).times(sample.abs_spec()));
            let place = if sample.raw < 0 {
                raised.ln_spec().negated().over(Fixed::of_spec(256).ln_spec())
            } else {
                raised.ln_spec().over(Fixed::of_spec(256).ln_spec())
            };
            let back = Fixed::of_spec(256).powf_spec(
                crushed(BitcrushStyle::Crush, place, step, noise).0.abs_spec(),
            ).minus(Fixed::of_spec(1));
            &&& sample.raw >= 0 ==> out.0 == back.over(Fixed::of_spec(255))
            &&& sample.raw < 0 ==> out.0 == back.negated().over(Fixed::of_spec(255))
            &&& out.1 == noise
        }),
{
    let one = Fixed::of_spec(1);
    let raised = one.plus(Fixed::of_spec(255).times(sample.abs_spec()));
    let place = one.negated().times(raised.ln_spec());
    lemma_minus_one_times(raised.ln_spec());
    crate::num::one_times(raised.ln_spec());
    assert(one.plus(Fixed::of_spec(255)) == Fixed::of_spec(256));
    let held_at = crate::bitcrush::quantized(
        if sample.raw < 0 {
            place.over(Fixed::of_spec(256).ln_spec())
        } else {
            raised.ln_spec().over(Fixed::of_spec(256).ln_spec())
        },
        step,
    );
    let back = Fixed::of_spec(256).powf_spec(held_at.abs_spec()).minus(one);
    lemma_minus_one_times(back);
    crate::num::one_times(back);
}

proof fn lemma_minus_one_times(value: Fixed)
    ensures
        Fixed::of_spec(1).negated().times(value) == value.negated(),
{
    let f = FRACTION as int;
    let v = value.raw as int;
    let minus = Fixed::of_spec(1).negated();
    assert((-f) * v == -(f * v)) by (nonlinear_arith);
    if v != -0x8000_0000_0000_0000 {
        assert(magnitude((-f) * v) <= 0x7fff_ffff_ffff_ffff * f) by (nonlinear_arith)
            requires
                -0x7fff_ffff_ffff_ffff <= v <= 0x7fff_ffff_ffff_ffff,
                f == 0x1_0000_0000,
        ;
        a_product_is_exact_to_a_count(minus, value);
        let p = minus.times(value).raw as int;
        assert(f * p + f * v == f * (p + v)) by (nonlinear_arith);
        assert(p == -v) by (nonlinear_arith)
            requires
                -f < f * (p + v) < f,
                f == 0x1_0000_0000,
        ;
    } else {
        assert((f * 0x8000_0000_0000_0000) / f == 0x8000_0000_0000_0000) by (nonlinear_arith)
            requires
                f == 0x1_0000_0000,
        ;
    }
}

/// A dithered sample is a crushed one moved by up to a step either way: by two draws
/// from nothing to one, less one, of a step.
pub proof fn a_dither_moves_by_two_draws(sample: Fixed, step: Fixed, noise: u32)
    requires
        is_gain(step),
    ensures
        ({
            let first = shuffled(noise);
            let second = shuffled(first);
            let (out, after) = crushed(BitcrushStyle::Dither, sample, step, noise);
            let drawn = uniform_of::<Fixed>(first).raw + uniform_of::<Fixed>(second).raw - FRACTION;
            exists|moved: Fixed|
                out == #[trigger] crushed(BitcrushStyle::Crush, sample.plus(moved), step, noise).0
                    && magnitude(FRACTION * moved.raw - drawn * step.raw) < FRACTION && magnitude(
                    moved.raw as int,
                ) <= step.raw && after == second
        }),
{
    let f = FRACTION as int;
    let first = shuffled(noise);
    let second = shuffled(first);
    lemma_draw(first);
    lemma_draw(second);
    let drawn = uniform_of::<Fixed>(first).plus(uniform_of(second)).minus(Fixed::of_spec(1));
    let d = drawn.raw as int;
    let n = step.raw as int;
    assert(magnitude(d * n) <= f * n && f * n <= 0x7fff_ffff_ffff_ffff * f) by (nonlinear_arith)
        requires
            -f <= d <= f,
            0 <= n <= f,
            f == 0x1_0000_0000,
    ;
    a_product_is_exact_to_a_count(drawn, step);
    let moved = drawn.times(step);
    assert(magnitude(moved.raw as int) <= n) by (nonlinear_arith)
        requires
            f * magnitude(moved.raw as int) <= f * n,
            0 < f,
    ;
    assert(crushed(BitcrushStyle::Dither, sample, step, noise).0 == crushed(
        BitcrushStyle::Crush,
        sample.plus(moved),
        step,
        noise,
    ).0);
}

proof fn lemma_draw(noise: u32)
    ensures
        0 <= uniform_of::<Fixed>(noise).raw <= FRACTION,
{
    let f = FRACTION as int;
    let n = (noise >> 8u32) as int;
    assert((noise >> 8u32) <= 0xff_ffff) by (bit_vector);
    let many = Fixed::of_spec((noise >> 8u32) as nat);
    let whole = Fixed::of_spec(16_777_216);
    assert(many.raw == n * f && whole.raw == 16_777_216 * f);
    assert((n * f) * f <= 0x7fff_ffff_ffff_ffff * (16_777_216 * f)) by (nonlinear_arith)
        requires
            0 <= n <= 0xff_ffff,
            f == 0x1_0000_0000,
    ;
    a_quotient_is_exact_to_a_count(many, whole);
    let q = uniform_of::<Fixed>(noise).raw as int;
    assert(q <= f) by (nonlinear_arith)
        requires
            (16_777_216 * f) * q <= (n * f) * f,
            0 <= n <= 16_777_216,
            0 <= q,
            f == 0x1_0000_0000,
    ;
}

/// A decay loses one part in its span on each sample, but for rounding: its span is
/// its seconds at the rate, over the constants that take it down eighty decibels.
pub proof fn a_decay_loses_one_in_its_span(seconds: Fixed, sample_rate: u32)
    requires
        FRACTION <= 1_000 * seconds.raw,
        seconds.over(crate::num::ratio_of(9_657_741, 1_048_576)).times(
            Fixed::of_spec(sample_rate as nat),
        ).raw * 256 >= FRACTION,
    ensures
        ({
            let span = seconds.over(crate::num::ratio_of(9_657_741, 1_048_576)).times(
                Fixed::of_spec(sample_rate as nat),
            ).raw;
            let left = decay_coeff(seconds, sample_rate).raw;
            &&& (FRACTION - left) * span <= FRACTION * FRACTION + 255 * span
            &&& left * (FRACTION * span + FRACTION * FRACTION - 256 * span) <= FRACTION * FRACTION
                * span
            &&& 0 <= left <= FRACTION
        }),
{
    a_ratio_is_exact_to_a_count(1, 10_000);
    lemma_left_of_a_span(
        seconds.over(crate::num::ratio_of(9_657_741, 1_048_576)).times(
            Fixed::of_spec(sample_rate as nat),
        ),
    );
}

/// What a filter puts out never passes two and a half.
pub proof fn a_filter_keeps_under_its_ceiling(
    f: FilterEffect<Fixed>,
    coeffs: SvfCoeffs<Fixed>,
    l: Fixed,
    r: Fixed,
)
    ensures
        ({
            let (_, out) = filter_frame(f, coeffs, l, r);
            &&& 2 * magnitude(out.0.raw as int) <= 5 * FRACTION
            &&& 2 * magnitude(out.1.raw as int) <= 5 * FRACTION
        }),
{
    let drive = crate::smooth::smoothed_next(f.drive).value;
    let makeup = crate::filter::drive_makeup(drive, f.reference);
    crate::filter::nothing_leaves_the_ceiling(
        crate::filter_effect::cascade_ticked(
            f.left,
            driven(l, drive, makeup),
            coeffs,
            f.params.mode,
            f.params.slope,
        ).1,
    );
    crate::filter::nothing_leaves_the_ceiling(
        crate::filter_effect::cascade_ticked(
            f.right,
            driven(r, drive, makeup),
            coeffs,
            f.params.mode,
            f.params.slope,
        ).1,
    );
}

} // verus!
