//! What a hall does, in counts.

use vstd::prelude::*;

use crate::hall::{
    injected, line_closed, line_tap, lines_after, mixed_through, phase_after, returns_of,
    signed_sum, taps_of, triangle, LineState,
};
use crate::num::{
    a_ratio_is_exact_to_a_count, a_share_is_exact_to_a_count, held, is_gain, magnitude,
    nothing_times, products_mirror, ratio_of, times_one, within, Fixed, Sample, FRACTION,
};
use crate::plate_laws::a_whole_delay_reads_its_sample;
use crate::reverb::{hall_cut, hall_next, hall_out, hall_taking, predelay_of, Hall, ReverbParams};
use crate::ring::{diffused, diffuser_after, DiffuserState};
use crate::smooth::{glided, smoothed_next, Smoothed};

verus! {

/// Both channels of a frame go into the hall alike: what it sends is half of
/// their sum, to within a count, and exchanging them changes nothing.
pub proof fn both_channels_reach_a_hall_alike(hall: Hall<Fixed>, l: Fixed, r: Fixed)
    requires
        within(l, 0x1000_0000_0000_0000),
        within(r, 0x1000_0000_0000_0000),
        hall.predelay.len() > 0,
    ensures
        magnitude(2 * hall_next(hall, l, r).predelay[0].raw - (l.raw + r.raw)) <= 1,
        l.plus(r) == r.plus(l),
        hall_next(hall, l, r).predelay == hall_next(hall, r, l).predelay,
{
    a_ratio_is_exact_to_a_count(1, 2);
    assert(ratio_of::<Fixed>(1, 2).raw == 0x8000_0000);
    a_share_is_exact_to_a_count(l.plus(r), ratio_of(1, 2));
}

/// A pre-delay of `whole` samples lets in what was sent that many frames before,
/// this frame's being the first; and the low cut takes away what its filter has
/// followed of it.
pub proof fn a_low_cut_takes_what_it_follows(hall: Hall<Fixed>, l: Fixed, r: Fixed, whole: int)
    requires
        4 <= hall.predelay.len() <= 0x4000_0000,
        1 <= whole <= hall.predelay.len() - 2,
        smoothed_next(hall.predelay_samples).value == Fixed::of_spec(whole as nat),
        is_gain(hall.low_cut.coeff),
        within(hall_next(hall, l, r).predelay[whole - 1], 0x800_0000_0000_0000),
        within(hall.low_cut.state, 0x800_0000_0000_0000),
    ensures
        ({
            let after = hall_next(hall, l, r);
            let sent = after.predelay[whole - 1].raw;
            let low = after.low_cut.state.raw;
            &&& magnitude(
                FRACTION * (low - hall.low_cut.state.raw) - hall.low_cut.coeff.raw * (sent
                    - hall.low_cut.state.raw),
            ) < FRACTION
            &&& hall_cut(hall, l, r).raw == sent - low
        }),
{
    let after = hall_next(hall, l, r);
    a_whole_delay_reads_its_sample(after.predelay, whole);
    let sent = after.predelay[whole - 1];
    let way = sent.minus(hall.low_cut.state);
    a_share_is_exact_to_a_count(way, hall.low_cut.coeff);
    assert(way.raw * hall.low_cut.coeff.raw == hall.low_cut.coeff.raw * way.raw)
        by (nonlinear_arith);
}

/// What a diffuser does with an input: it stores the input and its gain of what it
/// holds, and hands on what it holds less its gain of what it stored.
pub proof fn a_diffuser_stores_and_hands_on(
    d: DiffuserState<Fixed>,
    input: Fixed,
    gain: Fixed,
    glide: Fixed,
    whole: int,
)
    requires
        4 <= d.past.len() <= 0x4000_0000,
        1 <= whole <= d.past.len() - 2,
        d.len == Fixed::of_spec(whole as nat),
        d.target_len == d.len,
        is_gain(gain),
        within(d.past[whole - 1], 0x800_0000_0000_0000),
        within(input, 0x800_0000_0000_0000),
    ensures
        ({
            let after = diffuser_after(d, input, gain, glide);
            let out = diffused(d, input, gain, glide).raw;
            let kept = d.past[whole - 1].raw;
            let stored = after.past[0].raw;
            &&& magnitude(FRACTION * (stored - input.raw) - kept * gain.raw) < FRACTION
            &&& magnitude(FRACTION * (kept - out) - stored * gain.raw) < FRACTION
            &&& after.past[whole] == d.past[whole - 1]
            &&& after.len == d.len
        }),
{
    nothing_times(glide);
    assert(glided(d.len, d.target_len, glide) == d.len);
    a_whole_delay_reads_its_sample(d.past, whole);
    let kept = d.past[whole - 1];
    a_share_is_exact_to_a_count(kept, gain);
    let stored = input.plus(kept.times(gain));
    a_share_is_exact_to_a_count(stored, gain);
}

proof fn lemma_signed(tap: Fixed)
    requires
        within(tap, 0x100_0000_0000_0000),
    ensures
        tap.times(Fixed::of_spec(1)) == tap,
        tap.times(Fixed::of_spec(1).negated()).raw == -tap.raw,
{
    times_one(tap);
    let one = Fixed::of_spec(1);
    crate::num::products_commute(tap, one);
    products_mirror(one, tap);
    crate::num::products_commute(one.negated(), tap);
}

/// The input goes into the lines in two halves: the first four take it as it is,
/// and the others turned over.
pub proof fn the_input_enters_every_line(
    lines: Seq<LineState<Fixed>>,
    input: Fixed,
    glide: Fixed,
    line: int,
)
    requires
        0 <= line < 8,
        lines.len() == 8,
        within(input, 0x100_0000_0000_0000),
        within(mixed_through(returns_of(lines, glide))[line], 0x1000_0000_0000_0000),
    ensures
        ({
            let share = injected(lines, input, glide, line).raw - injected(
                lines,
                Fixed::of_spec(0),
                glide,
                line,
            ).raw;
            share == (if line < 4 {
                input.raw as int
            } else {
                -input.raw as int
            })
        }),
        lines_after(lines, input, glide)[line] == line_closed(
            lines[line],
            injected(lines, input, glide, line),
            glide,
        ),
{
    lemma_signed(input);
    lemma_signed(Fixed::of_spec(0));
}

/// What is heard of eight taps, with the signs of a row.
#[verifier::opaque]
pub open spec fn heard_of(lines: Seq<LineState<Fixed>>, glide: Fixed, line: int) -> int {
    line_tap(lines[line], glide).raw as int
}

/// What comes out of a hall is 185 thousandths of its taps: the two channels
/// together are the two rows' sum, whatever the width, and their difference is the
/// width's share of the rows'. The left row adds the taps 0, 1, 4 and 5, the right
/// one 0, 2, 5 and 7, and each takes the others away.
pub proof fn a_hall_puts_out_its_rows(hall: Hall<Fixed>, l: Fixed, r: Fixed)
    requires
        hall.lines.len() == 8,
        forall|i: int|
            0 <= i < 8 ==> -0x10_0000_0000_0000 <= #[trigger] heard_of(
                hall.lines,
                hall.size_glide,
                i,
            ) <= 0x10_0000_0000_0000,
        is_gain(smoothed_next(hall.width).value),
    ensures
        ({
            let t = |i: int| heard_of(hall.lines, hall.size_glide, i);
            let left = t(0) + t(1) - t(2) - t(3) + t(4) + t(5) - t(6) - t(7);
            let right = t(0) - t(1) + t(2) - t(3) - t(4) + t(5) - t(6) + t(7);
            let width = hall_next(hall, l, r).width.value.raw;
            let out = hall_out(hall);
            &&& magnitude(1_000 * (out.0.raw + out.1.raw) - 185 * (left + right)) <= 4_000
                + magnitude(left + right) / 1_000_000
            &&& magnitude(
                1_000 * FRACTION * (out.0.raw - out.1.raw) - 185 * ((left - right) * width),
            ) <= FRACTION * (4_000 + magnitude(left - right) / 1_000_000)
        }),
{
    let glide = hall.size_glide;
    let t = |i: int| heard_of(hall.lines, glide, i);
    let left = t(0) + t(1) - t(2) - t(3) + t(4) + t(5) - t(6) - t(7);
    let right = t(0) - t(1) + t(2) - t(3) - t(4) + t(5) - t(6) + t(7);
    assert(-0x10_0000_0000_0000 <= heard_of(hall.lines, glide, 0) <= 0x10_0000_0000_0000);
    assert(-0x10_0000_0000_0000 <= heard_of(hall.lines, glide, 1) <= 0x10_0000_0000_0000);
    assert(-0x10_0000_0000_0000 <= heard_of(hall.lines, glide, 2) <= 0x10_0000_0000_0000);
    assert(-0x10_0000_0000_0000 <= heard_of(hall.lines, glide, 3) <= 0x10_0000_0000_0000);
    assert(-0x10_0000_0000_0000 <= heard_of(hall.lines, glide, 4) <= 0x10_0000_0000_0000);
    assert(-0x10_0000_0000_0000 <= heard_of(hall.lines, glide, 5) <= 0x10_0000_0000_0000);
    assert(-0x10_0000_0000_0000 <= heard_of(hall.lines, glide, 6) <= 0x10_0000_0000_0000);
    assert(-0x10_0000_0000_0000 <= heard_of(hall.lines, glide, 7) <= 0x10_0000_0000_0000);
    let taps = taps_of(hall.lines, glide);
    assert forall|i: int| 0 <= i < 8 implies (#[trigger] taps[i]).raw == heard_of(
        hall.lines,
        glide,
        i,
    ) by {
        reveal(heard_of);
    }
    lemma_rows(taps);
    let wet_l = signed_sum(taps, true, 8);
    let wet_r = signed_sum(taps, false, 8);
    let width = smoothed_next(hall.width).value;
    lemma_level(wet_l, wet_r, width);
}

proof fn lemma_rows(taps: Seq<Fixed>)
    requires
        taps.len() == 8,
        forall|i: int| 0 <= i < 8 ==> within(#[trigger] taps[i], 0x10_0000_0000_0000),
    ensures
        signed_sum(taps, true, 8).raw == taps[0].raw + taps[1].raw - taps[2].raw - taps[3].raw
            + taps[4].raw + taps[5].raw - taps[6].raw - taps[7].raw,
        signed_sum(taps, false, 8).raw == taps[0].raw - taps[1].raw + taps[2].raw - taps[3].raw
            - taps[4].raw + taps[5].raw - taps[6].raw + taps[7].raw,
{
    lemma_row(taps, true, 8);
    lemma_row(taps, false, 8);
    reveal_with_fuel(row, 9);
}

spec fn row(taps: Seq<Fixed>, left: bool, count: int) -> int
    decreases count,
{
    if count <= 0 {
        0
    } else {
        let line = count - 1;
        let positive = if left {
            line == 0 || line == 1 || line == 4 || line == 5
        } else {
            line == 0 || line == 2 || line == 5 || line == 7
        };
        row(taps, left, line) + if positive {
            taps[line].raw as int
        } else {
            -(taps[line].raw as int)
        }
    }
}

proof fn lemma_row(taps: Seq<Fixed>, left: bool, count: int)
    requires
        taps.len() == 8,
        forall|i: int| 0 <= i < 8 ==> within(#[trigger] taps[i], 0x10_0000_0000_0000),
        0 <= count <= 8,
    ensures
        signed_sum(taps, left, count).raw == row(taps, left, count),
        -(count * 0x10_0000_0000_0000) <= row(taps, left, count) <= count * 0x10_0000_0000_0000,
    decreases count,
{
    if count > 0 {
        lemma_row(taps, left, count - 1);
        assert(within(taps[count - 1], 0x10_0000_0000_0000));
        lemma_signed(taps[count - 1]);
    }
}

proof fn lemma_level(wet_l: Fixed, wet_r: Fixed, width: Fixed)
    requires
        within(wet_l, 0x80_0000_0000_0000),
        within(wet_r, 0x80_0000_0000_0000),
        is_gain(width),
    ensures
        ({
            let half = ratio_of::<Fixed>(1, 2);
            let level = ratio_of::<Fixed>(185, 1000);
            let mid = wet_l.plus(wet_r).times(half);
            let side = wet_l.minus(wet_r).times(half).times(width);
            let a = mid.plus(side).times(level).raw;
            let b = mid.minus(side).times(level).raw;
            &&& magnitude(1_000 * (a + b) - 185 * (wet_l.raw + wet_r.raw)) <= 4_000 + magnitude(
                wet_l.raw + wet_r.raw,
            ) / 1_000_000
            &&& magnitude(
                1_000 * FRACTION * (a - b) - 185 * ((wet_l.raw - wet_r.raw) * width.raw),
            ) <= FRACTION * (4_000 + magnitude(wet_l.raw - wet_r.raw) / 1_000_000)
        }),
{
    let f = FRACTION as int;
    a_ratio_is_exact_to_a_count(1, 2);
    a_ratio_is_exact_to_a_count(185, 1000);
    let half = ratio_of::<Fixed>(1, 2);
    let level = ratio_of::<Fixed>(185, 1000);
    assert(half.raw == 0x8000_0000);
    assert(level.raw == 794_568_949);
    let sum = wet_l.plus(wet_r);
    let difference = wet_l.minus(wet_r);
    a_share_is_exact_to_a_count(sum, half);
    a_share_is_exact_to_a_count(difference, half);
    let mid = sum.times(half);
    let part = difference.times(half);
    a_share_is_exact_to_a_count(part, width);
    let side = part.times(width);
    a_share_is_exact_to_a_count(mid.plus(side), level);
    a_share_is_exact_to_a_count(mid.minus(side), level);
    let a = mid.plus(side).times(level).raw as int;
    let b = mid.minus(side).times(level).raw as int;
    let m = mid.raw as int;
    let p = part.raw as int;
    let s = side.raw as int;
    let k = level.raw as int;
    let x = sum.raw as int;
    let y = difference.raw as int;
    let w = width.raw as int;
    assert(-1 <= 2 * m - x <= 1);
    assert(-1 <= 2 * p - y <= 1);
    assert(-(2 * f) < f * (a + b) - 2 * m * k < 2 * f) by (nonlinear_arith)
        requires
            -f < f * a - (m + s) * k < f,
            -f < f * b - (m - s) * k < f,
    ;
    assert(-(2 * f) < f * (a - b) - 2 * s * k < 2 * f) by (nonlinear_arith)
        requires
            -f < f * a - (m + s) * k < f,
            -f < f * b - (m - s) * k < f,
    ;
    let far = magnitude(x);
    let e = 1_000 * (a + b) - 185 * x;
    assert(f * e <= f * (3_000 + far / 1_000_000) && -(f * (3_000 + far / 1_000_000)) <= f * e)
        by (nonlinear_arith)
        requires
            e == 1_000 * (a + b) - 185 * x,
            -(2 * f) < f * (a + b) - 2 * m * k < 2 * f,
            -1 <= 2 * m - x <= 1,
            1_000 * k == 185 * f - 760,
            far == (if x < 0 { -x } else { x }),
            f == 0x1_0000_0000,
    {
        let u = f * (a + b) - 2 * m * k;
        let v = 2 * m - x;
        assert(f * e == 1_000 * u + (2 * m) * (1_000 * k) - 185 * f * x) by {
            assert(1_000 * (f * (a + b)) == 1_000 * u + (2 * m) * (1_000 * k));
        }
        assert((2 * m) * (1_000 * k) == (2 * m) * (185 * f) - 760 * (2 * m));
        assert((2 * m) * (185 * f) - 185 * f * x == 185 * f * v);
        assert(-(185 * f) <= 185 * f * v <= 185 * f);
        assert(760 * (2 * m) <= 760 * (far + 1) && -(760 * (far + 1)) <= 760 * (2 * m));
        assert(760 * (far + 1) <= f * (far / 1_000_000) + f * 2);
    }
    assert(-(3_000 + far / 1_000_000) <= e <= 3_000 + far / 1_000_000) by (nonlinear_arith)
        requires
            f * e <= f * (3_000 + far / 1_000_000),
            -(f * (3_000 + far / 1_000_000)) <= f * e,
            f == 0x1_0000_0000,
    ;
    let wide = magnitude(y);
    let g = 1_000 * f * (a - b) - 185 * (y * w);
    let bound = f * (4_000 + wide / 1_000_000);
    assert(-bound <= g <= bound) by (nonlinear_arith)
        requires
            g == 1_000 * f * (a - b) - 185 * (y * w),
            bound == f * (4_000 + wide / 1_000_000),
            -(2 * f) < f * (a - b) - 2 * s * k < 2 * f,
            -f < f * s - p * w < f,
            -1 <= 2 * p - y <= 1,
            0 <= w <= f,
            magnitude(s) <= wide + 1,
            -(wide + 1) <= s <= wide + 1,
            1_000 * k == 185 * f - 760,
            wide == (if y < 0 { -y } else { y }),
            f == 0x1_0000_0000,
    {
        let u = f * (a - b) - 2 * s * k;
        let v = f * s - p * w;
        let c = 2 * p - y;
        assert(1_000 * f * (a - b) == 1_000 * u + (2 * s) * (1_000 * k));
        assert((2 * s) * (1_000 * k) == 370 * (f * s) - 1_520 * s);
        assert(370 * (f * s) == 370 * v + 370 * (p * w));
        assert(370 * (p * w) == 185 * ((2 * p) * w));
        assert((2 * p) * w == y * w + c * w);
        assert(g == 1_000 * u + 370 * v + 185 * (c * w) - 1_520 * s);
        assert(-f <= c * w <= f);
        assert(1_520 * s <= 1_520 * (wide + 1) && -(1_520 * (wide + 1)) <= 1_520 * s);
        assert(1_520 * (wide + 1) <= f * (wide / 1_000_000) + f * 2);
    }
}

/// A line's modulator is a triangle: one at the ends of its turn, minus one in the
/// middle, and straight between; it moves by its step and keeps to one turn.
pub proof fn a_modulator_is_a_triangle(phase: Fixed, step: Fixed)
    requires
        0 <= phase.raw < FRACTION,
        0 <= step.raw < FRACTION,
    ensures
        triangle(phase).raw == (if phase.raw < FRACTION / 2 {
            FRACTION - 4 * phase.raw
        } else {
            4 * phase.raw - 3 * FRACTION
        }),
        0 <= phase_after(phase, step).raw < FRACTION,
        phase_after(phase, step).raw == phase.raw + step.raw || phase_after(phase, step).raw
            == phase.raw + step.raw - FRACTION,
{
    let f = FRACTION as int;
    a_ratio_is_exact_to_a_count(1, 2);
    assert(ratio_of::<Fixed>(1, 2).raw == 0x8000_0000);
    let way = phase.minus(ratio_of(1, 2)).abs_spec();
    let w = way.raw as int;
    assert(((4 * f) * w) / f == 4 * w && 0 <= (4 * f) * w) by (nonlinear_arith)
        requires
            0 <= w,
            f == 0x1_0000_0000,
    {
        assert((4 * f) * w == (4 * w) * f);
    }
    assert(Fixed::of_spec(4).times(way).raw == 4 * w);
}

/// A control of the hall takes its value where that lies in its range, and the
/// nearer end where it does not. The decay goes from a fifth of a second to 20, the
/// pre-delay from 1 ms to 200, the low cut from 20 Hz to 500, the others to one; the
/// diffusion's gain is 72 hundredths of its control. What the lines hold stays.
pub proof fn a_hall_takes_its_controls(hall: Hall<Fixed>, id: u32, value: Fixed)
    ensures
        ({
            let after = hall_taking(hall, id, value);
            let was = hall.params;
            let now = after.params;
            let v = value.raw as int;
            let f = FRACTION as int;
            &&& id == 0 ==> held(v, 0, f, now.size) && now == (ReverbParams {
                size: now.size,
                ..was
            }) && after.size_dirty && after.feedback_dirty
            &&& id == 1 ==> held(v, 858_993_459, 20 * f, now.decay_s) && now == (ReverbParams {
                decay_s: now.decay_s,
                ..was
            }) && after.feedback_dirty
            &&& id == 2 ==> held(v, 0, f, now.damping) && now == (ReverbParams {
                damping: now.damping,
                ..was
            }) && after.damping_dirty
            &&& id == 3 ==> held(v, f, 200 * f, now.predelay_ms) && now == (ReverbParams {
                predelay_ms: now.predelay_ms,
                ..was
            }) && after.predelay_samples == (Smoothed {
                target: predelay_of(now.predelay_ms, hall.sample_rate),
                ..hall.predelay_samples
            })
            &&& id == 4 ==> held(v, 0, f, now.diffusion) && now == (ReverbParams {
                diffusion: now.diffusion,
                ..was
            }) && after.diffusion == (Smoothed {
                target: after.diffusion.target,
                ..hall.diffusion
            }) && magnitude(100 * after.diffusion.target.raw - 72 * now.diffusion.raw) <= 200
            &&& id == 5 ==> held(v, 0, f, now.width) && now == (ReverbParams {
                width: now.width,
                ..was
            }) && after.width == (Smoothed { target: now.width, ..hall.width })
            &&& id == 6 ==> held(v, 0, f, now.modulation) && now == (ReverbParams {
                modulation: now.modulation,
                ..was
            }) && after.modulation_dirty
            &&& id == 7 ==> held(v, 20 * f, 500 * f, now.low_cut_hz) && now == (ReverbParams {
                low_cut_hz: now.low_cut_hz,
                ..was
            })
            &&& id > 7 ==> after == hall
            &&& id != 3 ==> after.predelay_samples == hall.predelay_samples
            &&& id != 4 ==> after.diffusion == hall.diffusion
            &&& id != 5 ==> after.width == hall.width
            &&& id != 7 ==> after.low_cut == hall.low_cut
            &&& after.low_cut.state == hall.low_cut.state
            &&& after.lines == hall.lines
            &&& after.predelay == hall.predelay
            &&& after.diffusers == hall.diffusers
        }),
{
    let f = FRACTION as int;
    a_ratio_is_exact_to_a_count(2, 10);
    a_ratio_is_exact_to_a_count(72, 100);
    let part = ratio_of::<Fixed>(72, 100);
    let unit = crate::num::clamp_of(value, Fixed::of_spec(0), Fixed::of_spec(1));
    a_share_is_exact_to_a_count(unit, part);
    let x = unit.times(part).raw as int;
    let s = unit.raw as int;
    let g = part.raw as int;
    assert(-200 <= 100 * x - 72 * s <= 200) by (nonlinear_arith)
        requires
            -f < f * x - s * g < f,
            100 * g <= 72 * f < 100 * g + 100,
            0 <= s <= f,
            f == 0x1_0000_0000,
    {
        let e = f * x - s * g;
        let y = 72 * f - 100 * g;
        assert(f * (100 * x - 72 * s) == 100 * e - s * y);
        assert(0 <= s * y <= f * 100);
        assert(-(f * 200) <= f * (100 * x - 72 * s) <= f * 200);
    }
}

} // verus!
