//! What a plate does, in counts.

use vstd::prelude::*;

use crate::filter::leaked;
use crate::num::{
    a_product_is_exact_to_a_count, a_ratio_is_exact_to_a_count, a_share_is_exact_to_a_count,
    clamp_of, held, is_gain, magnitude, min_of, nothing_times, products_commute, ratio_of,
    times_one, within, Fixed, Sample, FRACTION,
};
use crate::plate::{
    allpass_after, allpass_chain, allpass_out, comb_after, comb_damped, comb_decaying, comb_out,
    comb_sized, comb_sum, plate_dry, plate_input, plate_multiplier_of, plate_new, plate_next,
    plate_out, plate_predelay_of, plate_taking, scale_len_of, sheet_after, sheet_damped,
    sheet_decaying, sheet_out, sheet_sized, AllpassState, CombState, Plate, PlateParams, Sheet,
};
use crate::ring::{heard, reachable, samples_back};
use crate::smooth::{glided, settled, smoothed_next, Smoothed};

verus! {

/// A memory read a whole number of samples back gives the sample that lies there,
/// exactly: one back is the newest.
pub proof fn a_whole_delay_reads_its_sample(past: Seq<Fixed>, whole: int)
    requires
        4 <= past.len() <= 0x4000_0000,
        1 <= whole <= past.len() - 2,
    ensures
        heard(past, Fixed::of_spec(whole as nat)) == past[whole - 1],
{
    let f = FRACTION as int;
    let zero = Fixed::of_spec(0);
    let delay = Fixed::of_spec(whole as nat);
    assert(reachable(past.len(), delay) == delay);
    assert((whole * f) / f == whole) by (nonlinear_arith)
        requires
            f == 0x1_0000_0000,
    ;
    assert(samples_back(past.len(), delay) == whole);
    times_one(past[whole - 1]);
    nothing_times(past[whole]);
    products_commute(past[whole], zero);
}

/// Both channels of a frame go into the plate alike: what it sends is a sixteenth
/// of their sum, to within a count, and exchanging them changes nothing.
pub proof fn both_channels_reach_a_plate_alike(plate: Plate<Fixed>, l: Fixed, r: Fixed)
    requires
        within(l, 0x1000_0000_0000_0000),
        within(r, 0x1000_0000_0000_0000),
        plate.predelay.len() > 0,
    ensures
        plate_next(plate, l, r) == plate_next(plate, r, l),
        magnitude(16 * plate_next(plate, l, r).predelay[0].raw - (l.raw + r.raw)) < 16,
{
    lemma_sent(l, r);
}

proof fn lemma_sent(l: Fixed, r: Fixed)
    requires
        within(l, 0x1000_0000_0000_0000),
        within(r, 0x1000_0000_0000_0000),
    ensures
        magnitude(16 * plate_dry(l, r).raw - (l.raw + r.raw)) < 16,
        within(plate_dry(l, r), 0x1000_0000_0000_0000),
        plate_dry(l, r) == plate_dry(r, l),
{
    let f = FRACTION as int;
    a_ratio_is_exact_to_a_count(1, 2);
    a_ratio_is_exact_to_a_count(1, 8);
    let sum = l.plus(r);
    let half = sum.times(ratio_of(1, 2));
    a_share_is_exact_to_a_count(sum, ratio_of(1, 2));
    a_share_is_exact_to_a_count(half, ratio_of(1, 8));
    assert(ratio_of::<Fixed>(1, 2).raw == 0x8000_0000);
    assert(ratio_of::<Fixed>(1, 8).raw == 0x2000_0000);
    let s = l.raw + r.raw;
    let h = half.raw as int;
    let e = half.times(ratio_of(1, 8)).raw as int;
    assert(sum.raw == s);
    assert(-1 <= 2 * h - s <= 1);
    let g = ratio_of::<Fixed>(1, 8).raw as int;
    assert(-f < f * e - h * g < f);
    assert(-7 <= 8 * e - h <= 7) by (nonlinear_arith)
        requires
            -f < f * e - h * g < f,
            g == 0x2000_0000,
            f == 0x1_0000_0000,
    ;
}

/// With no pre-delay a frame enters every comb of both channels at once: what
/// each writes is what it would have written of silence, and a sixteenth of the
/// frame's sum.
pub proof fn a_frame_enters_every_comb(plate: Plate<Fixed>, l: Fixed, r: Fixed, i: int)
    requires
        within(l, 0x1000_0000_0000_0000),
        within(r, 0x1000_0000_0000_0000),
        0 <= i < plate.left.combs.len(),
        plate.right.combs.len() == plate.left.combs.len(),
        plate.left.combs[i].past.len() > 0,
        plate.right.combs[i].past.len() > 0,
        plate_next(plate, l, r).predelay_samples.value.raw <= 0,
        within(
            plate_next(plate, Fixed::of_spec(0), Fixed::of_spec(0)).left.combs[i].past[0],
            0x1000_0000_0000_0000,
        ),
        within(
            plate_next(plate, Fixed::of_spec(0), Fixed::of_spec(0)).right.combs[i].past[0],
            0x1000_0000_0000_0000,
        ),
    ensures
        ({
            let silent = plate_next(plate, Fixed::of_spec(0), Fixed::of_spec(0));
            let after = plate_next(plate, l, r);
            let left = after.left.combs[i].past[0].raw - silent.left.combs[i].past[0].raw;
            let right = after.right.combs[i].past[0].raw - silent.right.combs[i].past[0].raw;
            &&& left == right
            &&& magnitude(16 * left - (l.raw + r.raw)) < 16
        }),
{
    let zero = Fixed::of_spec(0);
    lemma_sent(l, r);
    lemma_sent(zero, zero);
    a_ratio_is_exact_to_a_count(1, 8_388_608);
    let silent = plate_next(plate, zero, zero);
    let after = plate_next(plate, l, r);
    nothing_times(ratio_of(1, 2));
    nothing_times(ratio_of(1, 8));
    assert(plate_dry(zero, zero) == zero);
    assert(plate_input(plate, zero, zero) == zero);
    assert(plate_input(plate, l, r) == plate_dry(l, r));
    lemma_comb_input(plate.left, plate.size_glide, plate_dry(l, r), i);
    lemma_comb_input(plate.right, plate.size_glide, plate_dry(l, r), i);
}

proof fn lemma_comb_input(sheet: Sheet<Fixed>, glide: Fixed, input: Fixed, i: int)
    requires
        0 <= i < sheet.combs.len(),
        sheet.combs[i].past.len() > 0,
        within(input, 0x1000_0000_0000_0000),
        within(
            sheet_after(sheet, Fixed::of_spec(0), glide).combs[i].past[0],
            0x1000_0000_0000_0000,
        ),
    ensures
        sheet_after(sheet, input, glide).combs[i].past[0].raw == input.raw + sheet_after(
            sheet,
            Fixed::of_spec(0),
            glide,
        ).combs[i].past[0].raw,
{
    let c = sheet.combs[i];
    assert(sheet_after(sheet, input, glide).combs[i] == comb_after(c, input, glide));
    assert(sheet_after(sheet, Fixed::of_spec(0), glide).combs[i] == comb_after(
        c,
        Fixed::of_spec(0),
        glide,
    ));
}

/// A pre-delay of `whole` samples is one of exactly so many frames: what enters
/// the combs is what was sent so many frames before, and nothing of this frame.
pub proof fn a_pre_delay_is_of_its_frames(
    plate: Plate<Fixed>,
    l: Fixed,
    r: Fixed,
    whole: int,
    i: int,
)
    requires
        4 <= plate.predelay.len() <= 0x4000_0000,
        1 <= whole <= plate.predelay.len() - 2,
        plate_next(plate, l, r).predelay_samples.value == Fixed::of_spec(whole as nat),
        0 <= i < plate.left.combs.len(),
        plate.right.combs.len() == plate.left.combs.len(),
        plate.left.combs[i].past.len() > 0,
        plate.right.combs[i].past.len() > 0,
        within(plate.predelay[whole - 1], 0x1000_0000_0000_0000),
        within(
            sheet_after(plate.left, Fixed::of_spec(0), plate.size_glide).combs[i].past[0],
            0x1000_0000_0000_0000,
        ),
        within(
            sheet_after(plate.right, Fixed::of_spec(0), plate.size_glide).combs[i].past[0],
            0x1000_0000_0000_0000,
        ),
    ensures
        ({
            let zero = Fixed::of_spec(0);
            let after = plate_next(plate, l, r);
            let sent = plate.predelay[whole - 1].raw;
            &&& after.left.combs[i].past[0].raw == sent + sheet_after(
                plate.left,
                zero,
                plate.size_glide,
            ).combs[i].past[0].raw
            &&& after.right.combs[i].past[0].raw == sent + sheet_after(
                plate.right,
                zero,
                plate.size_glide,
            ).combs[i].past[0].raw
            &&& after.left == plate_next(plate, zero, zero).left
            &&& after.right == plate_next(plate, zero, zero).right
            &&& after.predelay.len() == plate.predelay.len()
            &&& after.predelay[whole] == plate.predelay[whole - 1]
        }),
{
    a_whole_delay_reads_its_sample(plate.predelay, whole);
    a_ratio_is_exact_to_a_count(1, 8_388_608);
    let input = plate.predelay[whole - 1];
    assert(plate_input(plate, l, r) == input);
    lemma_comb_input(plate.left, plate.size_glide, input, i);
    lemma_comb_input(plate.right, plate.size_glide, input, i);
}

/// What a comb does with an input: it hears the sample that is its length old,
/// its damping moves its share of the way to it, and it writes over the input the
/// feedback of what the damping lets through.
pub proof fn a_comb_feeds_back_what_it_hears(
    c: CombState<Fixed>,
    input: Fixed,
    glide: Fixed,
    whole: int,
)
    requires
        4 <= c.past.len() <= 0x4000_0000,
        1 <= whole <= c.past.len() - 2,
        c.len == Fixed::of_spec(whole as nat),
        c.target_len == c.len,
        is_gain(c.feedback),
        is_gain(c.damp.coeff),
        within(c.past[whole - 1], 0x800_0000_0000_0000),
        within(c.damp.state, 0x800_0000_0000_0000),
        within(input, 0x800_0000_0000_0000),
    ensures
        ({
            let after = comb_after(c, input, glide);
            let out = comb_out(c, glide).raw;
            &&& out == c.past[whole - 1].raw
            &&& magnitude(
                FRACTION * (after.damp.state.raw - c.damp.state.raw) - (out - c.damp.state.raw)
                    * c.damp.coeff.raw,
            ) < FRACTION
            &&& magnitude(
                FRACTION * (after.past[0].raw - input.raw) - after.damp.state.raw * c.feedback.raw,
            ) < FRACTION
            &&& after.past[whole] == c.past[whole - 1]
            &&& after.len == c.len
            &&& after.target_len == c.target_len
            &&& after.feedback == c.feedback
            &&& after.damp.coeff == c.damp.coeff
        }),
{
    nothing_times(glide);
    assert(glided(c.len, c.target_len, glide) == c.len);
    a_whole_delay_reads_its_sample(c.past, whole);
    let out = comb_out(c, glide);
    a_share_is_exact_to_a_count(out.minus(c.damp.state), c.damp.coeff);
    let damped = leaked(c.damp.state, out, c.damp.coeff);
    a_share_is_exact_to_a_count(damped, c.feedback);
}

/// What an allpass does with an input: it stores the input and half of what it
/// holds, and hands on what it holds less half of what it stored, each to within
/// a count.
pub proof fn an_allpass_stores_and_hands_on(
    a: AllpassState<Fixed>,
    input: Fixed,
    glide: Fixed,
    whole: int,
)
    requires
        4 <= a.past.len() <= 0x4000_0000,
        1 <= whole <= a.past.len() - 2,
        a.len == Fixed::of_spec(whole as nat),
        a.target_len == a.len,
        within(a.past[whole - 1], 0x800_0000_0000_0000),
        within(input, 0x800_0000_0000_0000),
    ensures
        ({
            let after = allpass_after(a, input, glide);
            let out = allpass_out(a, input, glide).raw;
            let kept = a.past[whole - 1].raw;
            let stored = after.past[0].raw;
            &&& magnitude(2 * stored - (2 * input.raw + kept)) <= 1
            &&& magnitude(2 * out - (2 * kept - stored)) <= 1
            &&& after.past[whole] == a.past[whole - 1]
            &&& after.len == a.len
        }),
{
    nothing_times(glide);
    assert(glided(a.len, a.target_len, glide) == a.len);
    a_whole_delay_reads_its_sample(a.past, whole);
    let kept = a.past[whole - 1];
    a_ratio_is_exact_to_a_count(1, 2);
    assert(ratio_of::<Fixed>(1, 2).raw == 0x8000_0000);
    a_share_is_exact_to_a_count(kept, ratio_of(1, 2));
    let stored = input.plus(kept.times(ratio_of(1, 2)));
    a_share_is_exact_to_a_count(stored, ratio_of(1, 2));
}

/// A channel whose allpasses hold nothing puts out a sixteenth of what its eight
/// combs hear together: half of it, turned over, through each of the four.
pub proof fn a_channel_sums_its_combs(sheet: Sheet<Fixed>, glide: Fixed)
    requires
        sheet.combs.len() == 8,
        sheet.allpasses.len() == 4,
        forall|i: int| 0 <= i < 8 ==> within(#[trigger] comb_out(sheet.combs[i], glide), 0x100_0000_0000_0000),
        forall|i: int|
            0 <= i < 4 ==> heard(
                (#[trigger] sheet.allpasses[i]).past,
                glided(sheet.allpasses[i].len, sheet.allpasses[i].target_len, glide),
            ) == Fixed::of_spec(0),
    ensures
        magnitude(
            16 * sheet_out(sheet, glide).raw - (comb_out(sheet.combs[0], glide).raw + comb_out(
                sheet.combs[1],
                glide,
            ).raw + comb_out(sheet.combs[2], glide).raw + comb_out(sheet.combs[3], glide).raw
                + comb_out(sheet.combs[4], glide).raw + comb_out(sheet.combs[5], glide).raw
                + comb_out(sheet.combs[6], glide).raw + comb_out(sheet.combs[7], glide).raw),
        ) <= 16,
{
    reveal_with_fuel(comb_sum, 9);
    reveal_with_fuel(allpass_chain, 5);
    let sum = comb_sum(sheet.combs, glide, 8);
    assert(within(comb_out(sheet.combs[0], glide), 0x100_0000_0000_0000));
    assert(within(comb_out(sheet.combs[1], glide), 0x100_0000_0000_0000));
    assert(within(comb_out(sheet.combs[2], glide), 0x100_0000_0000_0000));
    assert(within(comb_out(sheet.combs[3], glide), 0x100_0000_0000_0000));
    assert(within(comb_out(sheet.combs[4], glide), 0x100_0000_0000_0000));
    assert(within(comb_out(sheet.combs[5], glide), 0x100_0000_0000_0000));
    assert(within(comb_out(sheet.combs[6], glide), 0x100_0000_0000_0000));
    assert(within(comb_out(sheet.combs[7], glide), 0x100_0000_0000_0000));
    let one = allpass_chain(sheet.allpasses, sum, glide, 1);
    let two = allpass_chain(sheet.allpasses, sum, glide, 2);
    let three = allpass_chain(sheet.allpasses, sum, glide, 3);
    let four = allpass_chain(sheet.allpasses, sum, glide, 4);
    lemma_empty_allpass(sheet.allpasses[0], sum, glide);
    lemma_empty_allpass(sheet.allpasses[1], one, glide);
    lemma_empty_allpass(sheet.allpasses[2], two, glide);
    lemma_empty_allpass(sheet.allpasses[3], three, glide);
}

proof fn lemma_empty_allpass(a: AllpassState<Fixed>, input: Fixed, glide: Fixed)
    requires
        heard(a.past, glided(a.len, a.target_len, glide)) == Fixed::of_spec(0),
        within(input, 0x1000_0000_0000_0000),
    ensures
        magnitude(2 * allpass_out(a, input, glide).raw + input.raw) <= 1,
        within(allpass_out(a, input, glide), 0x1000_0000_0000_0000),
{
    a_ratio_is_exact_to_a_count(1, 2);
    assert(ratio_of::<Fixed>(1, 2).raw == 0x8000_0000);
    nothing_times(ratio_of(1, 2));
    a_share_is_exact_to_a_count(input, ratio_of(1, 2));
}

/// What comes out of a plate is one and four tenths of its channels' shares: the
/// left of the left sheet's own share and of the right sheet's other, and the
/// right the other way about.
pub proof fn a_plate_puts_out_its_shares(plate: Plate<Fixed>, l: Fixed, r: Fixed)
    requires
        is_gain(plate_next(plate, l, r).wet1.value),
        is_gain(plate_next(plate, l, r).wet2.value),
        within(sheet_out(plate.left, plate.size_glide), 0x100_0000_0000_0000),
        within(sheet_out(plate.right, plate.size_glide), 0x100_0000_0000_0000),
    ensures
        ({
            let after = plate_next(plate, l, r);
            let a = sheet_out(plate.left, plate.size_glide).raw as int;
            let b = sheet_out(plate.right, plate.size_glide).raw as int;
            let own = after.wet1.value.raw as int;
            let other = after.wet2.value.raw as int;
            let out = plate_out(plate);
            &&& shares_heard(out.0.raw as int, a, b, own, other)
            &&& shares_heard(out.1.raw as int, b, a, own, other)
        }),
{
    let a = sheet_out(plate.left, plate.size_glide);
    let b = sheet_out(plate.right, plate.size_glide);
    let own = smoothed_next(plate.wet1).value;
    let other = smoothed_next(plate.wet2).value;
    lemma_shares(a, b, own, other);
    lemma_shares(b, a, own, other);
}

/// Whether an output is one and four tenths of two numbers' shares, but for
/// rounding.
pub open spec fn shares_heard(out: int, a: int, b: int, own: int, other: int) -> bool {
    magnitude(10 * FRACTION * out - 14 * (a * own + b * other)) <= 40 * FRACTION + 4 * (magnitude(a)
        + magnitude(b))
}

proof fn lemma_shares(a: Fixed, b: Fixed, own: Fixed, other: Fixed)
    requires
        is_gain(own),
        is_gain(other),
        within(a, 0x100_0000_0000_0000),
        within(b, 0x100_0000_0000_0000),
    ensures
        shares_heard(
            a.times(own).plus(b.times(other)).times(ratio_of(14, 10)).raw as int,
            a.raw as int,
            b.raw as int,
            own.raw as int,
            other.raw as int,
        ),
{
    let f = FRACTION as int;
    a_share_is_exact_to_a_count(a, own);
    a_share_is_exact_to_a_count(b, other);
    a_ratio_is_exact_to_a_count(14, 10);
    let level = ratio_of::<Fixed>(14, 10);
    assert(level.raw == 6_012_954_214);
    let sum = a.times(own).plus(b.times(other));
    let s = sum.raw as int;
    assert(-(0x7fff_ffff_ffff_ffff * f) <= s * 6_012_954_214 <= 0x7fff_ffff_ffff_ffff * f)
        by (nonlinear_arith)
        requires
            -0x200_0000_0000_0000 <= s <= 0x200_0000_0000_0000,
            f == 0x1_0000_0000,
    ;
    a_product_is_exact_to_a_count(sum, level);
}

/// The sheets of a plate are one another's: exchanged, they put out the channels
/// exchanged.
pub proof fn a_plate_exchanged_sounds_exchanged(plate: Plate<Fixed>)
    ensures
        ({
            let other = Plate { left: plate.right, right: plate.left, ..plate };
            plate_out(other) == (plate_out(plate).1, plate_out(plate).0)
        }),
{
}

/// A tap's length is its tuning at 44.1 kHz, times a half and the size, at the
/// rate there is, to the nearest sample.
pub proof fn a_tap_is_scaled_to_its_rate(base: nat, sample_rate: u32, multiplier: Fixed)
    requires
        base <= 2_000,
        sample_rate <= 0x4_0000,
        0 <= multiplier.raw <= 2 * FRACTION,
    ensures
        ({
            let len = scale_len_of(base, sample_rate, multiplier);
            let wanted = base * multiplier.raw * sample_rate;
            &&& len >= 1
            &&& len > 1 ==> magnitude(44_100 * FRACTION * len - wanted) <= 22_050 * FRACTION + 44_100
            &&& len == 1 ==> wanted <= 44_100 * FRACTION + 22_050 * FRACTION + 44_100
        }),
{
    let f = FRACTION as int;
    let b = base as int;
    let m = multiplier.raw as int;
    let n = sample_rate as int;
    assert(0 <= b * m <= 0x1000_0000_0000 && (b * f) * m / f == b * m && 0 <= (b * f) * m)
        by (nonlinear_arith)
        requires
            0 <= b <= 2_000,
            0 <= m <= 2 * f,
            f == 0x1_0000_0000,
    {
        assert((b * f) * m == (b * m) * f);
    }
    let first = Fixed::of_spec(base).times(multiplier);
    assert(first.raw == b * m);
    let w = (b * m) * n;
    assert(0 <= w <= 0x4000_0000_0000_0000 && (b * m) * (n * f) / f == w && 0 <= (b * m) * (n * f))
        by (nonlinear_arith)
        requires
            w == (b * m) * n,
            0 <= b * m <= 0x1000_0000_0000,
            0 <= n <= 0x4_0000,
            f == 0x1_0000_0000,
    {
        assert((b * m) * (n * f) == ((b * m) * n) * f);
    }
    let second = first.times(Fixed::of_spec(sample_rate as nat));
    assert(second.raw == w);
    let q = (w * f) / (44_100 * f);
    assert(44_100 * q <= w < 44_100 * q + 44_100 && 0 <= q && 0 <= w * f) by (nonlinear_arith)
        requires
            q == (w * f) / (44_100 * f),
            0 <= w,
            f == 0x1_0000_0000,
    ;
    let third = second.over(Fixed::of_spec(44_100));
    assert(third.raw == q);
    let c = (q + f / 2) / f;
    assert(c * f <= q + f / 2 < c * f + f && 0 <= c && (c * f) / f == c) by (nonlinear_arith)
        requires
            c == (q + f / 2) / f,
            0 <= q,
            f == 0x1_0000_0000,
    ;
    assert(third.round_spec().raw == c * f);
    assert(third.round_spec().whole_spec() == c);
    assert(base * multiplier.raw * sample_rate == w);
}

/// A pre-delay in samples is a thousandth of its milliseconds times the rate, and
/// none is none.
pub proof fn a_pre_delay_is_its_milliseconds(predelay_ms: Fixed, sample_rate: u32)
    requires
        1 <= sample_rate <= 0x4_0000,
        0 <= predelay_ms.raw <= 200 * FRACTION,
    ensures
        ({
            let samples = plate_predelay_of(predelay_ms, sample_rate).raw;
            &&& magnitude(1_000 * samples - predelay_ms.raw * sample_rate) <= sample_rate * (
            predelay_ms.raw / 4_000_000 + 2_000)
            &&& predelay_ms.raw == 0 ==> samples == 0
        }),
{
    crate::level::a_span_is_its_milliseconds(predelay_ms, sample_rate);
    assert(clamp_of(predelay_ms, Fixed::of_spec(0), Fixed::of_spec(200)) == predelay_ms);
    assert(plate_predelay_of(predelay_ms, sample_rate) == crate::level::span_of(
        predelay_ms,
        sample_rate,
    ));
    if predelay_ms.raw == 0 {
        nothing_times(ratio_of(1, 1000));
        nothing_times(Fixed::of_spec(sample_rate as nat));
    }
}

/// A control of the plate takes its value where that lies in its range, and the
/// nearer end where it does not. A width moves the targets of the two shares: own
/// and other come to one, and differ by the width; a width of nothing makes them
/// equal. A pre-delay moves its lag's target. What the lines hold stays.
pub proof fn a_plate_takes_its_controls(plate: Plate<Fixed>, id: u32, value: Fixed)
    ensures
        ({
            let after = plate_taking(plate, id, value);
            let was = plate.params;
            let now = after.params;
            let v = value.raw as int;
            let f = FRACTION as int;
            &&& id == 0 ==> held(v, 0, f, now.size) && now == (PlateParams { size: now.size, ..was })
            &&& id == 1 ==> held(v, 858_993_459, 10 * f, now.decay_s) && now == (PlateParams {
                decay_s: now.decay_s,
                ..was
            })
            &&& id == 2 ==> held(v, 0, f, now.damping) && now == (PlateParams {
                damping: now.damping,
                ..was
            })
            &&& id == 3 ==> held(v, 0, f, now.width) && after == (Plate {
                params: PlateParams { width: now.width, ..was },
                wet1: Smoothed { target: after.wet1.target, ..plate.wet1 },
                wet2: Smoothed { target: after.wet2.target, ..plate.wet2 },
                ..plate
            })
            &&& id == 3 ==> after.wet1.target.raw + after.wet2.target.raw == f
            &&& id == 3 ==> magnitude(
                after.wet1.target.raw - after.wet2.target.raw - now.width.raw,
            ) <= 1
            &&& id == 4 ==> held(v, 0, 200 * f, now.predelay_ms) && after == (Plate {
                params: PlateParams { predelay_ms: now.predelay_ms, ..was },
                predelay_samples: Smoothed {
                    target: plate_predelay_of(now.predelay_ms, plate.sample_rate),
                    ..plate.predelay_samples
                },
                ..plate
            })
            &&& id > 4 ==> after == plate
            &&& id != 3 ==> after.wet1 == plate.wet1 && after.wet2 == plate.wet2
            &&& id != 4 ==> after.predelay_samples == plate.predelay_samples
            &&& after.predelay == plate.predelay
            &&& after.sample_rate == plate.sample_rate
            &&& after.size_glide == plate.size_glide
        }),
{
    a_ratio_is_exact_to_a_count(2, 10);
    a_ratio_is_exact_to_a_count(1, 2);
    assert(ratio_of::<Fixed>(1, 2).raw == 0x8000_0000);
    let unit = clamp_of(value, Fixed::of_spec(0), Fixed::of_spec(1));
    a_share_is_exact_to_a_count(unit, ratio_of(1, 2));
}

/// A size, a decay and a damping are for every comb of both channels alike: its
/// length, its gain and its damping follow, and what it remembers stays.
pub proof fn a_control_reaches_every_comb(
    plate: Plate<Fixed>,
    id: u32,
    value: Fixed,
    i: int,
)
    requires
        0 <= i < plate.left.combs.len(),
        plate.right.combs.len() == plate.left.combs.len(),
    ensures
        ({
            let after = plate_taking(plate, id, value);
            &&& comb_controlled(plate.left.combs[i], after.left.combs[i], after, id)
            &&& comb_controlled(plate.right.combs[i], after.right.combs[i], after, id)
        }),
{
    a_ratio_is_exact_to_a_count(97, 100);
    a_ratio_is_exact_to_a_count(1, 2);
    a_ratio_is_exact_to_a_count(3, 2);
    let unit = clamp_of(value, Fixed::of_spec(0), Fixed::of_spec(1));
    let whole = ratio_of::<Fixed>(3, 2).minus(ratio_of(1, 2));
    assert(whole == Fixed::of_spec(1));
    times_one(unit);
    assert(clamp_of(unit, Fixed::of_spec(0), Fixed::of_spec(1)) == unit);
    assert(plate_multiplier_of(unit) == ratio_of::<Fixed>(1, 2).plus(unit));
    let after = plate_taking(plate, id, value);
    lemma_comb_controlled(plate.left, after.left, after, id, i);
    lemma_comb_controlled(plate.right, after.right, after, id, i);
}

proof fn lemma_comb_controlled(
    was: Sheet<Fixed>,
    now: Sheet<Fixed>,
    plate: Plate<Fixed>,
    id: u32,
    i: int,
)
    requires
        0 <= i < was.combs.len(),
        id == 0 ==> now == sheet_decaying(
            sheet_sized(was, plate.sample_rate, plate.params.size),
            plate.sample_rate,
            plate.params.decay_s,
        ),
        id == 0 ==> plate_multiplier_of(plate.params.size) == ratio_of::<Fixed>(1, 2).plus(
            plate.params.size,
        ),
        id == 1 ==> now == sheet_decaying(was, plate.sample_rate, plate.params.decay_s),
        id == 2 ==> now == sheet_damped(was, plate.sample_rate, plate.params.damping),
        id > 2 ==> now == was,
    ensures
        comb_controlled(was.combs[i], now.combs[i], plate, id),
{
    let c = was.combs[i];
    a_ratio_is_exact_to_a_count(97, 100);
    if id == 0 {
        let sized = comb_sized(c, plate.sample_rate, plate.params.size);
        assert(sheet_sized(was, plate.sample_rate, plate.params.size).combs[i] == sized);
        assert(now.combs[i] == comb_decaying(sized, plate.sample_rate, plate.params.decay_s));
    } else if id == 1 {
        assert(now.combs[i] == comb_decaying(c, plate.sample_rate, plate.params.decay_s));
    } else if id == 2 {
        assert(now.combs[i] == comb_damped(c, plate.sample_rate, plate.params.damping));
    }
}

/// Whether a comb followed its control, and no more of it than that.
pub open spec fn comb_controlled(
    was: CombState<Fixed>,
    now: CombState<Fixed>,
    plate: Plate<Fixed>,
    id: u32,
) -> bool {
    let rate = plate.sample_rate;
    &&& now.past == was.past
    &&& now.base_len == was.base_len
    &&& now.len == was.len
    &&& now.damp.state == was.damp.state
    &&& id != 0 ==> now.target_len == was.target_len
    &&& id > 1 ==> now.feedback == was.feedback
    &&& id <= 1 ==> 0 <= now.feedback.raw && 100 * now.feedback.raw <= 97 * FRACTION
    &&& id != 2 ==> now.damp == was.damp
    &&& id == 0 ==> now.target_len == min_of(
        Fixed::of_spec(
            scale_len_of(
                was.base_len as nat,
                rate,
                ratio_of::<Fixed>(1, 2).plus(plate.params.size),
            ),
        ),
        Fixed::of_spec(was.past.len()).minus(Fixed::of_spec(2)),
    )
}

/// The combs of a new plate are of eight tunings on the left, and 23 samples
/// longer on the right; so are its four allpasses.
pub proof fn a_new_plate_is_tuned(params: PlateParams<Fixed>, sample_rate: u32, i: int)
    requires
        0 <= i < 8,
    ensures
        ({
            let plate = plate_new(params, sample_rate);
            let c = plate.left.combs;
            let a = plate.left.allpasses;
            &&& plate.params == params
            &&& c.len() == 8 && plate.right.combs.len() == 8
            &&& a.len() == 4 && plate.right.allpasses.len() == 4
            &&& c[0].base_len == 1116 && c[1].base_len == 1188 && c[2].base_len == 1277
            &&& c[3].base_len == 1356 && c[4].base_len == 1422 && c[5].base_len == 1491
            &&& c[6].base_len == 1557 && c[7].base_len == 1617
            &&& a[0].base_len == 556 && a[1].base_len == 441
            &&& a[2].base_len == 341 && a[3].base_len == 225
            &&& plate.right.combs[i].base_len == c[i].base_len + 23
            &&& i < 4 ==> plate.right.allpasses[i].base_len == a[i].base_len + 23
            &&& settled(plate.wet1) && settled(plate.wet2) && settled(plate.predelay_samples)
        }),
{
}

} // verus!
