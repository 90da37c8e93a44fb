//! What every stereo device does alike: its two channels, its blend and its
//! controls.

use vstd::prelude::*;

use crate::bitcrush::{
    crush_frame, crush_taking, BitcrushEffect, BitcrushParams, BitcrushStyle,
};
use crate::curves::Curves;
use crate::delay::{delay_frame, Delaying};
use crate::delayline::Tape;
use crate::drive::{
    a_flat_tilt_is_the_identity, blend_of, drive_frame, drive_taking, DriveCurve, DriveParams,
    Driving, Saturator,
};
use crate::eq::{bank_next, bank_out, Bank};
use crate::filter::SvfCoeffs;
use crate::filter_effect::{
    cascade_ticked, filter_frame, filter_taking, FilterEffect, FilterMode, FilterParams,
    FilterSlope, SvfCascade,
};
use crate::level::linear_of;
use crate::num::{
    a_product_is_exact_to_a_count, a_share_is_exact_to_a_count, held, is_gain, magnitude, times_one,
    within, Fixed, Sample, FRACTION,
};
use crate::preamp::{
    preamp_frame, preamp_taking, PreampEffect, PreampParams, PreampVoicing, Stage,
};
use crate::smooth::{smoothed_next, Smoothed};

verus! {

/// A drive with its channels exchanged.
pub open spec fn drive_exchanged<S, O>(d: Driving<S, O>) -> Driving<S, O> {
    Driving {
        left: d.right,
        right: d.left,
        dry_l: d.dry_r,
        dry_r: d.dry_l,
        tone_lp_l: d.tone_lp_r,
        tone_lp_r: d.tone_lp_l,
        ..d
    }
}

/// The channels of a drive are apart and alike: exchanged, they come out
/// exchanged.
pub proof fn the_channels_of_a_drive_are_alike<S: Sample, O: Saturator<S>>(
    d: Driving<S, O>,
    l: S,
    r: S,
)
    ensures
        ({
            let (after, out) = drive_frame(d, l, r);
            drive_frame(drive_exchanged(d), r, l) == (drive_exchanged(after), (out.1, out.0))
        }),
{
}

/// A preamp with its channels exchanged.
pub open spec fn preamp_exchanged<S, P>(p: PreampEffect<S, P>) -> PreampEffect<S, P> {
    PreampEffect { left: p.right, right: p.left, ..p }
}

/// So are those of a preamp.
pub proof fn the_channels_of_a_preamp_are_alike<S: Sample, P: Stage<S>>(
    p: PreampEffect<S, P>,
    l: S,
    r: S,
)
    ensures
        ({
            let (after, out) = preamp_frame(p, l, r);
            preamp_frame(preamp_exchanged(p), r, l) == (preamp_exchanged(after), (out.1, out.0))
        }),
{
}

/// A crusher with its channels exchanged.
pub open spec fn crush_exchanged<S>(c: BitcrushEffect<S>) -> BitcrushEffect<S> {
    BitcrushEffect {
        held_l: c.held_r,
        held_r: c.held_l,
        prev_held_l: c.prev_held_r,
        prev_held_r: c.prev_held_l,
        noise_l: c.noise_r,
        noise_r: c.noise_l,
        ..c
    }
}

/// So are those of a crusher.
pub proof fn the_channels_of_a_crusher_are_alike<S: Curves>(c: BitcrushEffect<S>, l: S, r: S)
    ensures
        ({
            let (after, out) = crush_frame(c, l, r);
            crush_frame(crush_exchanged(c), r, l) == (crush_exchanged(after), (out.1, out.0))
        }),
{
}

/// A filter with its channels exchanged.
pub open spec fn filter_exchanged<S>(f: FilterEffect<S>) -> FilterEffect<S> {
    FilterEffect { left: f.right, right: f.left, ..f }
}

/// So are those of a filter.
pub proof fn the_channels_of_a_filter_are_alike<S: Curves>(
    f: FilterEffect<S>,
    coeffs: SvfCoeffs<S>,
    l: S,
    r: S,
)
    ensures
        ({
            let (after, out) = filter_frame(f, coeffs, l, r);
            filter_frame(filter_exchanged(f), coeffs, r, l) == (
                filter_exchanged(after),
                (out.1, out.0),
            )
        }),
{
}

/// A bank with its channels exchanged.
pub open spec fn bank_exchanged<S>(bank: Bank<S>) -> Bank<S> {
    Bank { left: bank.right, right: bank.left, ..bank }
}

/// So are those of an equalizer.
pub proof fn the_channels_of_a_bank_are_alike<S: Sample>(bank: Bank<S>, l: S, r: S)
    ensures
        bank_out(bank_exchanged(bank), r, l) == (bank_out(bank, l, r).1, bank_out(bank, l, r).0),
        bank_next(bank_exchanged(bank), r, l) == bank_exchanged(bank_next(bank, l, r)),
{
}

/// A delay with its channels exchanged.
pub open spec fn delay_exchanged<S>(d: Delaying<S>) -> Delaying<S> {
    Delaying {
        line: Tape { l: d.line.r, r: d.line.l },
        damp_l: d.damp_r,
        damp_r: d.damp_l,
        ..d
    }
}

/// So are those of a delay.
pub proof fn the_channels_of_a_delay_are_alike<S: Sample>(d: Delaying<S>, l: S, r: S)
    ensures
        ({
            let (after, out) = delay_frame(d, l, r);
            delay_frame(delay_exchanged(d), r, l) == (delay_exchanged(after), (out.1, out.0))
        }),
{
}

/// Whether an output is the level of a blend: what is dry, and the mix of the way
/// to what is wet, to within four counts.
pub open spec fn blends(out: int, dry: int, wet: int, mix: int, output: int) -> bool {
    magnitude(FRACTION * FRACTION * out - output * (FRACTION * dry + mix * (wet - dry))) <= 4
        * FRACTION * FRACTION
}

proof fn lemma_blend(dry: Fixed, wet: Fixed, full: Fixed, mix: Fixed, output: Fixed)
    requires
        is_gain(mix),
        0 <= output.raw <= 16 * FRACTION,
        full == blend_of(dry, wet, Fixed::of_spec(1), Fixed::of_spec(1)),
        within(full, 0x100_0000_0000_0000),
        within(dry, 0x100_0000_0000_0000),
    ensures
        magnitude(
            FRACTION * FRACTION * blend_of(dry, wet, mix, output).raw - output.raw * (FRACTION
                * dry.raw + mix.raw * (full.raw - dry.raw)),
        ) <= FRACTION * (output.raw + FRACTION),
        wet == full,
{
    let f = FRACTION as int;
    let way = wet.minus(dry);
    times_one(way);
    times_one(dry.plus(way));
    assert(dry.plus(way) == full);
    assert(wet == full);
    a_share_is_exact_to_a_count(way, mix);
    let sum = dry.plus(way.times(mix));
    let s = sum.raw as int;
    let k = output.raw as int;
    assert(-(0x7fff_ffff_ffff_ffff * f) <= s * k <= 0x7fff_ffff_ffff_ffff * f) by (nonlinear_arith)
        requires
            -0x400_0000_0000_0000 <= s <= 0x400_0000_0000_0000,
            0 <= k <= 16 * f,
            f == 0x1_0000_0000,
    ;
    a_product_is_exact_to_a_count(sum, output);
    let out = sum.times(output).raw as int;
    let w = f * dry.raw + mix.raw * (full.raw - dry.raw);
    let e = f * f * out - k * w;
    assert(way.raw * mix.raw == mix.raw * (full.raw - dry.raw)) by (nonlinear_arith)
        requires
            way.raw == full.raw - dry.raw,
    ;
    assert(-f < f * s - w < f);
    assert(-(f * (k + f)) <= e <= f * (k + f)) by (nonlinear_arith)
        requires
            e == f * f * out - k * w,
            -f < f * out - s * k < f,
            -f < f * s - w < f,
            0 <= k,
            f == 0x1_0000_0000,
    {
        let x = f * out - s * k;
        let y = f * s - w;
        assert(e == f * x + k * y) by {
            assert(f * (f * out - s * k) == f * f * out - k * (f * s));
            assert(k * (f * s - w) == k * (f * s) - k * w);
        }
        assert(-(f * f) <= f * x <= f * f);
        assert(-(k * f) <= k * y <= k * f);
    }
}

/// A drive blends: what it puts out is its output level of the delayed dry sound
/// and the mix of the way to what the same drive puts out at a mix and a level of
/// one.
pub proof fn a_drive_blends<O: Saturator<Fixed>>(
    d: Driving<Fixed, O>,
    full: Driving<Fixed, O>,
    l: Fixed,
    r: Fixed,
)
    requires
        full == (Driving { mix: full.mix, output: full.output, ..d }),
        smoothed_next(full.mix).value == Fixed::of_spec(1),
        smoothed_next(full.output).value == Fixed::of_spec(1),
        is_gain(smoothed_next(d.mix).value),
        0 <= smoothed_next(d.output).value.raw <= 2 * FRACTION,
        within(drive_frame(full, l, r).1.0, 0x100_0000_0000_0000),
        within(drive_frame(full, l, r).1.1, 0x100_0000_0000_0000),
        within(d.dry_l.last(), 0x100_0000_0000_0000),
        within(d.dry_r.last(), 0x100_0000_0000_0000),
    ensures
        ({
            let (after, out) = drive_frame(d, l, r);
            let wet = drive_frame(full, l, r).1;
            let mix = after.mix.value.raw as int;
            let output = after.output.value.raw as int;
            &&& blends(out.0.raw as int, d.dry_l.last().raw as int, wet.0.raw as int, mix, output)
            &&& blends(out.1.raw as int, d.dry_r.last().raw as int, wet.1.raw as int, mix, output)
        }),
{
    let mix = smoothed_next(d.mix).value;
    let output = smoothed_next(d.output).value;
    let wet_l = lemma_drive_wet(d, full, l, r).0;
    let wet_r = lemma_drive_wet(d, full, l, r).1;
    let heard = drive_frame(full, l, r).1;
    lemma_blend(d.dry_l.last(), wet_l, heard.0, mix, output);
    lemma_blend(d.dry_r.last(), wet_r, heard.1, mix, output);
    let f = FRACTION as int;
    assert(f * (output.raw + f) <= 4 * f * f) by (nonlinear_arith)
        requires
            output.raw <= 2 * f,
            f == 0x1_0000_0000,
    ;
}

proof fn lemma_drive_wet<O: Saturator<Fixed>>(
    d: Driving<Fixed, O>,
    full: Driving<Fixed, O>,
    l: Fixed,
    r: Fixed,
) -> (wet: (Fixed, Fixed))
    requires
        full == (Driving { mix: full.mix, output: full.output, ..d }),
    ensures
        drive_frame(d, l, r).1.0 == blend_of(
            d.dry_l.last(),
            wet.0,
            smoothed_next(d.mix).value,
            smoothed_next(d.output).value,
        ),
        drive_frame(d, l, r).1.1 == blend_of(
            d.dry_r.last(),
            wet.1,
            smoothed_next(d.mix).value,
            smoothed_next(d.output).value,
        ),
        drive_frame(full, l, r).1.0 == blend_of(
            d.dry_l.last(),
            wet.0,
            smoothed_next(full.mix).value,
            smoothed_next(full.output).value,
        ),
        drive_frame(full, l, r).1.1 == blend_of(
            d.dry_r.last(),
            wet.1,
            smoothed_next(full.mix).value,
            smoothed_next(full.output).value,
        ),
{
    let drive = smoothed_next(d.drive).value;
    let tone = smoothed_next(d.tone).value;
    let makeup = O::makeup_spec(d.params.curve, drive);
    let wet_l = d.left.shaped(l, d.params.curve, drive).1.times(makeup);
    let wet_r = d.right.shaped(r, d.params.curve, drive).1.times(makeup);
    (
        crate::drive::tilted(
            wet_l,
            crate::filter::leaked(d.tone_lp_l.state, wet_l, d.tone_lp_l.coeff),
            tone,
        ),
        crate::drive::tilted(
            wet_r,
            crate::filter::leaked(d.tone_lp_r.state, wet_r, d.tone_lp_r.coeff),
            tone,
        ),
    )
}

/// A preamp blends likewise, the dry sound being its input.
pub proof fn a_preamp_blends<P: Stage<Fixed>>(
    p: PreampEffect<Fixed, P>,
    full: PreampEffect<Fixed, P>,
    l: Fixed,
    r: Fixed,
)
    requires
        full == (PreampEffect { mix: full.mix, output: full.output, ..p }),
        smoothed_next(full.mix).value == Fixed::of_spec(1),
        smoothed_next(full.output).value == Fixed::of_spec(1),
        is_gain(smoothed_next(p.mix).value),
        0 <= smoothed_next(p.output).value.raw <= 16 * FRACTION,
        within(preamp_frame(full, l, r).1.0, 0x100_0000_0000_0000),
        within(preamp_frame(full, l, r).1.1, 0x100_0000_0000_0000),
        within(l, 0x100_0000_0000_0000),
        within(r, 0x100_0000_0000_0000),
    ensures
        ({
            let (after, out) = preamp_frame(p, l, r);
            let wet = preamp_frame(full, l, r).1;
            let mix = after.mix.value.raw;
            let output = after.output.value.raw;
            &&& magnitude(
                FRACTION * FRACTION * out.0.raw - output * (FRACTION * l.raw + mix * (wet.0.raw
                    - l.raw)),
            ) <= FRACTION * (output + FRACTION)
            &&& magnitude(
                FRACTION * FRACTION * out.1.raw - output * (FRACTION * r.raw + mix * (wet.1.raw
                    - r.raw)),
            ) <= FRACTION * (output + FRACTION)
        }),
{
    let mix = smoothed_next(p.mix).value;
    let output = smoothed_next(p.output).value;
    let drive = smoothed_next(p.drive).value;
    let wet_l = p.left.processed(l, drive).1;
    let wet_r = p.right.processed(r, drive).1;
    let heard = preamp_frame(full, l, r).1;
    lemma_blend(l, wet_l, heard.0, mix, output);
    lemma_blend(r, wet_r, heard.1, mix, output);
}

/// A crusher blends its input and what the same crusher makes of it at a mix of
/// one.
pub proof fn a_crusher_blends(
    c: BitcrushEffect<Fixed>,
    full: BitcrushEffect<Fixed>,
    l: Fixed,
    r: Fixed,
)
    requires
        full == (BitcrushEffect { mix: full.mix, ..c }),
        smoothed_next(full.mix).value == Fixed::of_spec(1),
        is_gain(smoothed_next(c.mix).value),
        within(crush_frame(full, l, r).1.0, 0x100_0000_0000_0000),
        within(crush_frame(full, l, r).1.1, 0x100_0000_0000_0000),
        within(l, 0x100_0000_0000_0000),
        within(r, 0x100_0000_0000_0000),
    ensures
        ({
            let (after, out) = crush_frame(c, l, r);
            let wet = crush_frame(full, l, r).1;
            let mix = after.mix.value.raw;
            &&& magnitude(FRACTION * (out.0.raw - l.raw) - mix * (wet.0.raw - l.raw)) < FRACTION
            &&& magnitude(FRACTION * (out.1.raw - r.raw) - mix * (wet.1.raw - r.raw)) < FRACTION
            &&& after.held_l == crush_frame(full, l, r).0.held_l
            &&& after.held_r == crush_frame(full, l, r).0.held_r
            &&& after.phase == crush_frame(full, l, r).0.phase
        }),
{
    let mix = smoothed_next(c.mix).value;
    let wet = lemma_crush_wet(c, full, l, r);
    let heard = crush_frame(full, l, r).1;
    lemma_mixed(l, wet.0, heard.0, mix);
    lemma_mixed(r, wet.1, heard.1, mix);
}

proof fn lemma_mixed(dry: Fixed, wet: Fixed, full: Fixed, mix: Fixed)
    requires
        is_gain(mix),
        full == dry.plus(wet.minus(dry).times(Fixed::of_spec(1))),
        within(full, 0x100_0000_0000_0000),
        within(dry, 0x100_0000_0000_0000),
    ensures
        magnitude(
            FRACTION * (dry.plus(wet.minus(dry).times(mix)).raw - dry.raw) - mix.raw * (full.raw
                - dry.raw),
        ) < FRACTION,
{
    let way = wet.minus(dry);
    times_one(way);
    assert(wet == full);
    a_share_is_exact_to_a_count(way, mix);
    assert(way.raw * mix.raw == mix.raw * (full.raw - dry.raw)) by (nonlinear_arith)
        requires
            way.raw == full.raw - dry.raw,
    ;
}

proof fn lemma_crush_wet<S: Curves>(
    c: BitcrushEffect<S>,
    full: BitcrushEffect<S>,
    l: S,
    r: S,
) -> (wet: (S, S))
    requires
        full == (BitcrushEffect { mix: full.mix, ..c }),
    ensures
        crush_frame(c, l, r).1 == (
            l.plus(wet.0.minus(l).times(smoothed_next(c.mix).value)),
            r.plus(wet.1.minus(r).times(smoothed_next(c.mix).value)),
        ),
        crush_frame(full, l, r).1 == (
            l.plus(wet.0.minus(l).times(smoothed_next(full.mix).value)),
            r.plus(wet.1.minus(r).times(smoothed_next(full.mix).value)),
        ),
        crush_frame(c, l, r).0.held_l == crush_frame(full, l, r).0.held_l,
        crush_frame(c, l, r).0.held_r == crush_frame(full, l, r).0.held_r,
        crush_frame(c, l, r).0.phase == crush_frame(full, l, r).0.phase,
        crush_frame(c, l, r).0.mix == smoothed_next(c.mix),
{
    let h = crate::bitcrush::crush_held(c, l, r);
    let step = crate::bitcrush::step_of(h.params.bits);
    let a = crate::bitcrush::source_of(h, h.prev_held_l, h.held_l);
    let b = crate::bitcrush::source_of(h, h.prev_held_r, h.held_r);
    (
        crate::bitcrush::crushed(h.params.style, a, step, h.noise_l).0,
        crate::bitcrush::crushed(h.params.style, b, step, h.noise_r).0,
    )
}

/// Two stages in a row are two stages: what 24 dB an octave puts out is what 12 dB
/// makes, with the second stage, of what it makes with the first.
pub proof fn a_steep_filter_is_two_in_a_row<S: Sample>(
    cascade: SvfCascade<S>,
    input: S,
    coeffs: SvfCoeffs<S>,
    mode: FilterMode,
)
    ensures
        ({
            let once = cascade_ticked(cascade, input, coeffs, mode, FilterSlope::Db12);
            let again = cascade_ticked(
                SvfCascade { first: cascade.second, second: cascade.second },
                once.1,
                coeffs,
                mode,
                FilterSlope::Db12,
            );
            let steep = cascade_ticked(cascade, input, coeffs, mode, FilterSlope::Db24);
            &&& steep.1 == again.1
            &&& steep.0.first == once.0.first
            &&& steep.0.second == again.0.first
            &&& once.0.second == cascade.second
        }),
{
}

/// The three modes of a filter are one: what the low pass and the high pass put
/// out of an input, and the damping of what the band pass does, come to the input;
/// and what a stage keeps is its low and its band output mirrored at what it kept.
pub proof fn the_modes_of_a_filter_add_up(
    cascade: SvfCascade<Fixed>,
    input: Fixed,
    coeffs: SvfCoeffs<Fixed>,
)
    requires
        0 <= coeffs.damping.raw <= 2 * FRACTION,
        within(input, 0x100_0000_0000_0000),
        within(
            cascade_ticked(cascade, input, coeffs, FilterMode::LowPass, FilterSlope::Db12).1,
            0x100_0000_0000_0000,
        ),
        within(
            cascade_ticked(cascade, input, coeffs, FilterMode::BandPass, FilterSlope::Db12).1,
            0x100_0000_0000_0000,
        ),
        within(cascade.first.low, 0x100_0000_0000_0000),
        within(cascade.first.band, 0x100_0000_0000_0000),
    ensures
        ({
            let slope = FilterSlope::Db12;
            let low = cascade_ticked(cascade, input, coeffs, FilterMode::LowPass, slope);
            let band = cascade_ticked(cascade, input, coeffs, FilterMode::BandPass, slope);
            let high = cascade_ticked(cascade, input, coeffs, FilterMode::HighPass, slope);
            &&& magnitude(
                FRACTION * (input.raw - low.1.raw - high.1.raw) - coeffs.damping.raw * band.1.raw,
            ) < FRACTION
            &&& low.0 == band.0 && band.0 == high.0
            &&& low.0.first.low.raw + cascade.first.low.raw == 2 * low.1.raw
            &&& low.0.first.band.raw + cascade.first.band.raw == 2 * band.1.raw
        }),
{
    let f = FRACTION as int;
    let slope = FilterSlope::Db12;
    let low = cascade_ticked(cascade, input, coeffs, FilterMode::LowPass, slope).1;
    let band = cascade_ticked(cascade, input, coeffs, FilterMode::BandPass, slope).1;
    let b = band.raw as int;
    let k = coeffs.damping.raw as int;
    assert(-(0x200_0000_0000_0000 * f) <= k * b <= 0x200_0000_0000_0000 * f) by (nonlinear_arith)
        requires
            0 <= k <= 2 * f,
            -0x100_0000_0000_0000 <= b <= 0x100_0000_0000_0000,
            f == 0x1_0000_0000,
    ;
    a_product_is_exact_to_a_count(coeffs.damping, band);
    lemma_twice(low);
    lemma_twice(band);
}

proof fn lemma_twice(value: Fixed)
    requires
        within(value, 0x100_0000_0000_0000),
    ensures
        Fixed::of_spec(2).times(value).raw == 2 * value.raw,
{
    let f = FRACTION as int;
    let v = value.raw as int;
    let m = magnitude(v);
    let n = (2 * f) * v;
    assert(magnitude(n) == 2 * m * 0x1_0000_0000 && (v < 0 <==> n < 0)) by (nonlinear_arith)
        requires
            n == (2 * f) * v,
            f == 0x1_0000_0000,
            m == (if v < 0 { -v } else { v }),
            magnitude(n) == (if n < 0 { -n } else { n }),
    ;
    assert((2 * m * 0x1_0000_0000) / 0x1_0000_0000 == 2 * m);
}

/// A control of the drive takes its value where that lies in its range, and the
/// nearer end where it does not, and moves its lag's target alone. The drive goes
/// from 1 to 64, the tone from minus one to one, the mix to one, the output to two;
/// the curve is the nearest whole number's.
pub proof fn a_drive_takes_its_controls<O>(d: Driving<Fixed, O>, id: u32, value: Fixed)
    requires
        within(value, 1_000 * FRACTION),
    ensures
        ({
            let after = drive_taking(d, id, value);
            let now = after.params;
            let v = value.raw as int;
            let f = FRACTION as int;
            &&& id == 0 ==> held(v, f, 64 * f, now.drive) && after == (Driving {
                params: DriveParams { drive: now.drive, ..d.params },
                drive: Smoothed { target: now.drive, ..d.drive },
                ..d
            })
            &&& id == 1 ==> after == (Driving {
                params: DriveParams { curve: now.curve, ..d.params },
                ..d
            })
            &&& id == 1 && v < f / 2 ==> now.curve == DriveCurve::Soft
            &&& id == 1 && f / 2 <= v < 3 * f / 2 ==> now.curve == DriveCurve::Hard
            &&& id == 1 && 3 * f / 2 <= v < 5 * f / 2 ==> now.curve == DriveCurve::Fold
            &&& id == 1 && 5 * f / 2 <= v ==> now.curve == DriveCurve::Tape
            &&& id == 2 ==> held(v, -f, f, now.tone) && after == (Driving {
                params: DriveParams { tone: now.tone, ..d.params },
                tone: Smoothed { target: now.tone, ..d.tone },
                ..d
            })
            &&& id == 3 ==> held(v, 0, f, now.mix) && after == (Driving {
                params: DriveParams { mix: now.mix, ..d.params },
                mix: Smoothed { target: now.mix, ..d.mix },
                ..d
            })
            &&& id == 4 ==> held(v, 0, 2 * f, now.output) && after == (Driving {
                params: DriveParams { output: now.output, ..d.params },
                output: Smoothed { target: now.output, ..d.output },
                ..d
            })
            &&& id > 4 ==> after == d
        }),
{
}

/// A control of the preamp does likewise: both trims go 24 dB either way and glide
/// as gains, the mix goes to one, and another voicing starts both channels afresh.
pub proof fn a_preamp_takes_its_controls<P: Stage<Fixed>>(
    p: PreampEffect<Fixed, P>,
    id: u32,
    value: Fixed,
)
    requires
        within(value, 1_000 * FRACTION),
    ensures
        ({
            let after = preamp_taking(p, id, value);
            let now = after.params;
            let v = value.raw as int;
            let f = FRACTION as int;
            &&& id == 0 ==> held(v, -24 * f, 24 * f, now.drive_db) && after == (PreampEffect {
                params: PreampParams { drive_db: now.drive_db, ..p.params },
                drive: Smoothed { target: linear_of(now.drive_db), ..p.drive },
                ..p
            })
            &&& id == 1 && v < f / 2 ==> now.voicing == PreampVoicing::Moo
            &&& id == 1 && f / 2 <= v < 3 * f / 2 ==> now.voicing == PreampVoicing::Grip
            &&& id == 1 && 3 * f / 2 <= v < 5 * f / 2 ==> now.voicing == PreampVoicing::Punch
            &&& id == 1 && 5 * f / 2 <= v ==> now.voicing == PreampVoicing::Iron
            &&& id == 1 && now.voicing != p.params.voicing ==> after == (PreampEffect {
                params: PreampParams { voicing: now.voicing, ..p.params },
                left: P::made(now.voicing, p.sample_rate),
                right: P::made(now.voicing, p.sample_rate),
                ..p
            })
            &&& id == 1 && now.voicing == p.params.voicing ==> after == p
            &&& id == 2 ==> held(v, 0, f, now.mix) && after == (PreampEffect {
                params: PreampParams { mix: now.mix, ..p.params },
                mix: Smoothed { target: now.mix, ..p.mix },
                ..p
            })
            &&& id == 3 ==> held(v, -24 * f, 24 * f, now.output_db) && after == (PreampEffect {
                params: PreampParams { output_db: now.output_db, ..p.params },
                output: Smoothed { target: linear_of(now.output_db), ..p.output },
                ..p
            })
            &&& id > 3 ==> after == p
        }),
{
}

/// A control of the crusher does likewise: the bits go from 1 to 16, the hold from
/// 1 to 64 samples, the mix to one, and nothing that is held is forgotten.
pub proof fn a_crusher_takes_its_controls(c: BitcrushEffect<Fixed>, id: u32, value: Fixed)
    requires
        within(value, 1_000 * FRACTION),
    ensures
        ({
            let after = crush_taking(c, id, value);
            let now = after.params;
            let v = value.raw as int;
            let f = FRACTION as int;
            &&& id == 0 ==> held(v, f, 16 * f, now.bits) && after == (BitcrushEffect {
                params: BitcrushParams { bits: now.bits, ..c.params },
                ..c
            })
            &&& id == 1 ==> held(v, f, 64 * f, now.downsample) && after == (BitcrushEffect {
                params: BitcrushParams { downsample: now.downsample, ..c.params },
                ..c
            })
            &&& id == 2 ==> held(v, 0, f, now.mix) && after == (BitcrushEffect {
                params: BitcrushParams { mix: now.mix, ..c.params },
                mix: Smoothed { target: now.mix, ..c.mix },
                ..c
            })
            &&& id == 3 ==> after == (BitcrushEffect {
                params: BitcrushParams { style: now.style, ..c.params },
                ..c
            })
            &&& id == 3 && v < f / 2 ==> now.style == BitcrushStyle::Crush
            &&& id == 3 && f / 2 <= v < 3 * f / 2 ==> now.style == BitcrushStyle::Dither
            &&& id == 3 && 3 * f / 2 <= v < 5 * f / 2 ==> now.style == BitcrushStyle::Mu
            &&& id == 3 && 5 * f / 2 <= v ==> now.style == BitcrushStyle::Glide
            &&& id > 3 ==> after == c
        }),
{
}

/// A control of the filter does likewise: the cutoff is no less than nothing, the
/// resonance and the drive go to one.
pub proof fn a_filter_takes_its_controls(f: FilterEffect<Fixed>, id: u32, value: Fixed)
    requires
        within(value, 100_000 * FRACTION),
    ensures
        ({
            let after = filter_taking(f, id, value);
            let now = after.params;
            let v = value.raw as int;
            let one = FRACTION as int;
            &&& id == 0 ==> held(v, 0, 100_000 * one, now.cutoff_hz) && after == (FilterEffect {
                params: FilterParams { cutoff_hz: now.cutoff_hz, ..f.params },
                cutoff: Smoothed { target: now.cutoff_hz, ..f.cutoff },
                ..f
            })
            &&& id == 1 ==> held(v, 0, one, now.resonance) && after == (FilterEffect {
                params: FilterParams { resonance: now.resonance, ..f.params },
                resonance: Smoothed { target: now.resonance, ..f.resonance },
                ..f
            })
            &&& id == 2 ==> after == (FilterEffect {
                params: FilterParams { mode: now.mode, ..f.params },
                ..f
            })
            &&& id == 2 && v < one / 2 ==> now.mode == FilterMode::LowPass
            &&& id == 2 && one / 2 <= v < 3 * one / 2 ==> now.mode == FilterMode::BandPass
            &&& id == 2 && 3 * one / 2 <= v ==> now.mode == FilterMode::HighPass
            &&& id == 3 ==> after == (FilterEffect {
                params: FilterParams { slope: now.slope, ..f.params },
                ..f
            })
            &&& id == 3 && v < one / 2 ==> now.slope == FilterSlope::Db12
            &&& id == 3 && one / 2 <= v ==> now.slope == FilterSlope::Db24
            &&& id == 4 ==> held(v, 0, one, now.drive) && after == (FilterEffect {
                params: FilterParams { drive: now.drive, ..f.params },
                drive: Smoothed { target: now.drive, ..f.drive },
                ..f
            })
            &&& id > 4 ==> after == f
        }),
{
}

/// A tone weighs the high band: what a drive puts out over its low band is up to
/// four times what it puts out at no tone, or down to nothing of it. The low band
/// stays.
pub proof fn a_tone_weighs_the_high_band<O: Saturator<Fixed>>(
    d: Driving<Fixed, O>,
    flat: Driving<Fixed, O>,
    l: Fixed,
    r: Fixed,
)
    requires
        flat == (Driving { tone: flat.tone, ..d }),
        smoothed_next(flat.tone).value == Fixed::of_spec(0),
        within(smoothed_next(d.tone).value, FRACTION as int),
        smoothed_next(d.mix).value == Fixed::of_spec(1),
        smoothed_next(d.output).value == Fixed::of_spec(1),
        within(drive_frame(flat, l, r).1.0, 0x80_0000_0000_0000),
        within(drive_frame(flat, l, r).1.1, 0x80_0000_0000_0000),
        within(d.dry_l.last(), 0x80_0000_0000_0000),
        within(d.dry_r.last(), 0x80_0000_0000_0000),
        within(drive_frame(d, l, r).0.tone_lp_l.state, 0x80_0000_0000_0000),
        within(drive_frame(d, l, r).0.tone_lp_r.state, 0x80_0000_0000_0000),
        within(shaped_wet(d, l, r).0, 0x80_0000_0000_0000),
        within(shaped_wet(d, l, r).1, 0x80_0000_0000_0000),
    ensures
        ({
            let (after, out) = drive_frame(d, l, r);
            let plain = drive_frame(flat, l, r).1;
            let tone = after.tone.value.raw as int;
            let gain = if tone >= 0 {
                FRACTION + 3 * tone
            } else {
                FRACTION + tone
            };
            &&& after.tone_lp_l == drive_frame(flat, l, r).0.tone_lp_l
            &&& after.tone_lp_r == drive_frame(flat, l, r).0.tone_lp_r
            &&& magnitude(
                FRACTION * (out.0.raw - after.tone_lp_l.state.raw) - gain * (plain.0.raw
                    - after.tone_lp_l.state.raw),
            ) < FRACTION
            &&& magnitude(
                FRACTION * (out.1.raw - after.tone_lp_r.state.raw) - gain * (plain.1.raw
                    - after.tone_lp_r.state.raw),
            ) < FRACTION
        }),
{
    let tone = smoothed_next(d.tone).value;
    let wet = shaped_wet(d, l, r);
    let low_l = drive_frame(d, l, r).0.tone_lp_l.state;
    let low_r = drive_frame(d, l, r).0.tone_lp_r.state;
    a_flat_tilt_is_the_identity(wet.0, low_l);
    a_flat_tilt_is_the_identity(wet.1, low_r);
    lemma_at_full(d.dry_l.last(), wet.0);
    lemma_at_full(d.dry_r.last(), wet.1);
    lemma_tilted(wet.0, low_l, tone);
    lemma_tilted(wet.1, low_r, tone);
    lemma_at_full(d.dry_l.last(), crate::drive::tilted(wet.0, low_l, tone));
    lemma_at_full(d.dry_r.last(), crate::drive::tilted(wet.1, low_r, tone));
}

/// What a drive shapes of a frame, made up.
pub open spec fn shaped_wet<O: Saturator<Fixed>>(d: Driving<Fixed, O>, l: Fixed, r: Fixed) -> (
    Fixed,
    Fixed,
) {
    let drive = smoothed_next(d.drive).value;
    let makeup = O::makeup_spec(d.params.curve, drive);
    (
        d.left.shaped(l, d.params.curve, drive).1.times(makeup),
        d.right.shaped(r, d.params.curve, drive).1.times(makeup),
    )
}

proof fn lemma_at_full(dry: Fixed, wet: Fixed)
    requires
        within(dry, 0x100_0000_0000_0000),
        within(wet, 0x800_0000_0000_0000),
    ensures
        blend_of(dry, wet, Fixed::of_spec(1), Fixed::of_spec(1)) == wet,
{
    times_one(wet.minus(dry));
    times_one(wet);
}

proof fn lemma_tilted(wet: Fixed, low: Fixed, tone: Fixed)
    requires
        within(wet, 0x80_0000_0000_0000),
        within(low, 0x80_0000_0000_0000),
        within(tone, FRACTION as int),
    ensures
        ({
            let gain = if tone.raw >= 0 {
                FRACTION + 3 * tone.raw
            } else {
                FRACTION + tone.raw
            };
            let out = crate::drive::tilted(wet, low, tone).raw;
            &&& magnitude(FRACTION * (out - low.raw) - gain * (wet.raw - low.raw)) < FRACTION
            &&& within(crate::drive::tilted(wet, low, tone), 0x800_0000_0000_0000)
        }),
{
    let f = FRACTION as int;
    let t = tone.raw as int;
    let three = tone.times(Fixed::of_spec(3));
    assert(t >= 0 ==> three.raw == 3 * t) by {
        if t >= 0 {
            assert((t * (3 * f)) / f == 3 * t && 0 <= t * (3 * f)) by (nonlinear_arith)
                requires
                    0 <= t,
                    f == 0x1_0000_0000,
            {
                assert(t * (3 * f) == (3 * t) * f);
            }
        }
    }
    let gain = crate::drive::tilt_gain(tone);
    let g = gain.raw as int;
    let high = wet.minus(low);
    let h = high.raw as int;
    assert(-(0x400_0000_0000_0000 * f) <= h * g <= 0x400_0000_0000_0000 * f) by (nonlinear_arith)
        requires
            -0x100_0000_0000_0000 <= h <= 0x100_0000_0000_0000,
            0 <= g <= 4 * f,
            f == 0x1_0000_0000,
    ;
    a_product_is_exact_to_a_count(high, gain);
    assert(h * g == g * h) by (nonlinear_arith);
}

} // verus!
