//! How devices begin, and what moving them to another rate does: a device stands on
//! its controls, and one that is moved is one that was made there, but for what it
//! remembers.

use vstd::prelude::*;

use crate::bitcrush::{crush_begun, crusher_new, BitcrushParams};
use crate::curves::Curves;
use crate::delay::{delay_new, delay_refitted, DelayParams};
use crate::drive::{drive_new, drive_refitted, DriveParams, Saturator};
use crate::dynamics::{comp_begun, comp_new, gate_next, CompressorParams, GateEffect};
use crate::filter_effect::{filter_new, FilterParams};
use crate::hall::{line_closed, line_return, line_tap, LineState};
use crate::level::{block_begun, linear_of};
use crate::modulation::{mod_new, mod_refitted, ModulationParams};
use crate::num::{
    a_ratio_is_exact_to_a_count, a_share_is_exact_to_a_count, held, is_gain, magnitude,
    nothing_times, products_commute, ratio_of, within, Fixed, Sample, FRACTION,
};
use crate::plate::{plate_new, plate_refitted, plate_tail, Plate, PlateParams};
use crate::plate_laws::a_whole_delay_reads_its_sample;
use crate::preamp::{preamp_begun, preamp_new, PreampParams, Stage};
use crate::reverb::{hall_new, hall_tail, Hall, ReverbParams};
use crate::ring::diffused;
use crate::smooth::{glide_coeff_of, glided, settled, Smoothed};

verus! {

/// Whether a lag stands on what a range makes of a control, and glides in a time of
/// so many counts of a second.
pub open spec fn stands_on(
    lag: Smoothed<Fixed>,
    control: Fixed,
    low: int,
    high: int,
    time: i64,
    sample_rate: u32,
) -> bool {
    &&& settled(lag)
    &&& held(control.raw as int, low, high, lag.value)
    &&& lag.coeff == glide_coeff_of(Fixed { raw: time }, sample_rate)
}

proof fn lemma_times()
    ensures
        ratio_of::<Fixed>(3, 1000) == (Fixed { raw: 12_884_901 }),
        ratio_of::<Fixed>(5, 1000) == (Fixed { raw: 21_474_836 }),
        ratio_of::<Fixed>(1, 100) == (Fixed { raw: 42_949_672 }),
        ratio_of::<Fixed>(2, 100) == (Fixed { raw: 85_899_345 }),
        ratio_of::<Fixed>(4, 100) == (Fixed { raw: 171_798_691 }),
        ratio_of::<Fixed>(5, 100) == (Fixed { raw: 214_748_364 }),
        ratio_of::<Fixed>(12, 100) == (Fixed { raw: 515_396_075 }),
{
    a_ratio_is_exact_to_a_count(3, 1000);
    a_ratio_is_exact_to_a_count(5, 1000);
    a_ratio_is_exact_to_a_count(1, 100);
    a_ratio_is_exact_to_a_count(2, 100);
    a_ratio_is_exact_to_a_count(4, 100);
    a_ratio_is_exact_to_a_count(5, 100);
    a_ratio_is_exact_to_a_count(12, 100);
}

/// A new drive stands on its controls, every one of which glides in five
/// milliseconds; moved to another rate, it is one made there.
pub proof fn a_new_drive_stands_on_its_controls<O: Saturator<Fixed>>(
    params: DriveParams<Fixed>,
    sample_rate: u32,
    other: u32,
)
    ensures
        ({
            let d = drive_new::<Fixed, O>(params, sample_rate);
            let f = FRACTION as int;
            &&& stands_on(d.drive, params.drive, f, 64 * f, 21_474_836, sample_rate)
            &&& stands_on(d.tone, params.tone, -f, f, 21_474_836, sample_rate)
            &&& stands_on(d.mix, params.mix, 0, f, 21_474_836, sample_rate)
            &&& stands_on(d.output, params.output, 0, 2 * f, 21_474_836, sample_rate)
            &&& d.dry_l.len() == O::lateness()
            &&& drive_refitted(d, other) == drive_new::<Fixed, O>(params, other)
        }),
{
    lemma_times();
}

/// So does a new preamp, its trims as gains.
pub proof fn a_new_preamp_stands_on_its_controls<P: Stage<Fixed>>(
    params: PreampParams<Fixed>,
    sample_rate: u32,
    other: u32,
)
    requires
        within(params.drive_db, 24 * FRACTION),
        within(params.output_db, 24 * FRACTION),
    ensures
        ({
            let p = preamp_new::<Fixed, P>(params, sample_rate);
            let f = FRACTION as int;
            &&& stands_on(p.mix, params.mix, 0, f, 21_474_836, sample_rate)
            &&& settled(p.drive) && p.drive.value == linear_of(params.drive_db)
            &&& settled(p.output) && p.output.value == linear_of(params.output_db)
            &&& p.drive.coeff == p.mix.coeff && p.output.coeff == p.mix.coeff
            &&& preamp_begun(p, other) == preamp_new::<Fixed, P>(params, other)
        }),
{
    lemma_times();
}

/// So does a new compressor.
pub proof fn a_moved_compressor_is_one_made_there(
    params: CompressorParams<Fixed>,
    sample_rate: u32,
    other: u32,
)
    ensures
        comp_begun(comp_new(params, sample_rate), other) == comp_new(params, other),
        comp_new(params, sample_rate).mix.coeff == glide_coeff_of(
            Fixed { raw: 21_474_836 },
            sample_rate,
        ),
        comp_new(params, sample_rate).threshold_db.coeff == comp_new(params, sample_rate).mix.coeff,
        comp_new(params, sample_rate).ratio.coeff == comp_new(params, sample_rate).mix.coeff,
        comp_new(params, sample_rate).makeup_db.coeff == comp_new(params, sample_rate).mix.coeff,
{
    lemma_times();
}

/// So does a new delay, its tone in ten milliseconds, with its head on its time and
/// nothing on its line; moved, it keeps its line and its head, and goes to the time
/// that its control is there.
pub proof fn a_new_delay_stands_on_its_controls(
    params: DelayParams<Fixed>,
    sample_rate: u32,
    max_time_ms: Fixed,
    other: u32,
)
    ensures
        ({
            let d = delay_new(params, sample_rate, max_time_ms);
            let moved = delay_refitted(d, other);
            let made = delay_new(params, other, max_time_ms);
            &&& stands_on(d.feedback, params.feedback, 0, 4_209_067_950, 21_474_836, sample_rate)
            &&& stands_on(d.mix, params.mix, 0, FRACTION as int, 21_474_836, sample_rate)
            &&& settled(d.damp_coeff)
            &&& d.damp_coeff.coeff == glide_coeff_of(Fixed { raw: 42_949_672 }, sample_rate)
            &&& d.head.offset == d.target_offset && d.head.fade_left == 0
            &&& d.damp_l.state.raw == 0 && d.damp_r.state.raw == 0
            &&& forall|i: int|
                0 <= i < d.line.l.len() ==> (#[trigger] d.line.l[i]).raw == 0 && d.line.r[i].raw
                    == 0
            &&& moved.sample_rate == other
            &&& moved.feedback == made.feedback
            &&& moved.mix == made.mix
            &&& moved.damp_coeff.coeff == made.damp_coeff.coeff
            &&& moved.line == d.line && moved.head == d.head
        }),
{
    lemma_times();
    a_ratio_is_exact_to_a_count(98, 100);
}

/// So does a new modulation processor, its controls in ten milliseconds.
pub proof fn a_new_modulation_stands_on_its_controls(
    params: ModulationParams<Fixed>,
    sample_rate: u32,
    other: u32,
)
    requires
        1 <= sample_rate,
        1 <= other,
    ensures
        ({
            let m = mod_new(params, sample_rate);
            let moved = mod_refitted(m, other);
            let made = mod_new(params, other);
            let f = FRACTION as int;
            &&& stands_on(m.depth, params.depth, 0, f, 42_949_672, sample_rate)
            &&& stands_on(m.color, params.color, 0, f, 42_949_672, sample_rate)
            &&& stands_on(m.spread, params.spread, 0, f, 42_949_672, sample_rate)
            &&& stands_on(m.tone, params.tone, 0, f, 42_949_672, sample_rate)
            &&& stands_on(
                m.feedback,
                params.feedback,
                -3_951_369_912,
                3_951_369_912,
                42_949_672,
                sample_rate,
            )
            &&& m.lfo.phase.raw == 0 && !m.phaser_primed
            &&& moved.depth == made.depth && moved.color == made.color
            &&& moved.spread == made.spread && moved.tone == made.tone
            &&& moved.feedback == made.feedback
            &&& moved.line == m.line && moved.lfo == m.lfo
        }),
{
    lemma_times();
    a_ratio_is_exact_to_a_count(92, 100);
}

/// So does a new hall: its pre-delay glides in 120 ms, its width and its diffusion
/// in 20, and its lengths in 50.
pub proof fn a_new_hall_stands_on_its_controls(params: ReverbParams<Fixed>, sample_rate: u32)
    ensures
        ({
            let hall = hall_new(params, sample_rate);
            let f = FRACTION as int;
            &&& stands_on(hall.width, params.width, 0, f, 85_899_345, sample_rate)
            &&& settled(hall.diffusion) && settled(hall.predelay_samples)
            &&& hall.diffusion.coeff == hall.width.coeff
            &&& hall.predelay_samples.coeff == glide_coeff_of(
                Fixed { raw: 515_396_075 },
                sample_rate,
            )
            &&& hall.size_glide == glide_coeff_of(Fixed { raw: 214_748_364 }, sample_rate)
            &&& hall.lines.len() == 8 && hall.diffusers.len() == 4
            &&& hall.size_dirty && hall.feedback_dirty
            &&& hall.damping_dirty && hall.modulation_dirty
        }),
{
    lemma_times();
}

/// So does a new plate: its shares and its pre-delay glide in 20 ms, and its
/// lengths in 40; moved to another rate, all of them do so there.
pub proof fn a_new_plate_stands_on_its_controls(
    params: PlateParams<Fixed>,
    sample_rate: u32,
    other: u32,
)
    requires
        1 <= other,
    ensures
        ({
            let plate = plate_new(params, sample_rate);
            let moved = plate_refitted(plate, other);
            let made = plate_new(params, other);
            let coeff = glide_coeff_of(Fixed { raw: 85_899_345 }, sample_rate);
            &&& settled(plate.wet1) && settled(plate.wet2)
            &&& plate.wet1.coeff == coeff && plate.wet2.coeff == coeff
            &&& plate.predelay_samples.coeff == coeff
            &&& plate.size_glide == glide_coeff_of(Fixed { raw: 171_798_691 }, sample_rate)
            &&& moved.wet1 == made.wet1 && moved.wet2 == made.wet2
            &&& moved.size_glide == made.size_glide
            &&& moved.predelay_samples.coeff == made.predelay_samples.coeff
            &&& moved.sample_rate == other
        }),
{
    lemma_times();
}

/// So does a new filter: its cutoff glides in 3 ms, its resonance in 10, its drive
/// in 5.
pub proof fn a_new_filter_stands_on_its_controls(
    params: FilterParams<Fixed>,
    sample_rate: u32,
    reference: Fixed,
)
    ensures
        ({
            let filter = filter_new(params, sample_rate, reference);
            let f = FRACTION as int;
            &&& stands_on(
                filter.cutoff,
                params.cutoff_hz,
                0,
                i64::MAX as int,
                12_884_901,
                sample_rate,
            )
            &&& stands_on(filter.resonance, params.resonance, 0, f, 42_949_672, sample_rate)
            &&& stands_on(filter.drive, params.drive, 0, f, 21_474_836, sample_rate)
            &&& filter.reference == reference
            &&& filter.left.first.low.raw == 0 && filter.left.second.band.raw == 0
            &&& filter.left == filter.right
        }),
{
    lemma_times();
}

/// So does a new crusher, once it knows its rate; it holds nothing, and its two
/// generators are apart.
pub proof fn a_new_crusher_stands_on_its_controls(params: BitcrushParams<Fixed>, sample_rate: u32)
    requires
        sample_rate != crusher_new(params).sample_rate,
    ensures
        ({
            let c = crush_begun(crusher_new(params), sample_rate);
            &&& stands_on(c.mix, params.mix, 0, FRACTION as int, 21_474_836, sample_rate)
            &&& c.held_l.raw == 0 && c.held_r.raw == 0
            &&& c.phase.raw == 0 && !c.primed
            &&& c.noise_l != c.noise_r && c.noise_l != 0 && c.noise_r != 0
            &&& c.sample_rate == sample_rate
        }),
{
    lemma_times();
}

/// What a gate shows of a block of one frame is the level it detected and the
/// attenuation it left.
pub proof fn a_gate_shows_what_it_did(gate: GateEffect<Fixed>, l: Fixed, r: Fixed)
    requires
        gate.block == block_begun::<Fixed>(),
        gate_next(gate, l, r).detector.level.raw >= 0,
        gate_next(gate, l, r).gain_db.raw <= 0,
    ensures
        gate_next(gate, l, r).block.detector == gate_next(gate, l, r).detector.level,
        gate_next(gate, l, r).block.reduction_db == gate_next(gate, l, r).gain_db,
{
}

/// What a line of a hall does: it hears the sample that is its length old, its
/// damping moves its share of the way to it, it hands the feedback of that to the
/// matrix, and writes what comes back through its allpass, which has six tenths.
pub proof fn a_line_returns_what_it_hears(
    line: LineState<Fixed>,
    back: Fixed,
    glide: Fixed,
    whole: int,
)
    requires
        4 <= line.past.len() <= 0x4000_0000,
        1 <= whole <= line.past.len() - 2,
        line.len == Fixed::of_spec(whole as nat),
        line.target_len == line.len,
        line.mod_depth == Fixed::of_spec(0),
        is_gain(line.feedback),
        is_gain(line.damp.coeff),
        within(line.past[whole - 1], 0x800_0000_0000_0000),
        within(line.damp.state, 0x800_0000_0000_0000),
    ensures
        ({
            let after = line_closed(line, back, glide);
            let tap = line_tap(line, glide).raw;
            &&& tap == line.past[whole - 1].raw
            &&& magnitude(
                FRACTION * (after.damp.state.raw - line.damp.state.raw) - (tap
                    - line.damp.state.raw) * line.damp.coeff.raw,
            ) < FRACTION
            &&& magnitude(
                FRACTION * line_return(line, glide).raw - after.damp.state.raw * line.feedback.raw,
            ) < FRACTION
            &&& after.past[0] == diffused(
                line.loop_ap,
                back,
                Fixed { raw: 2_576_980_377 },
                glide,
            )
            &&& after.past[whole] == line.past[whole - 1]
            &&& after.len == line.len
            &&& after.feedback == line.feedback
        }),
{
    a_ratio_is_exact_to_a_count(6, 10);
    assert(ratio_of::<Fixed>(6, 10) == (Fixed { raw: 2_576_980_377 }));
    nothing_times(glide);
    assert(glided(line.len, line.target_len, glide) == line.len);
    a_whole_delay_reads_its_sample(line.past, whole);
    let moved = crate::hall::line_moved(line, glide);
    let swing = crate::hall::triangle(moved.phase);
    nothing_times(swing);
    products_commute(swing, Fixed::of_spec(0));
    let tap = line_tap(line, glide);
    assert(tap == line.past[whole - 1]);
    a_share_is_exact_to_a_count(tap.minus(line.damp.state), line.damp.coeff);
    let damped = crate::filter::leaked(line.damp.state, tap, line.damp.coeff);
    a_share_is_exact_to_a_count(damped, line.feedback);
}

/// A settled plate goes on for three of its decays and a quarter of a second, to the
/// next sample.
pub proof fn a_plate_goes_on_for_three_decays(plate: Plate<Fixed>)
    requires
        settled(plate.predelay_samples),
        settled(plate.wet1),
        settled(plate.wet2),
        858_993_459 <= plate.params.decay_s.raw <= 10 * FRACTION,
        1 <= plate.sample_rate <= 0x4_0000,
    ensures
        ({
            let wanted = (12 * plate.params.decay_s.raw + FRACTION) * plate.sample_rate;
            4 * FRACTION * (plate_tail(plate) - 1) < wanted <= 4 * FRACTION * plate_tail(plate)
        }),
{
    a_ratio_is_exact_to_a_count(2, 10);
    a_ratio_is_exact_to_a_count(1, 4);
    assert(ratio_of::<Fixed>(1, 4).raw == 0x4000_0000);
    lemma_tail(plate.params.decay_s, plate.sample_rate);
}

/// So does a settled hall.
pub proof fn a_hall_goes_on_for_three_decays(hall: Hall<Fixed>)
    requires
        settled(hall.predelay_samples),
        settled(hall.diffusion),
        settled(hall.width),
        858_993_459 <= hall.params.decay_s.raw <= 20 * FRACTION,
        1 <= hall.sample_rate <= 0x4_0000,
    ensures
        ({
            let wanted = (12 * hall.params.decay_s.raw + FRACTION) * hall.sample_rate;
            4 * FRACTION * (hall_tail(hall) - 1) < wanted <= 4 * FRACTION * hall_tail(hall)
        }),
{
    a_ratio_is_exact_to_a_count(2, 10);
    a_ratio_is_exact_to_a_count(1, 4);
    assert(ratio_of::<Fixed>(1, 4).raw == 0x4000_0000);
    lemma_tail(hall.params.decay_s, hall.sample_rate);
}

proof fn lemma_tail(decay: Fixed, sample_rate: u32)
    requires
        0 <= decay.raw <= 20 * FRACTION,
        1 <= sample_rate <= 0x4_0000,
    ensures
        ({
            let frames = Fixed::of_spec(3).times(decay).plus(Fixed { raw: 0x4000_0000 }).times(
                Fixed::of_spec(sample_rate as nat),
            ).ceil_spec();
            let whole = frames.whole_spec();
            let wanted = (12 * decay.raw + FRACTION) * sample_rate;
            &&& 4 * FRACTION * (whole - 1) < wanted <= 4 * FRACTION * whole
            &&& whole <= 0x100_0000
            &&& frames.raw == whole * FRACTION
        }),
{
    let f = FRACTION as int;
    let t = decay.raw as int;
    let n = sample_rate as int;
    assert(((3 * f) * t) / f == 3 * t && 0 <= (3 * f) * t) by (nonlinear_arith)
        requires
            0 <= t,
            f == 0x1_0000_0000,
    {
        assert((3 * f) * t == (3 * t) * f);
    }
    let seconds = Fixed::of_spec(3).times(decay).plus(Fixed { raw: 0x4000_0000 });
    let s = 3 * t + 0x4000_0000;
    assert(seconds.raw == s);
    let w = s * n;
    assert((s * (n * f)) / f == w && 0 <= s * (n * f) && 0 < w <= (61 * f) * 0x4_0000)
        by (nonlinear_arith)
        requires
            w == s * n,
            0 < s <= 61 * f,
            1 <= n <= 0x4_0000,
            f == 0x1_0000_0000,
    {
        assert(s * (n * f) == (s * n) * f);
    }
    let long = seconds.times(Fixed::of_spec(sample_rate as nat));
    assert(long.raw == w);
    let c = -(-w / f);
    assert(f * (c - 1) < w <= f * c && 0 <= c <= 61 * 0x4_0000 && (c * f) / f == c)
        by (nonlinear_arith)
        requires
            c == -(-w / f),
            0 < w <= (61 * f) * 0x4_0000,
            f == 0x1_0000_0000,
    ;
    assert(-(-w / f * f) == c * f) by (nonlinear_arith)
        requires
            c == -(-w / f),
    ;
    assert(long.ceil_spec().raw == c * f);
    assert((12 * t + f) * n == 4 * w) by (nonlinear_arith)
        requires
            w == s * n,
            4 * s == 12 * t + f,
    ;
}

} // verus!
