//! What every frame moves: the lags of a device by one step each, and its stages one
//! after another.

use vstd::prelude::*;

use crate::bitcrush::{crush_frame, BitcrushEffect};
use crate::curves::Curves;
use crate::delay::{delay_frame, Delaying};
use crate::drive::{drive_frame, Driving, Saturator};
use crate::dynamics::{comp_next, CompressorEffect};
use crate::filter::{driven, under_ceiling, SvfCoeffs};
use crate::filter_effect::{cascade_ticked, chunk_share, filter_frame, FilterEffect};
use crate::env::{ahd_next, shaped_of, Ahd, AhdStage};
use crate::eq::EqSlope;
use crate::hall::lines_after;
use crate::hall_laws::a_diffuser_stores_and_hands_on;
use crate::limiter::{limiter_next, Limiting};
use crate::modulation::{
    channel_run, mod_controlled, mod_frame, mod_lagged, resonance_trim_of, stages_of, Modulating,
    ModulationMode,
};
use crate::num::{
    a_ratio_is_exact_to_a_count, is_gain, magnitude, within, Fixed, Sample, Wide, FRACTION,
};
use crate::plate::{allpass_chain, comb_sum, plate_next, sheet_after, sheet_out, Plate, Sheet};
use crate::plate_laws::an_allpass_stores_and_hands_on;
use crate::preamp::{preamp_frame, PreampEffect, Stage};
use crate::reverb::{hall_cut, hall_diffused, hall_next, Hall};
use crate::smooth::{a_settled_lag_stays, smoothed_next, Smoothed};

verus! {

/// A lag that stands where another will be.
pub open spec fn arrived<S: Sample>(lag: Smoothed<S>) -> Smoothed<S> {
    let value = smoothed_next(lag).value;
    Smoothed { value, target: value, ..lag }
}

/// Every frame moves a delay's lags one step, and is heard at where they then are:
/// it is the frame of a delay that stands there.
pub proof fn a_delay_is_heard_where_its_lags_go(d: Delaying<Fixed>, l: Fixed, r: Fixed)
    ensures
        ({
            let there = Delaying {
                feedback: arrived(d.feedback),
                damp_coeff: arrived(d.damp_coeff),
                mix: arrived(d.mix),
                ..d
            };
            let (after, out) = delay_frame(d, l, r);
            &&& after.feedback == smoothed_next(d.feedback)
            &&& after.damp_coeff == smoothed_next(d.damp_coeff)
            &&& after.mix == smoothed_next(d.mix)
            &&& delay_frame(there, l, r).1 == out
            &&& delay_frame(there, l, r).0.line == after.line
            &&& delay_frame(there, l, r).0.damp_l == after.damp_l
            &&& delay_frame(there, l, r).0.damp_r == after.damp_r
            &&& after.params == d.params && after.target_offset == d.target_offset
            &&& after.sample_rate == d.sample_rate
        }),
{
    a_settled_lag_stays(arrived(d.feedback));
    a_settled_lag_stays(arrived(d.damp_coeff));
    a_settled_lag_stays(arrived(d.mix));
}

/// So it is with a drive.
pub proof fn a_drive_is_heard_where_its_lags_go<O: Saturator<Fixed>>(
    d: Driving<Fixed, O>,
    l: Fixed,
    r: Fixed,
)
    ensures
        ({
            let there = Driving {
                drive: arrived(d.drive),
                tone: arrived(d.tone),
                mix: arrived(d.mix),
                output: arrived(d.output),
                ..d
            };
            let (after, out) = drive_frame(d, l, r);
            &&& after.drive == smoothed_next(d.drive)
            &&& after.tone == smoothed_next(d.tone)
            &&& after.mix == smoothed_next(d.mix)
            &&& after.output == smoothed_next(d.output)
            &&& drive_frame(there, l, r).1 == out
            &&& drive_frame(there, l, r).0.left == after.left
            &&& drive_frame(there, l, r).0.right == after.right
            &&& after.dry_l == crate::ring::remembered(d.dry_l, l)
            &&& after.dry_r == crate::ring::remembered(d.dry_r, r)
            &&& after.params == d.params
        }),
{
    a_settled_lag_stays(arrived(d.drive));
    a_settled_lag_stays(arrived(d.tone));
    a_settled_lag_stays(arrived(d.mix));
    a_settled_lag_stays(arrived(d.output));
}

/// So it is with a preamp.
pub proof fn a_preamp_is_heard_where_its_lags_go<P: Stage<Fixed>>(
    p: PreampEffect<Fixed, P>,
    l: Fixed,
    r: Fixed,
)
    ensures
        ({
            let there = PreampEffect {
                drive: arrived(p.drive),
                mix: arrived(p.mix),
                output: arrived(p.output),
                ..p
            };
            let (after, out) = preamp_frame(p, l, r);
            &&& after.drive == smoothed_next(p.drive)
            &&& after.mix == smoothed_next(p.mix)
            &&& after.output == smoothed_next(p.output)
            &&& preamp_frame(there, l, r).1 == out
            &&& preamp_frame(there, l, r).0.left == after.left
            &&& preamp_frame(there, l, r).0.right == after.right
            &&& after.params == p.params
        }),
{
    a_settled_lag_stays(arrived(p.drive));
    a_settled_lag_stays(arrived(p.mix));
    a_settled_lag_stays(arrived(p.output));
}

/// So it is with a crusher.
pub proof fn a_crusher_moves_its_mix<S: Curves>(c: BitcrushEffect<S>, l: S, r: S)
    ensures
        crush_frame(c, l, r).0.mix == smoothed_next(c.mix),
        crush_frame(c, l, r).0.params == c.params,
        crush_frame(c, l, r).0.primed,
{
}

/// So it is with a compressor.
pub proof fn a_compressor_moves_its_lags<S: Curves>(comp: CompressorEffect<S>, l: S, r: S)
    ensures
        ({
            let after = comp_next(comp, l, r);
            &&& after.threshold_db == smoothed_next(comp.threshold_db)
            &&& after.ratio == smoothed_next(comp.ratio)
            &&& after.makeup_db == smoothed_next(comp.makeup_db)
            &&& after.mix == smoothed_next(comp.mix)
            &&& after.params == comp.params
            &&& after.detector.attack == comp.detector.attack
            &&& after.detector.release == comp.detector.release
        }),
{
}

/// So it is with a limiter.
pub proof fn a_limiter_moves_its_lags<S: Curves, W: Wide<S>>(limiter: Limiting<S, W>, l: S, r: S)
    ensures
        limiter_next(limiter, l, r).ceiling_db == smoothed_next(limiter.ceiling_db),
        limiter_next(limiter, l, r).gain_db == smoothed_next(limiter.gain_db),
        limiter_next(limiter, l, r).params == limiter.params,
{
}

/// So it is with a plate: its lags move one step, whatever it hears.
pub proof fn a_plate_moves_its_lags<S: Sample>(plate: Plate<S>, l: S, r: S)
    ensures
        plate_next(plate, l, r).wet1 == smoothed_next(plate.wet1),
        plate_next(plate, l, r).wet2 == smoothed_next(plate.wet2),
        plate_next(plate, l, r).predelay_samples == smoothed_next(plate.predelay_samples),
        plate_next(plate, l, r).params == plate.params,
        plate_next(plate, l, r).size_glide == plate.size_glide,
{
}

/// So it is with a hall.
pub proof fn a_hall_moves_its_lags<S: Sample>(hall: Hall<S>, l: S, r: S)
    ensures
        hall_next(hall, l, r).width == smoothed_next(hall.width),
        hall_next(hall, l, r).diffusion == smoothed_next(hall.diffusion),
        hall_next(hall, l, r).predelay_samples == smoothed_next(hall.predelay_samples),
        hall_next(hall, l, r).params == hall.params,
        hall_next(hall, l, r).size_glide == hall.size_glide,
        hall_next(hall, l, r).low_cut.coeff == hall.low_cut.coeff,
{
}

/// So it is with a filter, whose drive moves by the frame.
pub proof fn a_filter_moves_its_drive<S: Curves>(
    f: FilterEffect<S>,
    coeffs: SvfCoeffs<S>,
    l: S,
    r: S,
)
    ensures
        filter_frame(f, coeffs, l, r).0.drive == smoothed_next(f.drive),
        filter_frame(f, coeffs, l, r).0.params == f.params,
        filter_frame(f, coeffs, l, r).0.cutoff == f.cutoff,
        filter_frame(f, coeffs, l, r).0.resonance == f.resonance,
{
}

/// A filter that is not driven is its cascade, up to the voice ceiling's knee.
pub proof fn an_undriven_filter_is_its_cascade(
    f: FilterEffect<Fixed>,
    coeffs: SvfCoeffs<Fixed>,
    l: Fixed,
    r: Fixed,
)
    requires
        smoothed_next(f.drive).value.raw <= 0,
    ensures
        ({
            let left = cascade_ticked(f.left, l, coeffs, f.params.mode, f.params.slope);
            let right = cascade_ticked(f.right, r, coeffs, f.params.mode, f.params.slope);
            let (after, out) = filter_frame(f, coeffs, l, r);
            &&& after.left == left.0 && after.right == right.0
            &&& -6_442_450_944 <= left.1.raw <= 6_442_450_944 ==> out.0 == left.1
            &&& -6_442_450_944 <= right.1.raw <= 6_442_450_944 ==> out.1 == right.1
        }),
{
    a_ratio_is_exact_to_a_count(1, 8_388_608);
    a_ratio_is_exact_to_a_count(3, 2);
    let drive = smoothed_next(f.drive).value;
    let makeup = crate::filter::drive_makeup(drive, f.reference);
    assert(driven(l, drive, makeup) == l);
    assert(driven(r, drive, makeup) == r);
    let left = cascade_ticked(f.left, l, coeffs, f.params.mode, f.params.slope).1;
    let right = cascade_ticked(f.right, r, coeffs, f.params.mode, f.params.slope).1;
    lemma_under(left);
    lemma_under(right);
}

proof fn lemma_under(value: Fixed)
    ensures
        -6_442_450_944 <= value.raw <= 6_442_450_944 ==> under_ceiling(value) == value,
{
    a_ratio_is_exact_to_a_count(3, 2);
}

/// A chunk's coefficients run from its first frame's to its last's, evenly.
pub proof fn a_chunk_runs_evenly(n: nat, count: nat)
    requires
        n < count <= 0x10_0000,
    ensures
        count > 1 ==> (count - 1) * chunk_share::<Fixed>(n, count).raw <= n * FRACTION < (count - 1)
            * (chunk_share::<Fixed>(n, count).raw + 1),
        count == 1 ==> chunk_share::<Fixed>(n, count) == Fixed::of_spec(1),
{
    if count > 1 {
        a_ratio_is_exact_to_a_count(n, (count - 1) as nat);
        let k = count - 1;
        let u = chunk_share::<Fixed>(n, count).raw as int;
        assert(k * (u + 1) == k * u + k) by (nonlinear_arith);
    }
}

/// The allpasses of a plate's channel stand in a row behind its combs: the first
/// takes their sum, each further one what the one before hands on, and the last
/// hands on what the channel puts out; each stores of what it takes.
pub proof fn allpasses_stand_in_a_row(
    sheet: Sheet<Fixed>,
    input: Fixed,
    glide: Fixed,
    i: int,
    whole: int,
)
    requires
        sheet.allpasses.len() == 4,
        0 <= i < 4,
        4 <= sheet.allpasses[i].past.len() <= 0x4000_0000,
        1 <= whole <= sheet.allpasses[i].past.len() - 2,
        sheet.allpasses[i].len == Fixed::of_spec(whole as nat),
        sheet.allpasses[i].target_len == sheet.allpasses[i].len,
        within(sheet.allpasses[i].past[whole - 1], 0x800_0000_0000_0000),
        within(taken(sheet, glide, i), 0x800_0000_0000_0000),
    ensures
        ({
            let after = sheet_after(sheet, input, glide).allpasses[i];
            let kept = sheet.allpasses[i].past[whole - 1].raw;
            let stored = after.past[0].raw;
            let next = taken(sheet, glide, i + 1).raw;
            &&& magnitude(2 * stored - (2 * taken(sheet, glide, i).raw + kept)) <= 1
            &&& magnitude(2 * next - (2 * kept - stored)) <= 1
            &&& taken(sheet, glide, 0) == comb_sum(sheet.combs, glide, 8)
            &&& taken(sheet, glide, 4) == sheet_out(sheet, glide)
        }),
{
    reveal(taken);
    an_allpass_stores_and_hands_on(sheet.allpasses[i], taken(sheet, glide, i), glide, whole);
}

/// What an allpass of a channel takes.
#[verifier::opaque]
pub open spec fn taken<S: Sample>(sheet: Sheet<S>, glide: S, i: int) -> S {
    allpass_chain(sheet.allpasses, comb_sum(sheet.combs, glide, 8), glide, i)
}

/// A frame of the phaser: its two channels take the input and the feedback of what
/// they put out before, each for itself, at the coefficients of that frame; what they
/// put out is fed back, and the oscillator moves one sample.
pub proof fn a_phaser_renders<S: Curves>(m: Modulating<S>, l: S, r: S)
    requires
        m.params.mode == ModulationMode::Phaser,
    ensures
        ({
            let (after, out) = mod_frame(m, l, r);
            let moved = mod_lagged(m);
            let there = mod_controlled(
                moved,
                after.depth.value,
                after.color.value,
                after.spread.value,
            );
            let feedback = after.feedback.value;
            let trim = resonance_trim_of(feedback);
            let stages = stages_of(m.params);
            &&& (after.phaser_l, after.feedback_l) == channel_run(
                there.phaser_l,
                l.plus(m.feedback_l.times(feedback)),
                stages,
            )
            &&& (after.phaser_r, after.feedback_r) == channel_run(
                there.phaser_r,
                r.plus(m.feedback_r.times(feedback)),
                stages,
            )
            &&& out == (after.tone_l.state, after.tone_r.state)
            &&& out.0 == m.tone_l.state.plus(
                after.feedback_l.times(trim).minus(m.tone_l.state).times(after.tone_l.coeff),
            )
            &&& out.1 == m.tone_r.state.plus(
                after.feedback_r.times(trim).minus(m.tone_r.state).times(after.tone_r.coeff),
            )
            &&& after.line == m.line
            &&& after.depth == smoothed_next(m.depth)
            &&& after.color == smoothed_next(m.color)
            &&& after.spread == smoothed_next(m.spread)
            &&& after.feedback == smoothed_next(m.feedback)
            &&& after.tone == smoothed_next(m.tone)
        }),
{
}

/// Between its control points a phaser steps: the coefficients of a frame are those
/// of the frame before and a step; at a control point they land on their targets, and
/// seven frames pass to the next.
pub proof fn a_phaser_steps_between_control_points<S: Curves>(
    m: Modulating<S>,
    depth: S,
    color: S,
    spread: S,
    i: int,
)
    requires
        0 <= i < stages_of(m.params),
        stages_of(m.params) <= m.phaser_l.now.len(),
        m.phaser_l.target.len() == m.phaser_l.now.len(),
        m.phaser_primed,
    ensures
        ({
            let after = mod_controlled(m, depth, color, spread);
            &&& m.phaser_countdown > 0 ==> after == (Modulating {
                phaser_countdown: (m.phaser_countdown - 1) as u32,
                ..m
            })
            &&& m.phaser_countdown == 0 ==> after.phaser_countdown == 7
                && after.phaser_l.now[i] == m.phaser_l.target[i]
                && after.phaser_l.stage == m.phaser_l.stage
        }),
{
}

/// The diffusers of a hall stand in a row behind its low cut: each stores of what it
/// takes and hands on to the next, at the diffusion of that frame, and the lines take
/// what the last hands on.
pub proof fn diffusers_stand_in_a_row(
    hall: Hall<Fixed>,
    l: Fixed,
    r: Fixed,
    i: int,
    whole: int,
)
    requires
        hall.diffusers.len() == 4,
        0 <= i < 4,
        4 <= hall.diffusers[i].past.len() <= 0x4000_0000,
        1 <= whole <= hall.diffusers[i].past.len() - 2,
        hall.diffusers[i].len == Fixed::of_spec(whole as nat),
        hall.diffusers[i].target_len == hall.diffusers[i].len,
        is_gain(smoothed_next(hall.diffusion).value),
        within(hall.diffusers[i].past[whole - 1], 0x800_0000_0000_0000),
        within(let_in(hall, l, r, i), 0x800_0000_0000_0000),
    ensures
        ({
            let after = hall_next(hall, l, r);
            let gain = after.diffusion.value.raw;
            let kept = hall.diffusers[i].past[whole - 1].raw;
            let stored = after.diffusers[i].past[0].raw;
            let next = let_in(hall, l, r, i + 1).raw;
            &&& magnitude(FRACTION * (stored - let_in(hall, l, r, i).raw) - kept * gain) < FRACTION
            &&& magnitude(FRACTION * (kept - next) - stored * gain) < FRACTION
            &&& let_in(hall, l, r, 0) == hall_cut(hall, l, r)
            &&& after.lines == lines_after(hall.lines, let_in(hall, l, r, 4), hall.size_glide)
        }),
{
    reveal(let_in);
    a_diffuser_stores_and_hands_on(
        hall.diffusers[i],
        let_in(hall, l, r, i),
        smoothed_next(hall.diffusion).value,
        hall.size_glide,
        whole,
    );
}

/// What a diffuser of a hall takes, and the lines after the last.
#[verifier::opaque]
pub open spec fn let_in<S: Sample>(hall: Hall<S>, l: S, r: S, i: int) -> S {
    hall_diffused(hall, l, r, i)
}

/// A hold carries its remainder: each frame is one sample of it, and a latch takes
/// the hold's length off what has run, so that no part of a sample is lost. A latch
/// keeps the frame it comes on, and the one held before it.
pub proof fn a_hold_carries_its_remainder(c: BitcrushEffect<Fixed>, l: Fixed, r: Fixed)
    requires
        c.primed,
        FRACTION <= c.params.downsample.raw <= 64 * FRACTION,
        0 <= c.phase.raw <= 64 * FRACTION,
    ensures
        ({
            let after = crush_frame(c, l, r).0;
            let hold = c.params.downsample.raw;
            let due = c.phase.raw + FRACTION >= hold;
            &&& due ==> after.phase.raw == c.phase.raw + FRACTION - hold
            &&& due ==> after.held_l == l && after.held_r == r
            &&& due ==> after.prev_held_l == c.held_l && after.prev_held_r == c.held_r
            &&& !due ==> after.phase.raw == c.phase.raw + FRACTION
            &&& !due ==> after.held_l == c.held_l && after.held_r == c.held_r
            &&& !due ==> after.prev_held_l == c.prev_held_l && after.prev_held_r == c.prev_held_r
        }),
{
}

/// An envelope goes through its stages in turn. An attack runs its phase up to one,
/// the level shaped by it; a hold is at one for its samples; a decay runs its phase
/// up to one; and what is gated ends on its sustain, and what is not at nothing. A
/// release runs from the level it began at down to nothing.
pub proof fn an_envelope_goes_through_its_stages(env: Ahd<Fixed>)
    requires
        0 <= env.phase.raw <= FRACTION,
        is_gain(env.attack_rate),
        is_gain(env.decay_rate),
        is_gain(env.release_rate),
        env.stage == AhdStage::Hold ==> env.held < env.hold_samples,
    ensures
        ({
            let after = ahd_next(env);
            let attacked = env.phase.raw + env.attack_rate.raw;
            let decayed = env.phase.raw + env.decay_rate.raw;
            let released = env.phase.raw + env.release_rate.raw;
            &&& env.stage == AhdStage::Attack && attacked < FRACTION ==> after.stage
                == AhdStage::Attack && after.phase.raw == attacked && after.level == shaped_of(
                after.phase,
                env.curve,
            )
            &&& env.stage == AhdStage::Attack && attacked >= FRACTION && env.hold_samples > 0
                ==> after.stage == AhdStage::Hold && after.level.raw == FRACTION && after.held == 0
            &&& env.stage == AhdStage::Attack && attacked >= FRACTION && env.hold_samples == 0
                ==> after.stage == AhdStage::Decay && after.phase.raw == 0
            &&& env.stage == AhdStage::Hold && env.held + 1 < env.hold_samples ==> after.stage
                == AhdStage::Hold && after.level.raw == FRACTION && after.held == env.held + 1
            &&& env.stage == AhdStage::Hold && env.held + 1 == env.hold_samples ==> after.stage
                == AhdStage::Decay && after.phase.raw == 0
            &&& env.stage == AhdStage::Decay && decayed < FRACTION ==> after.stage
                == AhdStage::Decay && after.phase.raw == decayed
            &&& env.stage == AhdStage::Decay && decayed >= FRACTION && env.gate
                && env.sustain.raw > 429_496 ==> after.stage == AhdStage::Sustain && after.level
                == env.sustain
            &&& env.stage == AhdStage::Decay && decayed >= FRACTION && !(env.gate
                && env.sustain.raw > 429_496) ==> after.stage == AhdStage::Idle && after.level.raw
                == 0
            &&& env.stage == AhdStage::Sustain ==> after.stage == AhdStage::Sustain && after.level
                == env.sustain
            &&& env.stage == AhdStage::Release && released < FRACTION ==> after.stage
                == AhdStage::Release && after.phase.raw == released
            &&& env.stage == AhdStage::Release && released >= FRACTION ==> after.stage
                == AhdStage::Idle && after.level.raw == 0
            &&& env.stage == AhdStage::Idle ==> after == env
            &&& after.sustain == env.sustain && after.gate == env.gate
            &&& after.curve == env.curve && after.release_from == env.release_from
        }),
{
    a_ratio_is_exact_to_a_count(1, 10_000);
    assert(crate::num::ratio_of::<Fixed>(1, 10_000).raw == 429_496);
}

/// Every six decibels of a slope are one stage.
pub proof fn a_slope_is_its_stages()
    ensures
        EqSlope::Db6.count() == 1,
        EqSlope::Db12.count() == 2,
        EqSlope::Db18.count() == 3,
        EqSlope::Db24.count() == 4,
        EqSlope::Db30.count() == 5,
        EqSlope::Db36.count() == 6,
{
}

} // verus!
