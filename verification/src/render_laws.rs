//! What rendering is: a range of one frame is the device's frame, and nothing outside
//! the range is touched. A longer range is its frames in turn.

use vstd::prelude::*;

use crate::bitcrush::{crush_frame, crush_heard, crush_step, crush_taking, BitcrushEffect};
use crate::curves::Curves;
use crate::delay::{
    delay_cleared, delay_frame, delay_heard, delay_step, delay_taking, DelayEffect, Delaying,
};
use crate::drive::{
    drive_frame, drive_heard, drive_step, drive_tail, drive_taking, DriveEffect, Driving, Saturator,
};
use crate::dynamics::{
    comp_heard, comp_next, comp_out, comp_step, comp_taking, gate_heard, gate_next, gate_out,
    gate_step, gate_taking, CompressorEffect, GateEffect,
};
use crate::effects::at_tempo;
use crate::env::{ahd_releasing, Ahd, AhdStage};
use crate::fold::{after_frames, left_of, right_of};
use crate::limiter::{
    limiter_heard, limiter_next, limiter_out, limiter_step, limiter_taking, LimiterEffect,
};
use crate::modulation::{mod_frame, mod_heard, mod_step, mod_taking, ModulationEffect};
use crate::node::Discontinuity;
use crate::num::{Fixed, Wide};
use crate::plate::{
    plate_cleared, plate_heard, plate_next, plate_out, plate_step, plate_taking, Plate,
    PlateEffect,
};
use crate::preamp::{
    preamp_frame, preamp_heard, preamp_step, preamp_taking, PreampEffect, Stage,
};
use crate::smooth::settled;
use crate::split::RangeProcessor;

verus! {

/// Whether a channel was changed at one place only, and to what.
pub open spec fn changed_at<S>(before: Seq<S>, at: int, value: S, after: Seq<S>) -> bool {
    &&& after.len() == before.len()
    &&& after[at] == value
    &&& forall|i: int| 0 <= i < before.len() && i != at ==> #[trigger] after[i] == before[i]
}

/// A range of one frame is one step and one output.
proof fn lemma_one_frame<E, S>(
    step: spec_fn(E, S, S) -> E,
    out: spec_fn(E, S, S) -> (S, S),
    state: E,
    l: Seq<S>,
    r: Seq<S>,
    at: int,
)
    requires
        0 <= at < l.len(),
        l.len() == r.len(),
    ensures
        after_frames(step, state, l, r, at, at + 1 - at) == step(state, l[at], r[at]),
        changed_at(
            l,
            at,
            out(state, l[at], r[at]).0,
            left_of(step, out, state, l, r, at, at + 1),
        ),
        changed_at(
            r,
            at,
            out(state, l[at], r[at]).1,
            right_of(step, out, state, l, r, at, at + 1),
        ),
{
    reveal_with_fuel(after_frames, 2);
}

/// A range of one frame is a noise gate's frame, and a control is taken as it comes.
pub proof fn a_gate_renders_its_frames<S: Curves>(
    d: &GateEffect<S>,
    l: Seq<S>,
    r: Seq<S>,
    at: int,
    after: &GateEffect<S>,
    new_l: Seq<S>,
    new_r: Seq<S>,
    id: u32,
    value: S,
)
    requires
        0 <= at < l.len(),
        l.len() == r.len(),
    ensures
        d.renders(l, r, at, at + 1, after, new_l, new_r) ==> *after == gate_next(*d, l[at], r[at]) && changed_at(
            l,
            at,
            gate_out(*d, l[at], r[at]).0,
            new_l,
        ) && changed_at(r, at, gate_out(*d, l[at], r[at]).1, new_r),
        d.takes(id, value, after) ==> *after == gate_taking(*d, id, value),
{
    lemma_one_frame(gate_step(), gate_heard(), *d, l, r, at);
}

/// So it is with a compressor.
pub proof fn a_compressor_renders_its_frames<S: Curves>(
    d: &CompressorEffect<S>,
    l: Seq<S>,
    r: Seq<S>,
    at: int,
    after: &CompressorEffect<S>,
    new_l: Seq<S>,
    new_r: Seq<S>,
    id: u32,
    value: S,
)
    requires
        0 <= at < l.len(),
        l.len() == r.len(),
    ensures
        d.renders(l, r, at, at + 1, after, new_l, new_r) ==> *after == comp_next(*d, l[at], r[at]) && changed_at(
            l,
            at,
            comp_out(*d, l[at], r[at]).0,
            new_l,
        ) && changed_at(r, at, comp_out(*d, l[at], r[at]).1, new_r),
        d.takes(id, value, after) ==> *after == comp_taking(*d, id, value),
{
    lemma_one_frame(comp_step(), comp_heard(), *d, l, r, at);
}

/// So it is with a crusher.
pub proof fn a_crusher_renders_its_frames<S: Curves>(
    d: &BitcrushEffect<S>,
    l: Seq<S>,
    r: Seq<S>,
    at: int,
    after: &BitcrushEffect<S>,
    new_l: Seq<S>,
    new_r: Seq<S>,
    id: u32,
    value: S,
)
    requires
        0 <= at < l.len(),
        l.len() == r.len(),
    ensures
        d.renders(l, r, at, at + 1, after, new_l, new_r) ==> *after == crush_frame(*d, l[at], r[at]).0 && changed_at(
            l,
            at,
            crush_frame(*d, l[at], r[at]).1.0,
            new_l,
        ) && changed_at(r, at, crush_frame(*d, l[at], r[at]).1.1, new_r),
        d.takes(id, value, after) ==> *after == crush_taking(*d, id, value),
{
    lemma_one_frame(crush_step(), crush_heard(), *d, l, r, at);
}

/// So it is with a preamp.
pub proof fn a_preamp_renders_its_frames<S: Curves, P: Stage<S>>(
    d: &PreampEffect<S, P>,
    l: Seq<S>,
    r: Seq<S>,
    at: int,
    after: &PreampEffect<S, P>,
    new_l: Seq<S>,
    new_r: Seq<S>,
    id: u32,
    value: S,
)
    requires
        0 <= at < l.len(),
        l.len() == r.len(),
    ensures
        d.renders(l, r, at, at + 1, after, new_l, new_r) ==> *after == preamp_frame(*d, l[at], r[at]).0 && changed_at(
            l,
            at,
            preamp_frame(*d, l[at], r[at]).1.0,
            new_l,
        ) && changed_at(r, at, preamp_frame(*d, l[at], r[at]).1.1, new_r),
        d.takes(id, value, after) ==> *after == preamp_taking(*d, id, value),
{
    lemma_one_frame(preamp_step(), preamp_heard(), *d, l, r, at);
}

/// So it is with a drive.
pub proof fn a_drive_renders_its_frames<S: Curves, O: Saturator<S>>(
    d: &DriveEffect<S, O>,
    l: Seq<S>,
    r: Seq<S>,
    at: int,
    after: &DriveEffect<S, O>,
    new_l: Seq<S>,
    new_r: Seq<S>,
    id: u32,
    value: S,
)
    requires
        0 <= at < l.len(),
        l.len() == r.len(),
    ensures
        d.renders(l, r, at, at + 1, after, new_l, new_r) ==> after@ == drive_frame(d@, l[at], r[at]).0 && changed_at(
            l,
            at,
            drive_frame(d@, l[at], r[at]).1.0,
            new_l,
        ) && changed_at(r, at, drive_frame(d@, l[at], r[at]).1.1, new_r),
        d.takes(id, value, after) ==> after@ == drive_taking(d@, id, value),
{
    lemma_one_frame(drive_step(), drive_heard(), d@, l, r, at);
}

/// So it is with a delay.
pub proof fn a_delay_renders_its_frames<S: Curves>(
    d: &DelayEffect<S>,
    l: Seq<S>,
    r: Seq<S>,
    at: int,
    after: &DelayEffect<S>,
    new_l: Seq<S>,
    new_r: Seq<S>,
    id: u32,
    value: S,
)
    requires
        0 <= at < l.len(),
        l.len() == r.len(),
    ensures
        d.renders(l, r, at, at + 1, after, new_l, new_r) ==> after@ == delay_frame(d@, l[at], r[at]).0 && changed_at(
            l,
            at,
            delay_frame(d@, l[at], r[at]).1.0,
            new_l,
        ) && changed_at(r, at, delay_frame(d@, l[at], r[at]).1.1, new_r),
        d.takes(id, value, after) ==> after@ == delay_taking(d@, id, value),
{
    lemma_one_frame(delay_step(), delay_heard(), d@, l, r, at);
}

/// So it is with a modulation.
pub proof fn a_modulation_renders_its_frames<S: Curves>(
    d: &ModulationEffect<S>,
    l: Seq<S>,
    r: Seq<S>,
    at: int,
    after: &ModulationEffect<S>,
    new_l: Seq<S>,
    new_r: Seq<S>,
    id: u32,
    value: S,
)
    requires
        0 <= at < l.len(),
        l.len() == r.len(),
    ensures
        d.renders(l, r, at, at + 1, after, new_l, new_r) ==> after@ == mod_frame(d@, l[at], r[at]).0 && changed_at(
            l,
            at,
            mod_frame(d@, l[at], r[at]).1.0,
            new_l,
        ) && changed_at(r, at, mod_frame(d@, l[at], r[at]).1.1, new_r),
        d.takes(id, value, after) ==> after@ == mod_taking(d@, id, value),
{
    lemma_one_frame(mod_step(), mod_heard(), d@, l, r, at);
}

/// So it is with a plate.
pub proof fn a_plate_renders_its_frames<S: Curves>(
    d: &PlateEffect<S>,
    l: Seq<S>,
    r: Seq<S>,
    at: int,
    after: &PlateEffect<S>,
    new_l: Seq<S>,
    new_r: Seq<S>,
    id: u32,
    value: S,
)
    requires
        0 <= at < l.len(),
        l.len() == r.len(),
    ensures
        d.renders(l, r, at, at + 1, after, new_l, new_r) ==> after@ == plate_next(d@, l[at], r[at]) && changed_at(
            l,
            at,
            plate_out(d@).0,
            new_l,
        ) && changed_at(r, at, plate_out(d@).1, new_r),
        d.takes(id, value, after) ==> after@ == plate_taking(d@, id, value),
{
    lemma_one_frame(plate_step(), plate_heard(), d@, l, r, at);
}

/// So it is with a limiter.
pub proof fn a_limiter_renders_its_frames<S: Curves, W: Wide<S>>(
    d: &LimiterEffect<S, W>,
    l: Seq<S>,
    r: Seq<S>,
    at: int,
    after: &LimiterEffect<S, W>,
    new_l: Seq<S>,
    new_r: Seq<S>,
    id: u32,
    value: S,
)
    requires
        0 <= at < l.len(),
        l.len() == r.len(),
    ensures
        d.renders(l, r, at, at + 1, after, new_l, new_r) ==> after@ == limiter_next(d@, l[at], r[at]) && changed_at(
            l,
            at,
            limiter_out(d@, l[at], r[at]).0,
            new_l,
        ) && changed_at(r, at, limiter_out(d@, l[at], r[at]).1, new_r),
        d.takes(id, value, after) ==> after@ == limiter_taking(d@, id, value),
{
    lemma_one_frame(limiter_step::<S, W>(), limiter_heard(), d@, l, r, at);
}

/// A cleared delay has nothing on its line and nothing in its damping, and is
/// otherwise as it was.
pub proof fn a_cleared_delay_is_silent(d: Delaying<Fixed>, i: int)
    requires
        0 <= i < d.line.l.len(),
        d.line.r.len() == d.line.l.len(),
    ensures
        ({
            let after = delay_cleared(d);
            &&& after.line.l.len() == d.line.l.len() && after.line.r.len() == d.line.r.len()
            &&& after.line.l[i].raw == 0 && after.line.r[i].raw == 0
            &&& after.damp_l.state.raw == 0 && after.damp_r.state.raw == 0
            &&& after.head == d.head && after.params == d.params
            &&& after.feedback == d.feedback && after.mix == d.mix
            &&& after.damp_coeff == d.damp_coeff && after.target_offset == d.target_offset
        }),
{
}

/// A cleared plate has nothing in its pre-delay, its combs and its allpasses, and
/// every length and gain is as it was.
pub proof fn a_cleared_plate_is_silent(plate: Plate<Fixed>, comb: int, i: int)
    requires
        0 <= comb < plate.left.combs.len(),
        plate.right.combs.len() == plate.left.combs.len(),
        0 <= i < plate.left.combs[comb].past.len(),
        i < plate.right.combs[comb].past.len(),
        i < plate.predelay.len(),
    ensures
        ({
            let after = plate_cleared(plate);
            let was = plate.left.combs[comb];
            let now = after.left.combs[comb];
            &&& after.predelay[i].raw == 0
            &&& now.past.len() == was.past.len() && now.past[i].raw == 0
            &&& after.right.combs[comb].past[i].raw == 0
            &&& now.damp.state.raw == 0 && now.damp.coeff == was.damp.coeff
            &&& now.len == was.len && now.target_len == was.target_len
            &&& now.feedback == was.feedback
            &&& after.wet1 == plate.wet1 && after.wet2 == plate.wet2
            &&& after.params == plate.params
        }),
{
}

/// A settled drive goes on for a fiftieth of a second and its latency.
pub proof fn a_drive_goes_on_for_a_fiftieth<O>(d: Driving<Fixed, O>)
    requires
        settled(d.drive),
        settled(d.tone),
        settled(d.mix),
        settled(d.output),
        d.dry_l.len() <= 0x1000_0000,
        d.sample_rate <= 0x1000_0000,
    ensures
        50 * (drive_tail(d) - d.dry_l.len()) <= d.sample_rate < 50 * (drive_tail(d)
            - d.dry_l.len() + 1),
{
}

/// A release begins at the level there is, and one that is over stays over.
pub proof fn a_release_begins_where_it_is(env: Ahd<Fixed>)
    ensures
        env.stage != AhdStage::Idle ==> ahd_releasing(env).release_from == env.level,
        env.stage != AhdStage::Idle ==> ahd_releasing(env).phase.raw == 0,
        env.stage != AhdStage::Idle ==> ahd_releasing(env).stage == AhdStage::Release,
        env.stage == AhdStage::Idle ==> ahd_releasing(env) == env,
        ahd_releasing(env).level == env.level,
{
}

/// Only a seek leaves a tail behind.
pub proof fn only_a_seek_leaves(kind: Discontinuity)
    ensures
        kind.leaves() <==> kind == Discontinuity::Seek,
{
}

/// A synced delay takes its time from the tempo, and one that is not keeps its own;
/// nothing else of it changes.
pub proof fn a_synced_delay_follows_the_tempo(
    params: crate::delay::DelayParams<Fixed>,
    bpm: Fixed,
)
    ensures
        ({
            let after = at_tempo(params, bpm);
            &&& params.tempo_sync ==> after.time_ms == crate::delay::division_ms(
                params.time_division,
                bpm,
            )
            &&& !params.tempo_sync ==> after == params
            &&& after == (crate::delay::DelayParams { time_ms: after.time_ms, ..params })
        }),
{
}

} // verus!
