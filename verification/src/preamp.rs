//! The channel strip's input stage, insertable on its own.
//!
//! The stage itself is a [`Stage`]; this is the device around it: the drive
//! into it, the blend, and the output level. A voicing is a different stage,
//! so choosing one builds afresh.

use vstd::prelude::*;

use crate::bus::{
    a_scrubbed_block_is_finite, all_finite, fitting, scrub_non_finite, scrubbed, StereoBus,
};
use crate::curves::{tau_of, Curves};
use crate::event::EventList;
use crate::fold::{
    after_frames, left_of, lemma_frame_rendered, lemma_nothing_rendered, right_of,
};
use crate::harmonics::{
    grip, harmonic_of, iron, moo, profile_of, punch, reference_amplitude_of, shaper_of,
    silent_db, DcBlocker, HarmonicProfile, HarmonicShaper,
};
use crate::level::{db_to_linear_unfloored, linear_of};
use crate::node::ProcessContext;
use crate::num::{
    clamp, clamp_of, min_of, nothing_mixed_in_is_dry, nothing_times, ratio, ratio_of, times_one,
    Fixed, Sample, Wide,
};
use crate::smooth::{a_settled_lag_stays, glide_coeff_of, settled, smoothed_next, Smoothed};
use crate::split::{carried_out, param_plan, process_param_split, Desk, RangeProcessor};

verus! {

pub const PREAMP_PARAM_DRIVE_DB: u32 = 0;

pub const PREAMP_PARAM_VOICING: u32 = 1;

pub const PREAMP_PARAM_MIX: u32 = 2;

pub const PREAMP_PARAM_OUTPUT_DB: u32 = 3;

#[derive(Clone, Copy, Debug, PartialEq, Eq, Structural)]
pub enum PreampVoicing {
    Moo,
    Grip,
    Punch,
    Iron,
}

impl PreampVoicing {
    pub open spec fn at(index: nat) -> Self {
        if index == 0 {
            PreampVoicing::Moo
        } else if index == 1 {
            PreampVoicing::Grip
        } else if index == 2 {
            PreampVoicing::Punch
        } else {
            PreampVoicing::Iron
        }
    }

    /// The voicing at an index, the last one for what is past it.
    pub fn from_index(index: usize) -> (voicing: Self)
        ensures
            voicing == Self::at(index as nat),
    {
        match index {
            0 => PreampVoicing::Moo,
            1 => PreampVoicing::Grip,
            2 => PreampVoicing::Punch,
            _ => PreampVoicing::Iron,
        }
    }
}

/// One channel of an input stage. As with [`Sample`], an implementation that
/// keeps the bodies given here is outside what is instantiated.
pub trait Stage<S: Sample>: Sized {
    /// The stage of a voicing, with nothing stored.
    closed spec fn made(voicing: PreampVoicing, sample_rate: u32) -> Self {
        arbitrary()
    }

    /// The stage after a sample, and what it makes of it.
    closed spec fn processed(self, input: S, drive: S) -> (Self, S) {
        arbitrary()
    }

    /// Whether the stage only scales.
    closed spec fn transparent(self) -> bool {
        arbitrary()
    }

    fn make(voicing: PreampVoicing, sample_rate: u32) -> (stage: Self)
        ensures
            stage == Self::made(voicing, sample_rate),
    ;

    fn process(&mut self, input: S, drive: S) -> (out: S)
        ensures
            (*final(self), out) == old(self).processed(input, drive),
    ;

    fn is_transparent(&self) -> (answer: bool)
        ensures
            answer == self.transparent(),
    ;
}

/// A stage of harmonics alone: the voicing's curve, and a coupling capacitor
/// at 5 Hz behind it.
#[derive(Clone, Copy, Debug)]
pub struct HarmonicStage<S> {
    pub shaper: HarmonicShaper<S>,
    pub blocker: DcBlocker<S>,
}

/// The harmonic signature of a voicing.
pub open spec fn voicing_profile<S: Sample>(voicing: PreampVoicing) -> HarmonicProfile<S> {
    match voicing {
        PreampVoicing::Moo => HarmonicProfile { second: silent_db(), third: silent_db() },
        PreampVoicing::Grip => profile_of(564, 403),
        PreampVoicing::Punch => profile_of(415, 469),
        PreampVoicing::Iron => profile_of(404, 517),
    }
}

fn voicing_table<S: Sample>(voicing: PreampVoicing) -> (profile: HarmonicProfile<S>)
    ensures
        profile == voicing_profile::<S>(voicing),
{
    match voicing {
        PreampVoicing::Moo => moo(),
        PreampVoicing::Grip => grip(),
        PreampVoicing::Punch => punch(),
        PreampVoicing::Iron => iron(),
    }
}

/// A blocker at 5 Hz.
pub open spec fn blocker_of<S: Curves>(sample_rate: u32) -> DcBlocker<S> {
    DcBlocker {
        coefficient: S::of_spec(1).minus(
            min_of(
                tau_of::<S>().times(S::of_spec(5)).over(
                    S::of_spec(if sample_rate < 1 { 1 } else { sample_rate as nat }),
                ),
                S::of_spec(1),
            ),
        ),
        last_input: S::of_spec(0),
        last_output: S::of_spec(0),
    }
}

impl<S: Curves + Wide<S>> Stage<S> for HarmonicStage<S> {
    open spec fn made(voicing: PreampVoicing, sample_rate: u32) -> Self {
        HarmonicStage {
            shaper: shaper_of::<S, S>(voicing_profile(voicing), reference_amplitude_of()),
            blocker: blocker_of(sample_rate),
        }
    }

    open spec fn processed(self, input: S, drive: S) -> (Self, S) {
        let driven = input.times(drive);
        if self.shaper.transparent {
            (self, driven)
        } else {
            let shaped = harmonic_of(self.shaper, driven);
            let out = shaped.minus(self.blocker.last_input).plus(
                self.blocker.coefficient.times(self.blocker.last_output),
            );
            (
                HarmonicStage {
                    blocker: DcBlocker {
                        coefficient: self.blocker.coefficient,
                        last_input: shaped,
                        last_output: out,
                    },
                    ..self
                },
                out,
            )
        }
    }

    open spec fn transparent(self) -> bool {
        self.shaper.transparent
    }

    fn make(voicing: PreampVoicing, sample_rate: u32) -> (stage: Self) {
        HarmonicStage {
            shaper: HarmonicShaper::new::<S>(voicing_table(voicing)),
            blocker: DcBlocker::new(sample_rate, S::of(5)),
        }
    }

    fn process(&mut self, input: S, drive: S) -> (out: S) {
        let driven = input.mul(drive);
        if self.shaper.is_transparent() {
            return driven;
        }
        self.blocker.process(self.shaper.shape(driven))
    }

    fn is_transparent(&self) -> (answer: bool) {
        self.shaper.is_transparent()
    }
}

/// The controls of the preamp.
#[derive(Clone, Copy, Debug)]
pub struct PreampParams<S> {
    pub drive_db: S,
    pub voicing: PreampVoicing,
    pub mix: S,
    pub output_db: S,
}

/// The preamp.
pub struct PreampEffect<S, P> {
    pub params: PreampParams<S>,
    pub sample_rate: u32,
    pub left: P,
    pub right: P,
    pub drive: Smoothed<S>,
    pub mix: Smoothed<S>,
    pub output: Smoothed<S>,
}

/// A trim held to 24 decibels either way.
pub open spec fn trim_of<S: Sample>(db: S) -> S {
    clamp_of(db, S::of_spec(24).negated(), S::of_spec(24))
}

fn trim<S: Sample>(db: S) -> (held: S)
    ensures
        held == trim_of(db),
{
    clamp(db, S::of(24).neg(), S::of(24))
}

pub open spec fn preamp_mix<S: Sample>(value: S) -> S {
    clamp_of(value, S::of_spec(0), S::of_spec(1))
}

/// One frame: the preamp after it, and what it puts out.
pub open spec fn preamp_frame<S: Sample, P: Stage<S>>(p: PreampEffect<S, P>, l: S, r: S) -> (
    PreampEffect<S, P>,
    (S, S),
) {
    let drive = smoothed_next(p.drive);
    let mix = smoothed_next(p.mix);
    let output = smoothed_next(p.output);
    let (left, wet_l) = p.left.processed(l, drive.value);
    let (right, wet_r) = p.right.processed(r, drive.value);
    (
        PreampEffect { left, right, drive, mix, output, ..p },
        (
            l.plus(wet_l.minus(l).times(mix.value)).times(output.value),
            r.plus(wet_r.minus(r).times(mix.value)).times(output.value),
        ),
    )
}

/// The preamp as a step.
pub open spec fn preamp_step<S: Sample, P: Stage<S>>() -> spec_fn(
    PreampEffect<S, P>,
    S,
    S,
) -> PreampEffect<S, P> {
    |p: PreampEffect<S, P>, l: S, r: S| preamp_frame(p, l, r).0
}

/// What the preamp puts out at a step.
pub open spec fn preamp_heard<S: Sample, P: Stage<S>>() -> spec_fn(PreampEffect<S, P>, S, S) -> (
    S,
    S,
) {
    |p: PreampEffect<S, P>, l: S, r: S| preamp_frame(p, l, r).1
}

/// The preamp with its stage built for its voicing. The new stage starts
/// empty: the old voicing's state through the new one's curve is neither.
pub open spec fn preamp_voiced<S: Sample, P: Stage<S>>(p: PreampEffect<S, P>) -> PreampEffect<S, P> {
    PreampEffect {
        left: P::made(p.params.voicing, p.sample_rate),
        right: P::made(p.params.voicing, p.sample_rate),
        ..p
    }
}

/// The preamp after a parameter was taken.
pub open spec fn preamp_taking<S: Curves, P: Stage<S>>(
    p: PreampEffect<S, P>,
    id: u32,
    value: S,
) -> PreampEffect<S, P> {
    let params = p.params;
    if id == PREAMP_PARAM_DRIVE_DB {
        let drive_db = trim_of(value);
        PreampEffect {
            params: PreampParams { drive_db, ..params },
            drive: Smoothed { target: linear_of(drive_db), ..p.drive },
            ..p
        }
    } else if id == PREAMP_PARAM_VOICING {
        let voicing = PreampVoicing::at(value.round_spec().whole_spec());
        if voicing == params.voicing {
            p
        } else {
            preamp_voiced(PreampEffect { params: PreampParams { voicing, ..params }, ..p })
        }
    } else if id == PREAMP_PARAM_MIX {
        let mix = preamp_mix(value);
        PreampEffect {
            params: PreampParams { mix, ..params },
            mix: Smoothed { target: mix, ..p.mix },
            ..p
        }
    } else if id == PREAMP_PARAM_OUTPUT_DB {
        let output_db = trim_of(value);
        PreampEffect {
            params: PreampParams { output_db, ..params },
            output: Smoothed { target: linear_of(output_db), ..p.output },
            ..p
        }
    } else {
        p
    }
}

/// The preamp as it begins a block.
pub open spec fn preamp_begun<S: Curves, P: Stage<S>>(
    p: PreampEffect<S, P>,
    sample_rate: u32,
) -> PreampEffect<S, P> {
    if sample_rate == p.sample_rate {
        p
    } else {
        let coeff = glide_coeff_of(ratio_of(5, 1000), sample_rate);
        PreampEffect {
            drive: Smoothed { coeff, ..p.drive },
            mix: Smoothed { coeff, ..p.mix },
            output: Smoothed { coeff, ..p.output },
            ..preamp_voiced(PreampEffect { sample_rate, ..p })
        }
    }
}

/// Whether the preamp's knobs stand still.
pub open spec fn preamp_still<S, P>(p: PreampEffect<S, P>) -> bool where S: Sample {
    settled(p.drive) && settled(p.mix) && settled(p.output)
}

/// A preamp as it is made, its lags where its controls are.
pub open spec fn preamp_new<S: Curves, P: Stage<S>>(
    params: PreampParams<S>,
    sample_rate: u32,
) -> PreampEffect<S, P> {
    let coeff = glide_coeff_of(ratio_of(5, 1000), sample_rate);
    let drive = linear_of(trim_of(params.drive_db));
    let mix = preamp_mix(params.mix);
    let output = linear_of(trim_of(params.output_db));
    PreampEffect {
        params,
        sample_rate,
        left: P::made(params.voicing, sample_rate),
        right: P::made(params.voicing, sample_rate),
        drive: Smoothed { value: drive, target: drive, coeff },
        mix: Smoothed { value: mix, target: mix, coeff },
        output: Smoothed { value: output, target: output, coeff },
    }
}

impl<S: Curves, P: Stage<S>> PreampEffect<S, P> {
    pub fn new(params: PreampParams<S>, sample_rate: u32) -> (effect: Self)
        ensures
            effect == preamp_new::<S, P>(params, sample_rate),
    {
        let time = ratio::<S>(5, 1000);
        PreampEffect {
            params,
            sample_rate,
            left: P::make(params.voicing, sample_rate),
            right: P::make(params.voicing, sample_rate),
            drive: Smoothed::new(
                db_to_linear_unfloored(trim(params.drive_db)),
                time,
                sample_rate,
            ),
            mix: Smoothed::new(clamp(params.mix, S::of(0), S::of(1)), time, sample_rate),
            output: Smoothed::new(
                db_to_linear_unfloored(trim(params.output_db)),
                time,
                sample_rate,
            ),
        }
    }

    pub fn params(&self) -> (params: PreampParams<S>)
        ensures
            params == self.params,
    {
        self.params
    }

    /// Replace the parameter set wholesale: jump straight to the new values.
    pub fn set_params(&mut self, params: PreampParams<S>)
        ensures
            ({
                let drive = linear_of(trim_of(params.drive_db));
                let mix = preamp_mix(params.mix);
                let output = linear_of(trim_of(params.output_db));
                let set = PreampEffect {
                    params,
                    drive: Smoothed { value: drive, target: drive, ..old(self).drive },
                    mix: Smoothed { value: mix, target: mix, ..old(self).mix },
                    output: Smoothed { value: output, target: output, ..old(self).output },
                    ..*old(self)
                };
                *final(self) == (if params.voicing == old(self).params.voicing {
                    set
                } else {
                    preamp_voiced(set)
                })
            }),
    {
        let voicing_changed = params.voicing != self.params.voicing;
        self.params = params;
        if voicing_changed {
            self.rebuild_voicing();
        }
        self.drive.reset_to(db_to_linear_unfloored(trim(params.drive_db)));
        self.mix.reset_to(clamp(params.mix, S::of(0), S::of(1)));
        self.output.reset_to(db_to_linear_unfloored(trim(params.output_db)));
    }

    /// Swap the stage for a different voicing.
    fn rebuild_voicing(&mut self)
        ensures
            *final(self) == preamp_voiced(*old(self)),
    {
        self.left = P::make(self.params.voicing, self.sample_rate);
        self.right = P::make(self.params.voicing, self.sample_rate);
    }

    /// Nothing looks ahead.
    pub fn latency_frames(&self) -> (frames: u32)
        ensures
            frames == 0,
    {
        0
    }

    /// A second covers the slowest filter of any voicing. A transparent one
    /// runs none.
    pub fn tail_frames(&self) -> (frames: u32)
        ensures
            frames == (if !preamp_still(*self) {
                u32::MAX
            } else if self.left.transparent() {
                0
            } else {
                self.sample_rate
            }),
    {
        if !self.drive.is_settled() || !self.mix.is_settled() || !self.output.is_settled() {
            return u32::MAX;
        }
        if self.left.is_transparent() {
            return 0;
        }
        self.sample_rate
    }

    /// A transparent voicing is memoryless, so it is at rest as soon as its
    /// trims have stopped moving.
    pub fn is_at_rest(&self) -> (answer: bool)
        ensures
            answer == (self.left.transparent() && preamp_still(*self)),
    {
        self.left.is_transparent() && self.drive.is_settled() && self.mix.is_settled()
            && self.output.is_settled()
    }

    /// One frame: the stage and the blend.
    fn process_frame(&mut self, dry_l: S, dry_r: S) -> (out: (S, S))
        ensures
            (*final(self), out) == preamp_frame(*old(self), dry_l, dry_r),
    {
        let drive = self.drive.advance();
        let mix = self.mix.advance();
        let output = self.output.advance();
        let wet_l = self.left.process(dry_l, drive);
        let wet_r = self.right.process(dry_r, drive);
        (
            dry_l.add(wet_l.sub(dry_l).mul(mix)).mul(output),
            dry_r.add(wet_r.sub(dry_r).mul(mix)).mul(output),
        )
    }

    /// Render a block: fit a changed rate, render between the parameter
    /// events, and put silence in place of what is not finite; if anything was
    /// not, the stage starts empty.
    pub fn process<B: Copy>(
        &mut self,
        ctx: &ProcessContext,
        bus: &mut StereoBus<S>,
        events_in: &EventList<S, B>,
    )
        requires
            old(bus).well_formed(),
        ensures
            final(bus).well_formed(),
            S::of_spec(0).finite_spec() ==> all_finite(
                final(bus).l@,
                fitting(ctx.frames as int, old(bus).l@.len() as int),
            ) && all_finite(
                final(bus).r@,
                fitting(ctx.frames as int, old(bus).l@.len() as int),
            ),
            exists|split: Desk<Self, S>| #[trigger]
                carried_out(
                    Desk {
                        node: preamp_begun(*old(self), ctx.sample_rate),
                        l: old(bus).l@,
                        r: old(bus).r@,
                    },
                    param_plan(
                        events_in@,
                        fitting(ctx.frames as int, old(bus).l@.len() as int),
                    ),
                    split,
                ) && preamp_scrubbed(
                    split,
                    fitting(ctx.frames as int, old(bus).l@.len() as int),
                    *final(self),
                    final(bus).l@,
                    final(bus).r@,
                ),
    {
        if ctx.sample_rate != self.sample_rate {
            let time = ratio::<S>(5, 1000);
            self.sample_rate = ctx.sample_rate;
            self.rebuild_voicing();
            self.drive.set_time(time, ctx.sample_rate);
            self.mix.set_time(time, ctx.sample_rate);
            self.output.set_time(time, ctx.sample_rate);
        }
        let ghost begun = *self;
        let capacity: usize = bus.capacity();
        let frames: usize = if ctx.frames < capacity {
            ctx.frames
        } else {
            capacity
        };
        process_param_split(self, bus, events_in, frames);
        let ghost split = Desk { node: *self, l: bus.l@, r: bus.r@ };
        if scrub_non_finite(bus, frames) {
            self.rebuild_voicing();
        }
        proof {
            if S::of_spec(0).finite_spec() {
                a_scrubbed_block_is_finite(split.l, frames as int);
                a_scrubbed_block_is_finite(split.r, frames as int);
            }
            assert(frames == fitting(ctx.frames as int, old(bus).l@.len() as int));
            assert(begun == preamp_begun(*old(self), ctx.sample_rate));
            assert(carried_out(
                Desk { node: begun, l: old(bus).l@, r: old(bus).r@ },
                param_plan(events_in@, frames as int),
                split,
            ));
            assert(preamp_scrubbed(split, frames as int, *self, bus.l@, bus.r@));
        }
    }
}

/// What is left of a rendered block once it has been scrubbed.
pub open spec fn preamp_scrubbed<S: Sample, P: Stage<S>>(
    split: Desk<PreampEffect<S, P>, S>,
    frames: int,
    after: PreampEffect<S, P>,
    l: Seq<S>,
    r: Seq<S>,
) -> bool {
    &&& l == scrubbed(split.l, frames)
    &&& r == scrubbed(split.r, frames)
    &&& after == (if all_finite(split.l, frames) && all_finite(split.r, frames) {
        split.node
    } else {
        preamp_voiced(split.node)
    })
}

impl<S: Curves, P: Stage<S>> RangeProcessor<S> for PreampEffect<S, P> {
    open spec fn ready(&self) -> bool {
        true
    }

    open spec fn renders(
        &self,
        l: Seq<S>,
        r: Seq<S>,
        start: int,
        end: int,
        after: &Self,
        new_l: Seq<S>,
        new_r: Seq<S>,
    ) -> bool {
        &&& *after == after_frames(preamp_step(), *self, l, r, start, end - start)
        &&& new_l == left_of(preamp_step(), preamp_heard(), *self, l, r, start, end)
        &&& new_r == right_of(preamp_step(), preamp_heard(), *self, l, r, start, end)
    }

    open spec fn takes(&self, id: u32, value: S, after: &Self) -> bool {
        *after == preamp_taking(*self, id, value)
    }

    fn process_range(&mut self, bus: &mut StereoBus<S>, start: usize, end: usize) {
        let ghost before = *self;
        let ghost l = bus.l@;
        let ghost r = bus.r@;
        proof {
            lemma_nothing_rendered(preamp_step(), preamp_heard(), before, l, r, start as int);
        }
        let mut i: usize = start;
        while i < end
            invariant
                start <= i <= end <= l.len(),
                l.len() == r.len(),
                bus.l@.len() == l.len(),
                bus.r@.len() == r.len(),
                *self == after_frames(preamp_step(), before, l, r, start as int, i - start),
                bus.l@ == left_of(
                    preamp_step(),
                    preamp_heard(),
                    before,
                    l,
                    r,
                    start as int,
                    i as int,
                ),
                bus.r@ == right_of(
                    preamp_step(),
                    preamp_heard(),
                    before,
                    l,
                    r,
                    start as int,
                    i as int,
                ),
            decreases end - i,
        {
            proof {
                lemma_frame_rendered(
                    preamp_step(),
                    preamp_heard(),
                    before,
                    l,
                    r,
                    start as int,
                    i as int,
                );
            }
            let ghost here = *self;
            let (out_l, out_r) = self.process_frame(bus.l[i], bus.r[i]);
            assert(*self == preamp_frame(here, l[i as int], r[i as int]).0);
            assert((out_l, out_r) == preamp_frame(here, l[i as int], r[i as int]).1);
            bus.l[i] = out_l;
            bus.r[i] = out_r;
            i = i + 1;
        }
    }

    fn apply_param(&mut self, id: u32, value: S) {
        match id {
            PREAMP_PARAM_DRIVE_DB => {
                self.params.drive_db = trim(value);
                self.drive.set_target(db_to_linear_unfloored(self.params.drive_db));
            },
            PREAMP_PARAM_VOICING => {
                let voicing = PreampVoicing::from_index(value.round().whole());
                if voicing != self.params.voicing {
                    self.params.voicing = voicing;
                    self.rebuild_voicing();
                }
            },
            PREAMP_PARAM_MIX => {
                self.params.mix = clamp(value, S::of(0), S::of(1));
                self.mix.set_target(self.params.mix);
            },
            PREAMP_PARAM_OUTPUT_DB => {
                self.params.output_db = trim(value);
                self.output.set_target(db_to_linear_unfloored(self.params.output_db));
            },
            _ => {},
        }
    }
}

/// Choosing the voicing that is chosen does not disturb the stage.
pub proof fn a_repeated_voicing_keeps_the_stage<S: Curves, P: Stage<S>>(
    p: PreampEffect<S, P>,
    value: S,
)
    requires
        PreampVoicing::at(value.round_spec().whole_spec()) == p.params.voicing,
    ensures
        preamp_taking(p, PREAMP_PARAM_VOICING, value) == p,
{
}

/// A transparent voicing at unity is the identity, sample for sample: a device
/// inserted and left alone colours nothing.
pub proof fn a_transparent_preamp_is_the_identity(
    p: PreampEffect<Fixed, HarmonicStage<Fixed>>,
    l: Fixed,
    r: Fixed,
)
    requires
        p.left.shaper.transparent,
        p.right.shaper.transparent,
        preamp_still(p),
        p.drive.value == Fixed::of_spec(1),
        p.output.value == Fixed::of_spec(1),
    ensures
        preamp_frame(p, l, r) == (p, (l, r)),
{
    a_settled_lag_stays(p.drive);
    a_settled_lag_stays(p.mix);
    a_settled_lag_stays(p.output);
    times_one(l);
    times_one(r);
    nothing_times(p.mix.value);
}

/// A mix of nothing is the dry signal, whatever the stage does.
pub proof fn no_mix_is_the_input<P: Stage<Fixed>>(p: PreampEffect<Fixed, P>, l: Fixed, r: Fixed)
    requires
        settled(p.mix),
        p.mix.value == Fixed::of_spec(0),
        settled(p.output),
        p.output.value == Fixed::of_spec(1),
    ensures
        preamp_frame(p, l, r).1 == (l, r),
{
    a_settled_lag_stays(p.mix);
    a_settled_lag_stays(p.output);
    let drive = smoothed_next(p.drive).value;
    nothing_mixed_in_is_dry(l, p.left.processed(l, drive).1);
    nothing_mixed_in_is_dry(r, p.right.processed(r, drive).1);
    times_one(l);
    times_one(r);
}

/// A preamp that may be left alone stays silent: a silent frame comes out
/// silent, and changes nothing.
pub proof fn a_resting_preamp_stays_silent(p: PreampEffect<Fixed, HarmonicStage<Fixed>>)
    requires
        p.left.transparent(),
        p.right.transparent(),
        preamp_still(p),
    ensures
        preamp_frame(p, Fixed::of_spec(0), Fixed::of_spec(0)) == (
            p,
            (Fixed::of_spec(0), Fixed::of_spec(0)),
        ),
{
    a_settled_lag_stays(p.drive);
    a_settled_lag_stays(p.mix);
    a_settled_lag_stays(p.output);
    nothing_times(p.drive.value);
    nothing_times(p.mix.value);
    nothing_times(p.output.value);
}

} // verus!
