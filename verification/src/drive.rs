//! Drive and saturation: a shaping curve, a post-shaper spectral tilt, and a
//! dry/wet blend.
//!
//! The shaper itself is a [`Saturator`]: what it does to a sample, and how
//! late, is its own affair. The dry path is held back by as much, so that
//! partial mixes do not comb.

use vstd::prelude::*;

use crate::bus::{
    a_scrubbed_block_is_finite, all_finite, fitting, scrub_non_finite, scrubbed, StereoBus,
};
use crate::curves::Curves;
use crate::event::EventList;
use crate::filter::{leaked, pole_decay, OnePoleLp};
use crate::fold::{
    after_frames, left_of, lemma_frame_rendered, lemma_nothing_rendered, right_of,
};
use crate::node::ProcessContext;
use crate::num::{
    clamp, clamp_of, nothing_mixed_in_is_dry, nothing_times, ratio, ratio_of, times_one, within,
    Fixed, Sample,
};
use crate::ring::{forgotten, remembered, Shift};
use crate::smooth::{a_settled_lag_stays, glide_coeff_of, settled, smoothed_next, Smoothed};
use crate::split::{carried_out, param_plan, process_param_split, Desk, RangeProcessor};

verus! {

pub const DRIVE_PARAM_DRIVE: u32 = 0;

pub const DRIVE_PARAM_CURVE: u32 = 1;

pub const DRIVE_PARAM_TONE: u32 = 2;

pub const DRIVE_PARAM_MIX: u32 = 3;

pub const DRIVE_PARAM_OUTPUT: u32 = 4;

#[derive(Clone, Copy, Debug, PartialEq, Eq, Structural)]
pub enum DriveCurve {
    Soft,
    Hard,
    Fold,
    Tape,
}

impl DriveCurve {
    pub open spec fn at(index: nat) -> Self {
        if index == 0 {
            DriveCurve::Soft
        } else if index == 1 {
            DriveCurve::Hard
        } else if index == 2 {
            DriveCurve::Fold
        } else {
            DriveCurve::Tape
        }
    }

    /// The curve at an index, the last one for what is past it.
    pub fn from_index(index: usize) -> (curve: Self)
        ensures
            curve == Self::at(index as nat),
    {
        match index {
            0 => DriveCurve::Soft,
            1 => DriveCurve::Hard,
            2 => DriveCurve::Fold,
            _ => DriveCurve::Tape,
        }
    }
}

/// One channel of a shaper. As with [`Sample`], an implementation that
/// keeps the bodies given here is outside what is instantiated.
pub trait Saturator<S: Sample>: Sized {
    /// The shaper after a sample, and what it makes of it.
    closed spec fn shaped(self, input: S, curve: DriveCurve, drive: S) -> (Self, S) {
        arbitrary()
    }

    /// The gain that brings a signal at the operating level back to it.
    closed spec fn makeup_spec(curve: DriveCurve, drive: S) -> S {
        arbitrary()
    }

    /// The shaper with nothing stored.
    closed spec fn made() -> Self {
        arbitrary()
    }

    /// How many frames late the shaper is.
    closed spec fn lateness() -> nat {
        arbitrary()
    }

    fn make() -> (shaper: Self)
        ensures
            shaper == Self::made(),
    ;

    fn latency() -> (frames: usize)
        ensures
            frames == Self::lateness(),
            frames > 0,
    ;

    fn process(&mut self, input: S, curve: DriveCurve, drive: S) -> (out: S)
        ensures
            (*final(self), out) == old(self).shaped(input, curve, drive),
    ;

    fn makeup(curve: DriveCurve, drive: S) -> (gain: S)
        ensures
            gain == Self::makeup_spec(curve, drive),
    ;
}

/// A plain soft clip, one frame late, whatever the curve.
#[derive(Clone, Copy, Debug)]
pub struct SoftClip<S> {
    pub last: S,
}

impl<S: Curves> Saturator<S> for SoftClip<S> {
    open spec fn shaped(self, input: S, curve: DriveCurve, drive: S) -> (Self, S) {
        (SoftClip { last: input.times(drive).tanh_spec() }, self.last)
    }

    open spec fn makeup_spec(curve: DriveCurve, drive: S) -> S {
        let reference = ratio_of::<S>(1, 4);
        reference.over(reference.times(drive).tanh_spec())
    }

    open spec fn made() -> Self {
        SoftClip { last: S::of_spec(0) }
    }

    open spec fn lateness() -> nat {
        1
    }

    fn make() -> (shaper: Self) {
        SoftClip { last: S::of(0) }
    }

    fn latency() -> (frames: usize) {
        1
    }

    fn process(&mut self, input: S, curve: DriveCurve, drive: S) -> (out: S) {
        let out = self.last;
        self.last = input.mul(drive).tanh();
        out
    }

    fn makeup(curve: DriveCurve, drive: S) -> (gain: S) {
        let reference = ratio::<S>(1, 4);
        reference.div(reference.mul(drive).tanh())
    }
}

/// The controls of the drive.
#[derive(Clone, Copy, Debug)]
pub struct DriveParams<S> {
    pub drive: S,
    pub curve: DriveCurve,
    pub tone: S,
    pub mix: S,
    pub output: S,
}

/// The drive.
pub struct DriveEffect<S, O> {
    params: DriveParams<S>,
    sample_rate: u32,
    left: O,
    right: O,
    /// The dry path, held back by the shaper's latency.
    dry_l: Shift<S>,
    dry_r: Shift<S>,
    /// One-pole low-pass for the tone tilt, per channel.
    tone_lp_l: OnePoleLp<S>,
    tone_lp_r: OnePoleLp<S>,
    drive: Smoothed<S>,
    tone: Smoothed<S>,
    mix: Smoothed<S>,
    output: Smoothed<S>,
    /// The makeup gain for `compensation_for`, kept while the curve and the
    /// smoothed drive stay where they were.
    compensation: S,
    compensation_for: Option<(DriveCurve, S)>,
}

/// What the drive is.
pub struct Driving<S, O> {
    pub params: DriveParams<S>,
    pub sample_rate: u32,
    pub left: O,
    pub right: O,
    pub dry_l: Seq<S>,
    pub dry_r: Seq<S>,
    pub tone_lp_l: OnePoleLp<S>,
    pub tone_lp_r: OnePoleLp<S>,
    pub drive: Smoothed<S>,
    pub tone: Smoothed<S>,
    pub mix: Smoothed<S>,
    pub output: Smoothed<S>,
}

impl<S, O> View for DriveEffect<S, O> {
    type V = Driving<S, O>;

    closed spec fn view(&self) -> Driving<S, O> {
        Driving {
            params: self.params,
            sample_rate: self.sample_rate,
            left: self.left,
            right: self.right,
            dry_l: self.dry_l@,
            dry_r: self.dry_r@,
            tone_lp_l: self.tone_lp_l,
            tone_lp_r: self.tone_lp_r,
            drive: self.drive,
            tone: self.tone,
            mix: self.mix,
            output: self.output,
        }
    }
}

/// How the tilt weights the high band: up to four times, or down to nothing.
pub open spec fn tilt_gain<S: Sample>(tone: S) -> S {
    if S::of_spec(0).at_most(tone) {
        S::of_spec(1).plus(tone.times(S::of_spec(3)))
    } else {
        S::of_spec(1).plus(tone)
    }
}

/// A sample with its high band weighted, `low` being its low band.
pub open spec fn tilted<S: Sample>(sample: S, low: S, tone: S) -> S {
    low.plus(sample.minus(low).times(tilt_gain(tone)))
}

/// Split the low and high bands and re-weight the high one.
fn tilt<S: Sample>(state: &mut OnePoleLp<S>, sample: S, tone: S) -> (out: S)
    ensures
        ({
            let low = leaked(old(state).state, sample, old(state).coeff);
            &&& *final(state) == (OnePoleLp { state: low, coeff: old(state).coeff })
            &&& out == tilted(sample, low, tone)
        }),
{
    let low = state.next_sample(sample);
    let high = sample.sub(low);
    let gain = if S::of(0).le(tone) {
        S::of(1).add(tone.mul(S::of(3)))
    } else {
        S::of(1).add(tone)
    };
    low.add(high.mul(gain))
}

/// At no tone the two bands sum back to the input exactly.
pub proof fn a_flat_tilt_is_the_identity(sample: Fixed, low: Fixed)
    requires
        within(sample, 0x2000_0000_0000_0000),
        within(low, 0x2000_0000_0000_0000),
    ensures
        tilted(sample, low, Fixed::of_spec(0)) == sample,
{
    let high = sample.minus(low);
    nothing_times(Fixed::of_spec(3));
    times_one(high);
}

/// One channel's blend of the dry and the wet, at the output level.
pub open spec fn blend_of<S: Sample>(dry: S, wet: S, mix: S, output: S) -> S {
    dry.plus(wet.minus(dry).times(mix)).times(output)
}

/// One frame: the drive after it, and what it puts out.
pub open spec fn drive_frame<S: Sample, O: Saturator<S>>(d: Driving<S, O>, l: S, r: S) -> (
    Driving<S, O>,
    (S, S),
) {
    let drive = smoothed_next(d.drive);
    let tone = smoothed_next(d.tone);
    let mix = smoothed_next(d.mix);
    let output = smoothed_next(d.output);
    let makeup = O::makeup_spec(d.params.curve, drive.value);
    let (left, shaped_l) = d.left.shaped(l, d.params.curve, drive.value);
    let (right, shaped_r) = d.right.shaped(r, d.params.curve, drive.value);
    let wet_l = shaped_l.times(makeup);
    let wet_r = shaped_r.times(makeup);
    let low_l = leaked(d.tone_lp_l.state, wet_l, d.tone_lp_l.coeff);
    let low_r = leaked(d.tone_lp_r.state, wet_r, d.tone_lp_r.coeff);
    (
        Driving {
            left,
            right,
            dry_l: remembered(d.dry_l, l),
            dry_r: remembered(d.dry_r, r),
            tone_lp_l: OnePoleLp { state: low_l, coeff: d.tone_lp_l.coeff },
            tone_lp_r: OnePoleLp { state: low_r, coeff: d.tone_lp_r.coeff },
            drive,
            tone,
            mix,
            output,
            ..d
        },
        (
            blend_of(d.dry_l.last(), tilted(wet_l, low_l, tone.value), mix.value, output.value),
            blend_of(d.dry_r.last(), tilted(wet_r, low_r, tone.value), mix.value, output.value),
        ),
    )
}

/// The drive as a step.
pub open spec fn drive_step<S: Sample, O: Saturator<S>>() -> spec_fn(
    Driving<S, O>,
    S,
    S,
) -> Driving<S, O> {
    |d: Driving<S, O>, l: S, r: S| drive_frame(d, l, r).0
}

/// What the drive puts out at a step.
pub open spec fn drive_heard<S: Sample, O: Saturator<S>>() -> spec_fn(Driving<S, O>, S, S) -> (
    S,
    S,
) {
    |d: Driving<S, O>, l: S, r: S| drive_frame(d, l, r).1
}

pub open spec fn drive_of<S: Sample>(value: S) -> S {
    clamp_of(value, S::of_spec(1), S::of_spec(64))
}

pub open spec fn tone_of<S: Sample>(value: S) -> S {
    clamp_of(value, S::of_spec(1).negated(), S::of_spec(1))
}

pub open spec fn mix_of<S: Sample>(value: S) -> S {
    clamp_of(value, S::of_spec(0), S::of_spec(1))
}

pub open spec fn output_of<S: Sample>(value: S) -> S {
    clamp_of(value, S::of_spec(0), S::of_spec(2))
}

/// The drive after a parameter was taken.
pub open spec fn drive_taking<S: Sample, O>(d: Driving<S, O>, id: u32, value: S) -> Driving<S, O> {
    let params = d.params;
    if id == DRIVE_PARAM_DRIVE {
        let drive = drive_of(value);
        Driving {
            params: DriveParams { drive, ..params },
            drive: Smoothed { target: drive, ..d.drive },
            ..d
        }
    } else if id == DRIVE_PARAM_CURVE {
        let curve = DriveCurve::at(value.round_spec().whole_spec());
        Driving { params: DriveParams { curve, ..params }, ..d }
    } else if id == DRIVE_PARAM_TONE {
        let tone = tone_of(value);
        Driving {
            params: DriveParams { tone, ..params },
            tone: Smoothed { target: tone, ..d.tone },
            ..d
        }
    } else if id == DRIVE_PARAM_MIX {
        let mix = mix_of(value);
        Driving {
            params: DriveParams { mix, ..params },
            mix: Smoothed { target: mix, ..d.mix },
            ..d
        }
    } else if id == DRIVE_PARAM_OUTPUT {
        let output = output_of(value);
        Driving {
            params: DriveParams { output, ..params },
            output: Smoothed { target: output, ..d.output },
            ..d
        }
    } else {
        d
    }
}

/// The tilt's split, at 1.5 kHz.
pub open spec fn split_coeff<S: Curves>(sample_rate: u32) -> S {
    S::of_spec(1).minus(pole_decay(S::of_spec(1_500), sample_rate))
}

/// The drive fitted to another rate.
pub open spec fn drive_refitted<S: Curves, O>(d: Driving<S, O>, sample_rate: u32) -> Driving<S, O> {
    if sample_rate == d.sample_rate {
        d
    } else {
        let coeff = glide_coeff_of(ratio_of(5, 1000), sample_rate);
        Driving {
            sample_rate,
            tone_lp_l: OnePoleLp { state: d.tone_lp_l.state, coeff: split_coeff(sample_rate) },
            tone_lp_r: OnePoleLp { state: d.tone_lp_r.state, coeff: split_coeff(sample_rate) },
            drive: Smoothed { coeff, ..d.drive },
            tone: Smoothed { coeff, ..d.tone },
            mix: Smoothed { coeff, ..d.mix },
            output: Smoothed { coeff, ..d.output },
            ..d
        }
    }
}

/// How long the drive goes on sounding: twenty milliseconds and its latency. A
/// knob still travelling keeps it awake.
pub open spec fn drive_tail<S: Sample, O>(d: Driving<S, O>) -> u32 {
    if !settled(d.drive) || !settled(d.tone) || !settled(d.mix) || !settled(d.output) {
        u32::MAX
    } else {
        let frames = d.sample_rate as int / 50 + d.dry_l.len();
        if frames > u32::MAX {
            u32::MAX
        } else {
            frames as u32
        }
    }
}

/// A drive as it is made, its lags where its controls are.
pub open spec fn drive_new<S: Curves, O: Saturator<S>>(
    params: DriveParams<S>,
    sample_rate: u32,
) -> Driving<S, O> {
    let coeff = glide_coeff_of(ratio_of(5, 1000), sample_rate);
    let split = OnePoleLp { state: S::of_spec(0), coeff: split_coeff(sample_rate) };
    let drive = drive_of(params.drive);
    let tone = tone_of(params.tone);
    let mix = mix_of(params.mix);
    let output = output_of(params.output);
    Driving {
        params,
        sample_rate,
        left: O::made(),
        right: O::made(),
        dry_l: forgotten(O::lateness()),
        dry_r: forgotten(O::lateness()),
        tone_lp_l: split,
        tone_lp_r: split,
        drive: Smoothed { value: drive, target: drive, coeff },
        tone: Smoothed { value: tone, target: tone, coeff },
        mix: Smoothed { value: mix, target: mix, coeff },
        output: Smoothed { value: output, target: output, coeff },
    }
}

impl<S: Curves, O: Saturator<S>> DriveEffect<S, O> {
    pub closed spec fn well_formed(&self) -> bool {
        &&& self.dry_l.well_formed()
        &&& self.dry_r.well_formed()
        &&& self.compensation_for is Some ==> self.compensation == O::makeup_spec(
            self.compensation_for->Some_0.0,
            self.compensation_for->Some_0.1,
        )
    }

    pub fn new(params: DriveParams<S>, sample_rate: u32) -> (effect: Self)
        ensures
            effect.well_formed(),
            effect@ == drive_new::<S, O>(params, sample_rate),
    {
        let latency: usize = O::latency();
        let time = ratio::<S>(5, 1000);
        let mut split = OnePoleLp::new();
        split.set_cutoff(S::of(1_500), sample_rate);
        let effect = DriveEffect {
            params,
            sample_rate,
            left: O::make(),
            right: O::make(),
            dry_l: Shift::filled(latency, S::of(0)),
            dry_r: Shift::filled(latency, S::of(0)),
            tone_lp_l: split,
            tone_lp_r: split,
            drive: Smoothed::new(clamp(params.drive, S::of(1), S::of(64)), time, sample_rate),
            tone: Smoothed::new(
                clamp(params.tone, S::of(1).neg(), S::of(1)),
                time,
                sample_rate,
            ),
            mix: Smoothed::new(clamp(params.mix, S::of(0), S::of(1)), time, sample_rate),
            output: Smoothed::new(clamp(params.output, S::of(0), S::of(2)), time, sample_rate),
            compensation: S::of(1),
            compensation_for: None,
        };
        assert(effect@.dry_l =~= forgotten::<S>(latency as nat));
        assert(effect@.dry_r =~= forgotten::<S>(latency as nat));
        effect
    }

    pub fn params(&self) -> (params: DriveParams<S>)
        ensures
            params == self@.params,
    {
        self.params
    }

    /// Replace the parameter set wholesale: jump straight to the new values.
    pub fn set_params(&mut self, params: DriveParams<S>)
        requires
            old(self).well_formed(),
        ensures
            final(self).well_formed(),
            ({
                let before = old(self)@;
                let drive = drive_of(params.drive);
                let tone = tone_of(params.tone);
                let mix = mix_of(params.mix);
                let output = output_of(params.output);
                final(self)@ == Driving {
                    params,
                    drive: Smoothed { value: drive, target: drive, ..before.drive },
                    tone: Smoothed { value: tone, target: tone, ..before.tone },
                    mix: Smoothed { value: mix, target: mix, ..before.mix },
                    output: Smoothed { value: output, target: output, ..before.output },
                    ..before
                }
            }),
    {
        self.params = params;
        self.drive.reset_to(clamp(params.drive, S::of(1), S::of(64)));
        self.tone.reset_to(clamp(params.tone, S::of(1).neg(), S::of(1)));
        self.mix.reset_to(clamp(params.mix, S::of(0), S::of(1)));
        self.output.reset_to(clamp(params.output, S::of(0), S::of(2)));
    }

    pub fn latency_frames(&self) -> (frames: usize)
        ensures
            frames == self@.dry_l.len(),
    {
        self.dry_l.len()
    }

    pub fn tail_frames(&self) -> (frames: u32)
        ensures
            frames == drive_tail(self@),
    {
        if !self.drive.is_settled() || !self.tone.is_settled() || !self.mix.is_settled()
            || !self.output.is_settled() {
            return u32::MAX;
        }
        let latency: usize = self.dry_l.len();
        let drain: u32 = self.sample_rate / 50;
        if latency > (u32::MAX - drain) as usize {
            u32::MAX
        } else {
            drain + latency as u32
        }
    }

    /// The makeup gain, worked out only where the curve or the drive moved.
    fn compensate(&mut self, drive: S) -> (gain: S)
        requires
            old(self).well_formed(),
        ensures
            final(self).well_formed(),
            final(self)@ == old(self)@,
            gain == O::makeup_spec(old(self)@.params.curve, drive),
    {
        let curve = self.params.curve;
        let kept = match self.compensation_for {
            Some((shape, level)) => shape == curve && level.same(drive),
            None => false,
        };
        if !kept {
            self.compensation = O::makeup(curve, drive);
            self.compensation_for = Some((curve, drive));
        }
        self.compensation
    }

    /// One frame: shape, tilt, align and blend.
    fn process_frame(&mut self, dry_l: S, dry_r: S) -> (out: (S, S))
        requires
            old(self).well_formed(),
        ensures
            final(self).well_formed(),
            (final(self)@, out) == drive_frame(old(self)@, dry_l, dry_r),
    {
        let drive = self.drive.advance();
        let tone = self.tone.advance();
        let mix = self.mix.advance();
        let output = self.output.advance();
        let compensation = self.compensate(drive);
        let curve = self.params.curve;
        let wet_l = self.left.process(dry_l, curve, drive).mul(compensation);
        let wet_r = self.right.process(dry_r, curve, drive).mul(compensation);
        let wet_l = tilt(&mut self.tone_lp_l, wet_l, tone);
        let wet_r = tilt(&mut self.tone_lp_r, wet_r, tone);
        let aligned_l = self.dry_l.pass(dry_l);
        let aligned_r = self.dry_r.pass(dry_r);
        (
            aligned_l.add(wet_l.sub(aligned_l).mul(mix)).mul(output),
            aligned_r.add(wet_r.sub(aligned_r).mul(mix)).mul(output),
        )
    }

    /// Render a block: fit a changed rate, render between the parameter
    /// events, and put silence in place of what is not finite; if anything was
    /// not, the tilt starts empty.
    pub fn process<B: Copy>(
        &mut self,
        ctx: &ProcessContext,
        bus: &mut StereoBus<S>,
        events_in: &EventList<S, B>,
    )
        requires
            old(self).well_formed(),
            old(bus).well_formed(),
        ensures
            final(self).well_formed(),
            final(bus).well_formed(),
            S::of_spec(0).finite_spec() ==> all_finite(
                final(bus).l@,
                fitting(ctx.frames as int, old(bus).l@.len() as int),
            ) && all_finite(
                final(bus).r@,
                fitting(ctx.frames as int, old(bus).l@.len() as int),
            ),
            exists|fitted: Self, split: Desk<Self, S>|
                fitted@ == drive_refitted(old(self)@, ctx.sample_rate)
                    && #[trigger] carried_out(
                    Desk { node: fitted, l: old(bus).l@, r: old(bus).r@ },
                    param_plan(
                        events_in@,
                        fitting(ctx.frames as int, old(bus).l@.len() as int),
                    ),
                    split,
                ) && drive_scrubbed(
                    split,
                    fitting(ctx.frames as int, old(bus).l@.len() as int),
                    *final(self),
                    final(bus).l@,
                    final(bus).r@,
                ),
    {
        if ctx.sample_rate != self.sample_rate {
            let time = ratio::<S>(5, 1000);
            self.sample_rate = ctx.sample_rate;
            self.tone_lp_l.set_cutoff(S::of(1_500), ctx.sample_rate);
            self.tone_lp_r.set_cutoff(S::of(1_500), ctx.sample_rate);
            self.drive.set_time(time, ctx.sample_rate);
            self.tone.set_time(time, ctx.sample_rate);
            self.mix.set_time(time, ctx.sample_rate);
            self.output.set_time(time, ctx.sample_rate);
        }
        let ghost fitted = *self;
        let capacity: usize = bus.capacity();
        let frames: usize = if ctx.frames < capacity {
            ctx.frames
        } else {
            capacity
        };
        process_param_split(self, bus, events_in, frames);
        let ghost split = Desk { node: *self, l: bus.l@, r: bus.r@ };
        if scrub_non_finite(bus, frames) {
            self.tone_lp_l.state = S::of(0);
            self.tone_lp_r.state = S::of(0);
        }
        proof {
            if S::of_spec(0).finite_spec() {
                a_scrubbed_block_is_finite(split.l, frames as int);
                a_scrubbed_block_is_finite(split.r, frames as int);
            }
            assert(frames == fitting(ctx.frames as int, old(bus).l@.len() as int));
            assert(carried_out(
                Desk { node: fitted, l: old(bus).l@, r: old(bus).r@ },
                param_plan(events_in@, frames as int),
                split,
            ));
            assert(drive_scrubbed(split, frames as int, *self, bus.l@, bus.r@));
        }
    }
}

/// What is left of a rendered block once it has been scrubbed.
pub open spec fn drive_scrubbed<S: Sample, O>(
    split: Desk<DriveEffect<S, O>, S>,
    frames: int,
    after: DriveEffect<S, O>,
    l: Seq<S>,
    r: Seq<S>,
) -> bool {
    let node = split.node@;
    &&& l == scrubbed(split.l, frames)
    &&& r == scrubbed(split.r, frames)
    &&& after@ == (if all_finite(split.l, frames) && all_finite(split.r, frames) {
        node
    } else {
        Driving {
            tone_lp_l: OnePoleLp { state: S::of_spec(0), ..node.tone_lp_l },
            tone_lp_r: OnePoleLp { state: S::of_spec(0), ..node.tone_lp_r },
            ..node
        }
    })
}

impl<S: Curves, O: Saturator<S>> RangeProcessor<S> for DriveEffect<S, O> {
    open spec fn ready(&self) -> bool {
        self.well_formed()
    }

    open spec fn renders(
        &self,
        l: Seq<S>,
        r: Seq<S>,
        start: int,
        end: int,
        after: &Self,
        new_l: Seq<S>,
        new_r: Seq<S>,
    ) -> bool {
        &&& after@ == after_frames(drive_step(), self@, l, r, start, end - start)
        &&& new_l == left_of(drive_step(), drive_heard(), self@, l, r, start, end)
        &&& new_r == right_of(drive_step(), drive_heard(), self@, l, r, start, end)
    }

    open spec fn takes(&self, id: u32, value: S, after: &Self) -> bool {
        after@ == drive_taking(self@, id, value)
    }

    fn process_range(&mut self, bus: &mut StereoBus<S>, start: usize, end: usize) {
        let ghost before = self@;
        let ghost l = bus.l@;
        let ghost r = bus.r@;
        proof {
            lemma_nothing_rendered(drive_step(), drive_heard(), before, l, r, start as int);
        }
        let mut i: usize = start;
        while i < end
            invariant
                start <= i <= end <= l.len(),
                l.len() == r.len(),
                bus.l@.len() == l.len(),
                bus.r@.len() == r.len(),
                self.well_formed(),
                self@ == after_frames(drive_step(), before, l, r, start as int, i - start),
                bus.l@ == left_of(
                    drive_step(),
                    drive_heard(),
                    before,
                    l,
                    r,
                    start as int,
                    i as int,
                ),
                bus.r@ == right_of(
                    drive_step(),
                    drive_heard(),
                    before,
                    l,
                    r,
                    start as int,
                    i as int,
                ),
            decreases end - i,
        {
            proof {
                lemma_frame_rendered(
                    drive_step(),
                    drive_heard(),
                    before,
                    l,
                    r,
                    start as int,
                    i as int,
                );
            }
            let ghost here = self@;
            let (out_l, out_r) = self.process_frame(bus.l[i], bus.r[i]);
            assert(self@ == drive_frame(here, l[i as int], r[i as int]).0);
            assert((out_l, out_r) == drive_frame(here, l[i as int], r[i as int]).1);
            bus.l[i] = out_l;
            bus.r[i] = out_r;
            i = i + 1;
        }
    }

    fn apply_param(&mut self, id: u32, value: S) {
        match id {
            DRIVE_PARAM_DRIVE => {
                self.params.drive = clamp(value, S::of(1), S::of(64));
                self.drive.set_target(self.params.drive);
            },
            DRIVE_PARAM_CURVE => {
                self.params.curve = DriveCurve::from_index(value.round().whole());
            },
            DRIVE_PARAM_TONE => {
                self.params.tone = clamp(value, S::of(1).neg(), S::of(1));
                self.tone.set_target(self.params.tone);
            },
            DRIVE_PARAM_MIX => {
                self.params.mix = clamp(value, S::of(0), S::of(1));
                self.mix.set_target(self.params.mix);
            },
            DRIVE_PARAM_OUTPUT => {
                self.params.output = clamp(value, S::of(0), S::of(2));
                self.output.set_target(self.params.output);
            },
            _ => {},
        }
    }
}

/// A mix of nothing at unity output is the input exactly, as late as the
/// shaper.
pub proof fn no_mix_is_the_delayed_input<O: Saturator<Fixed>>(
    d: Driving<Fixed, O>,
    l: Fixed,
    r: Fixed,
)
    requires
        settled(d.mix),
        d.mix.value == Fixed::of_spec(0),
        settled(d.output),
        d.output.value == Fixed::of_spec(1),
    ensures
        drive_frame(d, l, r).1 == (d.dry_l.last(), d.dry_r.last()),
        drive_frame(d, l, r).0.dry_l == remembered(d.dry_l, l),
        drive_frame(d, l, r).0.dry_r == remembered(d.dry_r, r),
{
    a_settled_lag_stays(d.mix);
    a_settled_lag_stays(d.output);
    assert forall|dry: Fixed, wet: Fixed| #[trigger]
        blend_of(dry, wet, Fixed::of_spec(0), Fixed::of_spec(1)) == dry by {
        nothing_mixed_in_is_dry(dry, wet);
        times_one(dry);
    }
}

} // verus!
