//! The bus compressor insert: the master's bus compressor as a device of its
//! own.
//!
//! Not a second compressor. It holds a section and translates ids, so the
//! insert and the master's built-in section run one implementation. Its ids
//! are the master's moved down, and it is always switched in: an insert's
//! in and out is its host's bypass.

use vstd::prelude::*;

use crate::bus::{
    a_scrubbed_block_is_finite, all_finite, fitting, scrub_non_finite, scrubbed, StereoBus,
};
use crate::curves::Curves;
use crate::dynamics::{comp_begun, comp_new, CompressorEffect, CompressorParams};
use crate::event::EventList;
use crate::level::{decibels_of, DynamicsFrame, EnvelopeFollower};
use crate::node::ProcessContext;
use crate::num::{ratio, Sample};
use crate::smooth::settled;
use crate::split::{carried_out, param_plan, process_param_split, Desk, RangeProcessor};

verus! {

/// A section of the master that an insert can hold. As with [`Sample`], an
/// implementation that keeps the bodies given here is outside what is
/// instantiated.
pub trait BusSection<S: Sample>: RangeProcessor<S> {
    /// The section's controls.
    type Params;

    /// Whether a section as it is made for a rate is `after`.
    closed spec fn made(params: Self::Params, sample_rate: u32, after: &Self) -> bool {
        arbitrary()
    }

    /// Whether beginning a block takes this section to `after`.
    closed spec fn begins(&self, after: &Self) -> bool {
        arbitrary()
    }

    /// Whether another rate takes this section to `after`.
    closed spec fn retimes(&self, sample_rate: u32, after: &Self) -> bool {
        arbitrary()
    }

    /// Whether letting go of everything it has stored takes this section to
    /// `after`.
    closed spec fn resets(&self, after: &Self) -> bool {
        arbitrary()
    }

    /// Whether the section may be left alone.
    closed spec fn resting(&self) -> bool {
        arbitrary()
    }

    /// What the section did in its block.
    closed spec fn reported(&self) -> DynamicsFrame<S> {
        arbitrary()
    }

    fn make(params: Self::Params, sample_rate: u32) -> (section: Self)
        ensures
            section.ready(),
            Self::made(params, sample_rate, &section),
    ;

    fn begin_block(&mut self)
        requires
            old(self).ready(),
        ensures
            final(self).ready(),
            old(self).begins(final(self)),
    ;

    fn set_sample_rate(&mut self, sample_rate: u32)
        requires
            old(self).ready(),
        ensures
            final(self).ready(),
            old(self).retimes(sample_rate, final(self)),
    ;

    fn reset(&mut self)
        requires
            old(self).ready(),
        ensures
            final(self).ready(),
            old(self).resets(final(self)),
    ;

    fn is_at_rest(&self) -> (answer: bool)
        ensures
            answer == self.resting(),
    ;

    fn dynamics_frame(&self) -> (frame: Option<DynamicsFrame<S>>)
        ensures
            frame == Some(self.reported()),
    ;
}

impl<S: Curves> BusSection<S> for CompressorEffect<S> {
    type Params = CompressorParams<S>;

    open spec fn made(params: CompressorParams<S>, sample_rate: u32, after: &Self) -> bool {
        *after == comp_new(params, sample_rate)
    }

    open spec fn begins(&self, after: &Self) -> bool {
        *after == comp_begun(*self, self.sample_rate)
    }

    open spec fn retimes(&self, sample_rate: u32, after: &Self) -> bool {
        *after == (CompressorEffect {
            block: self.block,
            ..comp_begun(*self, sample_rate)
        })
    }

    open spec fn resets(&self, after: &Self) -> bool {
        *after == (CompressorEffect {
            detector: EnvelopeFollower { level: S::of_spec(0), ..self.detector },
            ..*self
        })
    }

    open spec fn resting(&self) -> bool {
        self.detector.level.equals_spec(S::of_spec(0)) && settled(self.threshold_db) && settled(
            self.ratio,
        ) && settled(self.makeup_db) && settled(self.mix)
    }

    open spec fn reported(&self) -> DynamicsFrame<S> {
        DynamicsFrame {
            detector_db: decibels_of(self.block.detector),
            reduction_db: self.block.reduction_db,
        }
    }

    fn make(params: CompressorParams<S>, sample_rate: u32) -> (section: Self) {
        CompressorEffect::new(params, sample_rate)
    }

    fn begin_block(&mut self) {
        self.block.begin();
    }

    fn set_sample_rate(&mut self, sample_rate: u32) {
        if sample_rate != self.sample_rate {
            self.sample_rate = sample_rate;
            self.detector.set_times(self.params.attack_ms, self.params.release_ms, sample_rate);
            self.threshold_db.set_time(ratio(5, 1000), sample_rate);
            self.ratio.set_time(ratio(5, 1000), sample_rate);
            self.makeup_db.set_time(ratio(5, 1000), sample_rate);
            self.mix.set_time(ratio(5, 1000), sample_rate);
        }
    }

    fn reset(&mut self) {
        self.detector.level = S::of(0);
    }

    fn is_at_rest(&self) -> (answer: bool) {
        CompressorEffect::is_at_rest(self)
    }

    fn dynamics_frame(&self) -> (frame: Option<DynamicsFrame<S>>) {
        CompressorEffect::dynamics_frame(self)
    }
}

/// The insert.
pub struct BusCompEffect<C> {
    pub comp: C,
    pub sample_rate: u32,
    /// The master's id of the first parameter, and how many there are.
    pub first_id: u32,
    pub count: u32,
}

/// The insert with another section in it.
pub open spec fn holding<C>(effect: BusCompEffect<C>, comp: C) -> BusCompEffect<C> {
    BusCompEffect { comp, ..effect }
}

/// The insert at a rate, with a section in it.
pub open spec fn running<C>(
    effect: BusCompEffect<C>,
    sample_rate: u32,
    comp: C,
) -> BusCompEffect<C> {
    BusCompEffect { comp, sample_rate, ..effect }
}

impl<C> BusCompEffect<C> {
    /// Around a section of its own, whose parameters are the `count` from
    /// `first_id` on.
    pub fn new<S: Sample>(
        params: C::Params,
        sample_rate: u32,
        first_id: u32,
        count: u32,
    ) -> (effect: Self) where C: BusSection<S>
        requires
            first_id + count <= u32::MAX,
        ensures
            effect.comp.ready(),
            C::made(params, sample_rate, &effect.comp),
            effect == (BusCompEffect { comp: effect.comp, sample_rate, first_id, count }),
    {
        BusCompEffect { comp: C::make(params, sample_rate), sample_rate, first_id, count }
    }

    /// The detector reads the sample it is turning down, with no lookahead.
    pub fn latency_frames(&self) -> (frames: u32)
        ensures
            frames == 0,
    {
        0
    }

    /// Nothing here stores audio, so what has to settle is the section's own
    /// state.
    pub fn is_at_rest<S: Sample>(&self) -> (answer: bool) where C: BusSection<S>
        ensures
            answer == self.comp.resting(),
    {
        self.comp.is_at_rest()
    }

    pub fn dynamics_frame<S: Sample>(&self) -> (frame: Option<DynamicsFrame<S>>) where
        C: BusSection<S>,

        ensures
            frame == Some(self.comp.reported()),
    {
        self.comp.dynamics_frame()
    }

    /// Render a block: fit a changed rate, begin the section's block, render
    /// between the parameter events, and put silence in place of what is not
    /// finite; if anything was not, the section starts released.
    pub fn process<S: Sample, B: Copy>(
        &mut self,
        ctx: &ProcessContext,
        bus: &mut StereoBus<S>,
        events_in: &EventList<S, B>,
    ) where C: BusSection<S>
        requires
            old(self).comp.ready(),
            old(self).first_id + old(self).count <= u32::MAX,
            old(bus).well_formed(),
        ensures
            final(self).comp.ready(),
            final(bus).well_formed(),
            S::of_spec(0).finite_spec() ==> all_finite(
                final(bus).l@,
                fitting(ctx.frames as int, old(bus).l@.len() as int),
            ) && all_finite(
                final(bus).r@,
                fitting(ctx.frames as int, old(bus).l@.len() as int),
            ),
            exists|timed: C, begun: C, split: Desk<Self, S>|
                block_rendered(
                    *old(self),
                    ctx.sample_rate,
                    timed,
                    begun,
                    fitting(ctx.frames as int, old(bus).l@.len() as int),
                    split,
                    *final(self),
                    final(bus).l@,
                    final(bus).r@,
                ) && #[trigger] carried_out(
                    Desk {
                        node: running(*old(self), ctx.sample_rate, begun),
                        l: old(bus).l@,
                        r: old(bus).r@,
                    },
                    param_plan(
                        events_in@,
                        fitting(ctx.frames as int, old(bus).l@.len() as int),
                    ),
                    split,
                ) && #[trigger] timed.begins(&begun),
    {
        if ctx.sample_rate != self.sample_rate {
            self.sample_rate = ctx.sample_rate;
            self.comp.set_sample_rate(ctx.sample_rate);
        }
        let ghost timed = self.comp;
        self.comp.begin_block();
        let ghost begun = self.comp;
        let ghost node = *self;
        let capacity: usize = bus.capacity();
        let frames: usize = if ctx.frames < capacity {
            ctx.frames
        } else {
            capacity
        };
        process_param_split(self, bus, events_in, frames);
        let ghost split = Desk { node: *self, l: bus.l@, r: bus.r@ };
        if scrub_non_finite(bus, frames) {
            self.comp.reset();
        }
        proof {
            if S::of_spec(0).finite_spec() {
                a_scrubbed_block_is_finite(split.l, frames as int);
                a_scrubbed_block_is_finite(split.r, frames as int);
            }
            assert(frames == fitting(ctx.frames as int, old(bus).l@.len() as int));
            assert(node == running(*old(self), ctx.sample_rate, begun));
            assert(carried_out(
                Desk { node, l: old(bus).l@, r: old(bus).r@ },
                param_plan(events_in@, frames as int),
                split,
            ));
            assert(timed.begins(&begun));
            assert(block_rendered(
                *old(self),
                ctx.sample_rate,
                timed,
                begun,
                frames as int,
                split,
                *self,
                bus.l@,
                bus.r@,
            ));
        }
    }
}

/// How a block begins and ends: the section takes a changed rate, and then
/// begins; what is left of the rendered block is scrubbed, and if anything was
/// not finite the section is reset.
pub open spec fn block_rendered<S: Sample, C: BusSection<S>>(
    before: BusCompEffect<C>,
    sample_rate: u32,
    timed: C,
    begun: C,
    frames: int,
    split: Desk<BusCompEffect<C>, S>,
    after: BusCompEffect<C>,
    l: Seq<S>,
    r: Seq<S>,
) -> bool {
    &&& if sample_rate == before.sample_rate {
        timed == before.comp
    } else {
        before.comp.retimes(sample_rate, &timed)
    }
    &&& timed.begins(&begun)
    &&& l == scrubbed(split.l, frames)
    &&& r == scrubbed(split.r, frames)
    &&& if all_finite(split.l, frames) && all_finite(split.r, frames) {
        after == split.node
    } else {
        split.node.comp.resets(&after.comp) && after == holding(split.node, after.comp)
    }
}

impl<S: Sample, C: BusSection<S>> RangeProcessor<S> for BusCompEffect<C> {
    open spec fn ready(&self) -> bool {
        self.comp.ready() && self.first_id + self.count <= u32::MAX
    }

    open spec fn renders(
        &self,
        l: Seq<S>,
        r: Seq<S>,
        start: int,
        end: int,
        after: &Self,
        new_l: Seq<S>,
        new_r: Seq<S>,
    ) -> bool {
        &&& self.comp.renders(l, r, start, end, &after.comp, new_l, new_r)
        &&& *after == holding(*self, after.comp)
    }

    /// An id past the table lands on nothing.
    open spec fn takes(&self, id: u32, value: S, after: &Self) -> bool {
        if id < self.count {
            &&& self.comp.takes((self.first_id + id) as u32, value, &after.comp)
            &&& *after == holding(*self, after.comp)
        } else {
            *after == *self
        }
    }

    fn process_range(&mut self, bus: &mut StereoBus<S>, start: usize, end: usize) {
        self.comp.process_range(bus, start, end);
    }

    fn apply_param(&mut self, id: u32, value: S) {
        if id < self.count {
            self.comp.apply_param(self.first_id + id, value);
        }
    }
}

} // verus!
