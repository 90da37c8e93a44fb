//! Rendering a block in pieces, so that a parameter value lands on the sample
//! it was timed for.
//!
//! A split is stated as a plan: the sequence of ranges to render and values to
//! take. [`process_param_split`] carries out the plan of an event list and
//! [`process_curve_split`] that of a block's control curves.

use vstd::prelude::*;

use crate::bus::StereoBus;
use crate::event::{Event, EventList, TimedEvent};
use crate::num::Sample;

verus! {

/// An effect that renders part of a block, so the block can be split at the
/// offsets its parameter events carry. As with [`Sample`], an implementation that
/// keeps the bodies given here is outside what is instantiated.
pub trait RangeProcessor<S: Sample>: Sized {
    /// What holds of the effect between calls.
    closed spec fn ready(&self) -> bool {
        arbitrary()
    }

    /// Whether rendering `start..end` of the samples `l` and `r` takes this
    /// effect to `after` and leaves the samples `new_l` and `new_r`.
    closed spec fn renders(
        &self,
        l: Seq<S>,
        r: Seq<S>,
        start: int,
        end: int,
        after: &Self,
        new_l: Seq<S>,
        new_r: Seq<S>,
    ) -> bool {
        arbitrary()
    }

    /// Whether taking a parameter value takes this effect to `after`.
    closed spec fn takes(&self, id: u32, value: S, after: &Self) -> bool {
        arbitrary()
    }

    /// Render `bus[start..end]`. Called once per gap between events, so it
    /// must be correct for an empty range as well as a whole block.
    fn process_range(&mut self, bus: &mut StereoBus<S>, start: usize, end: usize)
        requires
            old(self).ready(),
            old(bus).well_formed(),
            start <= end <= old(bus).l@.len(),
        ensures
            final(self).ready(),
            final(bus).well_formed(),
            final(bus).l@.len() == old(bus).l@.len(),
            old(self).renders(
                old(bus).l@,
                old(bus).r@,
                start as int,
                end as int,
                final(self),
                final(bus).l@,
                final(bus).r@,
            ),
    ;

    /// Take one parameter value, in natural units, between ranges.
    fn apply_param(&mut self, id: u32, value: S)
        requires
            old(self).ready(),
        ensures
            final(self).ready(),
            old(self).takes(id, value, final(self)),
    ;
}

/// One thing to do on the way through a block.
pub enum Step<V> {
    /// Render the frames from the first place up to the second.
    Range(int, int),
    /// Take a parameter value.
    Param(u32, V),
}

/// An effect and the block it is working on.
pub struct Desk<N, S> {
    pub node: N,
    pub l: Seq<S>,
    pub r: Seq<S>,
}

/// Whether one step takes the desk from `before` to `after`.
pub open spec fn performed<S: Sample, N: RangeProcessor<S>>(
    before: Desk<N, S>,
    step: Step<S>,
    after: Desk<N, S>,
) -> bool {
    match step {
        Step::Range(start, end) => before.node.renders(
            before.l,
            before.r,
            start,
            end,
            &after.node,
            after.l,
            after.r,
        ),
        Step::Param(id, value) => {
            &&& before.node.takes(id, value, &after.node)
            &&& after.l == before.l
            &&& after.r == before.r
        },
    }
}

/// Whether the steps, one after the other, take the desk from `before` to
/// `after`.
pub open spec fn all_performed<S: Sample, N: RangeProcessor<S>>(
    before: Desk<N, S>,
    steps: Seq<Step<S>>,
    after: Desk<N, S>,
) -> bool
    decreases steps.len(),
{
    if steps.len() == 0 {
        after == before
    } else {
        exists|between: Desk<N, S>|
            all_performed(before, steps.drop_last(), between) && #[trigger] performed(
                between,
                steps.last(),
                after,
            )
    }
}

/// Whether carrying out a plan takes the desk from `before` to `after`.
pub open spec fn carried_out<S: Sample, N: RangeProcessor<S>>(
    before: Desk<N, S>,
    plan: Seq<Step<S>>,
    after: Desk<N, S>,
) -> bool {
    all_performed(before, plan, after)
}

proof fn lemma_one_more_step<S: Sample, N: RangeProcessor<S>>(
    before: Desk<N, S>,
    steps: Seq<Step<S>>,
    between: Desk<N, S>,
    step: Step<S>,
    after: Desk<N, S>,
)
    requires
        all_performed(before, steps, between),
        performed(between, step, after),
    ensures
        all_performed(before, steps.push(step), after),
{
    assert(steps.push(step).drop_last() =~= steps);
    assert(all_performed(before, steps.push(step).drop_last(), between));
    assert(performed(between, steps.push(step).last(), after));
}

/// The lesser of two places.
pub open spec fn lesser(a: int, b: int) -> int {
    if a < b {
        a
    } else {
        b
    }
}

/// Where the block is cut for the last of the first `count` events: at its
/// offset, but never past the end of the block and never before an earlier
/// cut.
pub open spec fn cut_at<V, B>(events: Seq<TimedEvent<V, B>>, frames: int, count: int) -> int
    decreases count,
{
    if count <= 0 {
        0
    } else {
        let earlier = cut_at(events, frames, count - 1);
        let timed = lesser(events[count - 1].offset as int, frames);
        if timed < earlier {
            earlier
        } else {
            timed
        }
    }
}

/// What an event asks of the effect itself: to take a value, or nothing.
pub open spec fn taken_from<V, B>(event: Event<V, B>) -> Seq<Step<V>> {
    match event {
        Event::ParamValue { id, value } => seq![Step::Param(id, value)],
        _ => seq![],
    }
}

/// The plan for the first `count` events. Events other than parameter values
/// still cut the block: the effect is then called once more with the controls
/// it had.
pub open spec fn plan_of<V, B>(
    events: Seq<TimedEvent<V, B>>,
    frames: int,
    count: int,
) -> Seq<Step<V>>
    decreases count,
{
    if count <= 0 {
        seq![]
    } else {
        plan_of(events, frames, count - 1).push(
            Step::Range(cut_at(events, frames, count - 1), cut_at(events, frames, count)),
        ) + taken_from(events[count - 1].event)
    }
}

/// The plan for a whole block: that of its events, and then the rest.
pub open spec fn param_plan<V, B>(events: Seq<TimedEvent<V, B>>, frames: int) -> Seq<Step<V>> {
    plan_of(events, frames, events.len() as int).push(
        Step::Range(cut_at(events, frames, events.len() as int), frames),
    )
}

/// Render `frames` of `bus`, splitting at each event so that a value lands on
/// the sample it was timed for.
///
/// An event timed past the end of the block applies after everything audible,
/// and a list that is not sorted cannot move the render head back.
pub fn process_param_split<S: Sample, B: Copy, N: RangeProcessor<S>>(
    node: &mut N,
    bus: &mut StereoBus<S>,
    events_in: &EventList<S, B>,
    frames: usize,
)
    requires
        old(node).ready(),
        old(bus).well_formed(),
        frames <= old(bus).l@.len(),
    ensures
        final(node).ready(),
        final(bus).well_formed(),
        final(bus).l@.len() == old(bus).l@.len(),
        carried_out(
            Desk { node: *old(node), l: old(bus).l@, r: old(bus).r@ },
            param_plan(events_in@, frames as int),
            Desk { node: *final(node), l: final(bus).l@, r: final(bus).r@ },
        ),
{
    let ghost before = Desk { node: *node, l: bus.l@, r: bus.r@ };
    let ghost events = events_in@;
    let mut pos: usize = 0;
    let mut index: usize = 0;
    let count: usize = events_in.len();
    while index < count
        invariant
            index <= count,
            count == events.len(),
            events == events_in@,
            node.ready(),
            bus.well_formed(),
            bus.l@.len() == old(bus).l@.len(),
            pos <= frames <= bus.l@.len(),
            pos == cut_at(events, frames as int, index as int),
            all_performed(
                before,
                plan_of(events, frames as int, index as int),
                Desk { node: *node, l: bus.l@, r: bus.r@ },
            ),
        decreases count - index,
    {
        let event = events_in.get(index);
        let timed: usize = if (event.offset as usize) < frames {
            event.offset as usize
        } else {
            frames
        };
        let off: usize = if timed < pos {
            pos
        } else {
            timed
        };
        let ghost steps = plan_of(events, frames as int, index as int);
        let ghost range = Step::<S>::Range(pos as int, off as int);
        let ghost here = Desk { node: *node, l: bus.l@, r: bus.r@ };
        node.process_range(bus, pos, off);
        let ghost rendered = Desk { node: *node, l: bus.l@, r: bus.r@ };
        proof {
            lemma_one_more_step(before, steps, here, range, rendered);
        }
        if let Event::ParamValue { id, value } = event.event {
            node.apply_param(id, value);
            proof {
                let taken = Desk { node: *node, l: bus.l@, r: bus.r@ };
                lemma_one_more_step(
                    before,
                    steps.push(range),
                    rendered,
                    Step::Param(id, value),
                    taken,
                );
                assert(steps.push(range).push(Step::Param(id, value)) =~= plan_of(
                    events,
                    frames as int,
                    index + 1,
                ));
            }
        } else {
            assert(steps.push(range) =~= plan_of(events, frames as int, index + 1));
        }
        pos = off;
        index = index + 1;
    }
    let ghost here = Desk { node: *node, l: bus.l@, r: bus.r@ };
    node.process_range(bus, pos, frames);
    proof {
        lemma_one_more_step(
            before,
            plan_of(events, frames as int, events.len() as int),
            here,
            Step::Range(pos as int, frames as int),
            Desk { node: *node, l: bus.l@, r: bus.r@ },
        );
    }
}

/// One parameter's values across a block, one for each control tick.
pub struct ControlCurve<'a, S> {
    pub id: u32,
    pub values: &'a [S],
}

/// The most destinations any one effect's parameter table can drive at once:
/// an equalizer's seven bands of six fields and two pass filters of four.
pub const MAX_NODE_CURVE_DESTINATIONS: usize = 50;

/// A node's own copy of one block's curves, so that they survive from the call
/// that hands them over to the call that renders. Allocation-free once it is
/// made: every row is as long as the longest curve it may be handed.
pub struct CurveFrame<S> {
    ids: [u32; MAX_NODE_CURVE_DESTINATIONS],
    ticks: Vec<Vec<S>>,
    lens: [usize; MAX_NODE_CURVE_DESTINATIONS],
    count: usize,
    max_ticks: usize,
}

/// A captured curve: a parameter and its values.
pub struct Curve<S> {
    pub id: u32,
    pub values: Seq<S>,
}

/// What a frame keeps of the curves it is handed: as many as it has rows, and
/// of each as many ticks as a row has.
pub open spec fn captured<S>(curves: Seq<ControlCurve<'_, S>>, max_ticks: int) -> Seq<Curve<S>> {
    Seq::new(
        lesser(curves.len() as int, MAX_NODE_CURVE_DESTINATIONS as int) as nat,
        |i: int|
            Curve {
                id: curves[i].id,
                values: curves[i].values@.take(
                    lesser(curves[i].values@.len() as int, max_ticks),
                ),
            },
    )
}

impl<S: Sample> View for CurveFrame<S> {
    type V = Seq<Curve<S>>;

    closed spec fn view(&self) -> Seq<Curve<S>> {
        Seq::new(
            self.count as nat,
            |i: int| Curve { id: self.ids[i], values: self.ticks[i]@.take(self.lens[i] as int) },
        )
    }
}

impl<S: Sample> CurveFrame<S> {
    /// The most ticks a row holds.
    pub closed spec fn row(&self) -> nat {
        self.max_ticks as nat
    }

    pub closed spec fn well_formed(&self) -> bool {
        &&& self.count <= MAX_NODE_CURVE_DESTINATIONS
        &&& self.ticks@.len() == MAX_NODE_CURVE_DESTINATIONS
        &&& forall|i: int|
            0 <= i < self.ticks@.len() ==> (#[trigger] self.ticks[i])@.len() == self.max_ticks
        &&& forall|i: int|
            0 <= i < MAX_NODE_CURVE_DESTINATIONS ==> #[trigger] self.lens[i] <= self.max_ticks
    }

    /// A frame with no curves in it, for blocks of at most `max_ticks` control
    /// ticks.
    pub fn empty(max_ticks: usize) -> (frame: Self)
        ensures
            frame.well_formed(),
            frame.row() == max_ticks,
            frame@ == Seq::<Curve<S>>::empty(),
    {
        let mut ticks: Vec<Vec<S>> = Vec::new();
        while ticks.len() < MAX_NODE_CURVE_DESTINATIONS
            invariant
                ticks@.len() <= MAX_NODE_CURVE_DESTINATIONS,
                forall|i: int| 0 <= i < ticks@.len() ==> (#[trigger] ticks[i])@.len() == max_ticks,
            decreases MAX_NODE_CURVE_DESTINATIONS - ticks@.len(),
        {
            ticks.push(blank_row(max_ticks));
        }
        let frame = CurveFrame {
            ids: [0; MAX_NODE_CURVE_DESTINATIONS],
            ticks,
            lens: [0; MAX_NODE_CURVE_DESTINATIONS],
            count: 0,
            max_ticks,
        };
        assert(frame@ =~= Seq::empty());
        frame
    }

    /// Copy `curves` in, replacing whatever this frame held before. Truncates
    /// past the rows, and the ticks of a row, that the frame has.
    pub fn capture(&mut self, curves: &[ControlCurve<'_, S>])
        requires
            old(self).well_formed(),
        ensures
            final(self).well_formed(),
            final(self).row() == old(self).row(),
            final(self)@ == captured(curves@, old(self).row() as int),
    {
        let count: usize = if curves.len() < MAX_NODE_CURVE_DESTINATIONS {
            curves.len()
        } else {
            MAX_NODE_CURVE_DESTINATIONS
        };
        self.count = count;
        let mut index: usize = 0;
        while index < count
            invariant
                index <= count <= curves@.len(),
                count <= MAX_NODE_CURVE_DESTINATIONS,
                self.well_formed(),
                self.count == count,
                self.max_ticks == old(self).max_ticks,
                forall|i: int|
                    #![trigger self.ids[i]]
                    0 <= i < index ==> self.ids[i] == curves[i].id,
                forall|i: int|
                    #![trigger self.lens[i]]
                    0 <= i < index ==> self.lens[i] == lesser(
                        curves[i].values@.len() as int,
                        self.max_ticks as int,
                    ),
                forall|i: int|
                    #![trigger self.ticks[i]]
                    0 <= i < index ==> self.ticks[i]@.take(self.lens[i] as int)
                        == curves[i].values@.take(self.lens[i] as int),
            decreases count - index,
        {
            let curve = &curves[index];
            self.ids[index] = curve.id;
            let len: usize = if curve.values.len() < self.max_ticks {
                curve.values.len()
            } else {
                self.max_ticks
            };
            self.lens[index] = len;
            copy_into(&mut self.ticks[index], curve.values, len);
            index = index + 1;
        }
        assert(self@ =~= captured(curves@, old(self).row() as int));
    }

    /// Forget every curve.
    pub fn clear(&mut self)
        requires
            old(self).well_formed(),
        ensures
            final(self).well_formed(),
            final(self).row() == old(self).row(),
            final(self)@ == Seq::<Curve<S>>::empty(),
    {
        self.count = 0;
        assert(self@ =~= Seq::empty());
    }

    pub fn is_empty(&self) -> (answer: bool)
        ensures
            answer == (self@.len() == 0),
    {
        self.count == 0
    }

    pub fn len(&self) -> (count: usize)
        ensures
            count == self@.len(),
    {
        self.count
    }

    /// The curve in one row.
    pub fn curve(&self, index: usize) -> (curve: ControlCurve<'_, S>)
        requires
            self.well_formed(),
            index < self@.len(),
        ensures
            curve.id == self@[index as int].id,
            curve.values@ == self@[index as int].values,
    {
        let row = vstd::slice::slice_subrange(self.ticks[index].as_slice(), 0, self.lens[index]);
        ControlCurve { id: self.ids[index], values: row }
    }
}

fn blank_row<S: Sample>(ticks: usize) -> (row: Vec<S>)
    ensures
        row@.len() == ticks,
{
    let mut row: Vec<S> = Vec::with_capacity(ticks);
    while row.len() < ticks
        invariant
            row@.len() <= ticks,
        decreases ticks - row@.len(),
    {
        row.push(S::of(0));
    }
    row
}

/// Copy the first `len` samples of `from` over those of `into`.
fn copy_into<S: Sample>(into: &mut Vec<S>, from: &[S], len: usize)
    requires
        len <= from@.len(),
        len <= old(into)@.len(),
    ensures
        final(into)@.len() == old(into)@.len(),
        final(into)@.take(len as int) == from@.take(len as int),
{
    let mut at: usize = 0;
    while at < len
        invariant
            at <= len <= from@.len(),
            len <= into@.len() == old(into)@.len(),
            forall|i: int| 0 <= i < at ==> into[i] == from[i],
        decreases len - at,
    {
        into[at] = from[at];
        at = at + 1;
    }
    assert(into@.take(len as int) =~= from@.take(len as int));
}

/// The values that the first `count` curves hold for a tick.
pub open spec fn tick_values<S>(curves: Seq<Curve<S>>, tick: int, count: int) -> Seq<Step<S>>
    decreases count,
{
    if count <= 0 {
        seq![]
    } else {
        let earlier = tick_values(curves, tick, count - 1);
        let curve = curves[count - 1];
        if tick < curve.values.len() {
            earlier.push(Step::Param(curve.id, curve.values[tick]))
        } else {
            earlier
        }
    }
}

/// The length of the longest of the first `count` curves.
pub open spec fn longest<S>(curves: Seq<Curve<S>>, count: int) -> int
    decreases count,
{
    if count <= 0 {
        0
    } else {
        let earlier = longest(curves, count - 1);
        let len = curves[count - 1].values.len() as int;
        if earlier < len {
            len
        } else {
            earlier
        }
    }
}

/// Where in the block a control tick falls.
pub open spec fn tick_at(tick: int, tick_frames: int, frames: int) -> int {
    lesser(tick * tick_frames, frames)
}

/// Where the block was last cut before a tick.
pub open spec fn cut_before(tick: int, tick_frames: int, frames: int) -> int {
    if tick <= 0 {
        0
    } else {
        tick_at(tick - 1, tick_frames, frames)
    }
}

/// The plan for the first `ticks` control ticks: render up to the tick, where
/// there is anything to render, and take every value it holds.
pub open spec fn ticks_plan<S>(
    curves: Seq<Curve<S>>,
    tick_frames: int,
    frames: int,
    ticks: int,
) -> Seq<Step<S>>
    decreases ticks,
{
    if ticks <= 0 {
        seq![]
    } else {
        let tick = ticks - 1;
        let from = cut_before(tick, tick_frames, frames);
        let to = tick_at(tick, tick_frames, frames);
        let earlier = ticks_plan(curves, tick_frames, frames, tick);
        (if from < to {
            earlier.push(Step::Range(from, to))
        } else {
            earlier
        }) + tick_values(curves, tick, curves.len() as int)
    }
}

/// The values a list of events holds, in its order.
pub open spec fn queued_values<V, B>(events: Seq<TimedEvent<V, B>>, count: int) -> Seq<Step<V>>
    decreases count,
{
    if count <= 0 {
        seq![]
    } else {
        queued_values(events, count - 1) + taken_from(events[count - 1].event)
    }
}

/// The plan for a block of curves: what was queued, then the ticks, then the
/// rest.
pub open spec fn curve_plan<V, B>(
    events: Seq<TimedEvent<V, B>>,
    curves: Seq<Curve<V>>,
    tick_frames: int,
    frames: int,
) -> Seq<Step<V>> {
    let ticks = longest(curves, curves.len() as int);
    (queued_values(events, events.len() as int) + ticks_plan(
        curves,
        tick_frames,
        frames,
        ticks,
    )).push(Step::Range(cut_before(ticks, tick_frames, frames), frames))
}

/// The curve-aware twin of [`process_param_split`]: splits `bus` at each
/// control tick a curve holds a value for, so that a value is taken at most
/// once per tick and parameter.
///
/// `events_in` carries what was queued between blocks, which is all timed at
/// the block's start: it is applied first, before the curves' own ticks.
pub fn process_curve_split<S: Sample, B: Copy, N: RangeProcessor<S>>(
    node: &mut N,
    bus: &mut StereoBus<S>,
    events_in: &EventList<S, B>,
    curves: &CurveFrame<S>,
    tick_frames: usize,
    frames: usize,
)
    requires
        old(node).ready(),
        old(bus).well_formed(),
        frames <= old(bus).l@.len(),
        curves.well_formed(),
    ensures
        final(node).ready(),
        final(bus).well_formed(),
        final(bus).l@.len() == old(bus).l@.len(),
        carried_out(
            Desk { node: *old(node), l: old(bus).l@, r: old(bus).r@ },
            curve_plan(events_in@, curves@, tick_frames as int, frames as int),
            Desk { node: *final(node), l: final(bus).l@, r: final(bus).r@ },
        ),
{
    let ghost before = Desk { node: *node, l: bus.l@, r: bus.r@ };
    apply_queued(node, bus, events_in, Ghost(before));
    let ghost queued = queued_values(events_in@, events_in@.len() as int);
    let ticks: usize = longest_curve(curves);
    let mut pos: usize = 0;
    let mut tick: usize = 0;
    assert(queued + ticks_plan(curves@, tick_frames as int, frames as int, 0) =~= queued);
    while tick < ticks
        invariant
            tick <= ticks,
            curves.well_formed(),
            node.ready(),
            bus.well_formed(),
            bus.l@.len() == old(bus).l@.len(),
            pos <= frames <= bus.l@.len(),
            pos == cut_before(tick as int, tick_frames as int, frames as int),
            all_performed(
                before,
                queued + ticks_plan(curves@, tick_frames as int, frames as int, tick as int),
                Desk { node: *node, l: bus.l@, r: bus.r@ },
            ),
        decreases ticks - tick,
    {
        let offset: usize = match tick.checked_mul(tick_frames) {
            Some(at) if at < frames => at,
            _ => frames,
        };
        proof {
            assert(pos <= offset) by (nonlinear_arith)
                requires
                    pos == cut_before(tick as int, tick_frames as int, frames as int),
                    offset == tick_at(tick as int, tick_frames as int, frames as int),
                    tick >= 0,
                    tick_frames >= 0,
                    frames >= 0,
            ;
        }
        let ghost earlier = queued + ticks_plan(
            curves@,
            tick_frames as int,
            frames as int,
            tick as int,
        );
        let ghost mut steps = earlier;
        if offset > pos {
            let ghost here = Desk { node: *node, l: bus.l@, r: bus.r@ };
            node.process_range(bus, pos, offset);
            proof {
                let range = Step::<S>::Range(pos as int, offset as int);
                lemma_one_more_step(
                    before,
                    earlier,
                    here,
                    range,
                    Desk { node: *node, l: bus.l@, r: bus.r@ },
                );
                steps = earlier.push(range);
            }
            pos = offset;
        }
        let mut index: usize = 0;
        let count: usize = curves.len();
        assert(steps + tick_values(curves@, tick as int, 0) =~= steps);
        while index < count
            invariant
                index <= count == curves@.len(),
                curves.well_formed(),
                node.ready(),
                all_performed(
                    before,
                    steps + tick_values(curves@, tick as int, index as int),
                    Desk { node: *node, l: bus.l@, r: bus.r@ },
                ),
            decreases count - index,
        {
            let curve = curves.curve(index);
            let ghost taken = tick_values(curves@, tick as int, index as int);
            if tick < curve.values.len() {
                let ghost here = Desk { node: *node, l: bus.l@, r: bus.r@ };
                let value = curve.values[tick];
                node.apply_param(curve.id, value);
                proof {
                    let step = Step::Param(curve.id, value);
                    lemma_one_more_step(
                        before,
                        steps + taken,
                        here,
                        step,
                        Desk { node: *node, l: bus.l@, r: bus.r@ },
                    );
                    assert((steps + taken).push(step) =~= steps + taken.push(step));
                }
            }
            index = index + 1;
        }
        assert(steps + tick_values(curves@, tick as int, count as int) =~= queued + ticks_plan(
            curves@,
            tick_frames as int,
            frames as int,
            tick + 1,
        ));
        tick = tick + 1;
    }
    let ghost here = Desk { node: *node, l: bus.l@, r: bus.r@ };
    node.process_range(bus, pos, frames);
    proof {
        lemma_one_more_step(
            before,
            queued + ticks_plan(curves@, tick_frames as int, frames as int, ticks as int),
            here,
            Step::Range(pos as int, frames as int),
            Desk { node: *node, l: bus.l@, r: bus.r@ },
        );
    }
}

/// Take every value in a list of events, without rendering.
fn apply_queued<S: Sample, B: Copy, N: RangeProcessor<S>>(
    node: &mut N,
    bus: &StereoBus<S>,
    events_in: &EventList<S, B>,
    before: Ghost<Desk<N, S>>,
)
    requires
        old(node).ready(),
        before@ == (Desk { node: *old(node), l: bus.l@, r: bus.r@ }),
    ensures
        final(node).ready(),
        all_performed(
            before@,
            queued_values(events_in@, events_in@.len() as int),
            Desk { node: *final(node), l: bus.l@, r: bus.r@ },
        ),
{
    let mut index: usize = 0;
    let count: usize = events_in.len();
    while index < count
        invariant
            index <= count == events_in@.len(),
            node.ready(),
            all_performed(
                before@,
                queued_values(events_in@, index as int),
                Desk { node: *node, l: bus.l@, r: bus.r@ },
            ),
        decreases count - index,
    {
        let event = events_in.get(index);
        let ghost steps = queued_values(events_in@, index as int);
        let ghost here = Desk { node: *node, l: bus.l@, r: bus.r@ };
        if let Event::ParamValue { id, value } = event.event {
            node.apply_param(id, value);
            proof {
                lemma_one_more_step(
                    before@,
                    steps,
                    here,
                    Step::Param(id, value),
                    Desk { node: *node, l: bus.l@, r: bus.r@ },
                );
                assert(steps.push(Step::Param(id, value)) =~= queued_values(
                    events_in@,
                    index + 1,
                ));
            }
        } else {
            assert(steps =~= queued_values(events_in@, index + 1));
        }
        index = index + 1;
    }
}

fn longest_curve<S: Sample>(curves: &CurveFrame<S>) -> (ticks: usize)
    requires
        curves.well_formed(),
    ensures
        ticks == longest(curves@, curves@.len() as int),
{
    let mut ticks: usize = 0;
    let mut index: usize = 0;
    let count: usize = curves.len();
    while index < count
        invariant
            index <= count == curves@.len(),
            curves.well_formed(),
            ticks == longest(curves@, index as int),
        decreases count - index,
    {
        let len: usize = curves.curve(index).values.len();
        if ticks < len {
            ticks = len;
        }
        index = index + 1;
    }
    ticks
}

/// Whether the ranges among the steps tile `from..to`: each begins where the
/// one before it ended, none runs backwards, and the last ends at `to`.
pub open spec fn tiles<V>(steps: Seq<Step<V>>, from: int, to: int) -> bool
    decreases steps.len(),
{
    if steps.len() == 0 {
        from == to
    } else {
        match steps.last() {
            Step::Range(start, end) => start <= end && end == to && tiles(
                steps.drop_last(),
                from,
                start,
            ),
            Step::Param(..) => tiles(steps.drop_last(), from, to),
        }
    }
}

proof fn lemma_tiles_push<V>(steps: Seq<Step<V>>, step: Step<V>, from: int, middle: int, to: int)
    requires
        tiles(steps, from, middle),
        match step {
            Step::Range(start, end) => start == middle && start <= end == to,
            Step::Param(..) => middle == to,
        },
    ensures
        tiles(steps.push(step), from, to),
{
    assert(steps.push(step).drop_last() =~= steps);
}

/// The render head never moves back and never leaves the block.
pub proof fn cuts_never_go_back<V, B>(
    events: Seq<TimedEvent<V, B>>,
    frames: int,
    earlier: int,
    later: int,
)
    requires
        0 <= frames,
        0 <= earlier <= later <= events.len(),
    ensures
        0 <= cut_at(events, frames, earlier) <= cut_at(events, frames, later) <= frames,
    decreases later,
{
    if later > 0 {
        if earlier < later {
            cuts_never_go_back(events, frames, earlier, later - 1);
        } else {
            cuts_never_go_back(events, frames, earlier - 1, later - 1);
        }
    }
}

/// In a list sorted by offset every value lands on the sample it was timed
/// for, or after everything audible where that sample is past the block.
pub proof fn a_value_lands_on_its_sample<V, B>(
    events: Seq<TimedEvent<V, B>>,
    frames: int,
    index: int,
)
    requires
        0 <= frames,
        0 <= index < events.len(),
        forall|i: int, j: int|
            0 <= i < j < events.len() ==> (#[trigger] events[i]).offset <= (
            #[trigger] events[j]).offset,
    ensures
        cut_at(events, frames, index + 1) == lesser(events[index].offset as int, frames),
    decreases index,
{
    if index > 0 {
        a_value_lands_on_its_sample(events, frames, index - 1);
        assert(events[index - 1].offset <= events[index].offset);
    }
    cuts_never_go_back(events, frames, index, index);
    reveal_with_fuel(cut_at, 2);
}

/// Whatever the events, the ranges of a block's plan tile the block.
pub proof fn a_plan_tiles_its_block<V, B>(events: Seq<TimedEvent<V, B>>, frames: int)
    requires
        0 <= frames,
    ensures
        tiles(param_plan(events, frames), 0, frames),
{
    let count = events.len() as int;
    lemma_plan_tiles(events, frames, count);
    cuts_never_go_back(events, frames, count, count);
    lemma_tiles_push(
        plan_of(events, frames, count),
        Step::Range(cut_at(events, frames, count), frames),
        0,
        cut_at(events, frames, count),
        frames,
    );
}

proof fn lemma_plan_tiles<V, B>(events: Seq<TimedEvent<V, B>>, frames: int, count: int)
    requires
        0 <= frames,
        0 <= count <= events.len(),
    ensures
        tiles(plan_of(events, frames, count), 0, cut_at(events, frames, count)),
    decreases count,
{
    if count > 0 {
        let from = cut_at(events, frames, count - 1);
        let to = cut_at(events, frames, count);
        let earlier = plan_of(events, frames, count - 1);
        lemma_plan_tiles(events, frames, count - 1);
        cuts_never_go_back(events, frames, count - 1, count);
        lemma_tiles_push(earlier, Step::Range(from, to), 0, from, to);
        let taken = taken_from(events[count - 1].event);
        let ranged = earlier.push(Step::Range(from, to));
        if taken.len() == 0 {
            assert(ranged + taken =~= ranged);
        } else {
            lemma_tiles_push(ranged, taken[0], 0, to, to);
            assert(ranged + taken =~= ranged.push(taken[0]));
        }
    }
}

/// Whatever the curves and what was queued, the ranges of a block's plan tile
/// the block.
pub proof fn a_curve_plan_tiles_its_block<V, B>(
    events: Seq<TimedEvent<V, B>>,
    curves: Seq<Curve<V>>,
    tick_frames: int,
    frames: int,
)
    requires
        0 <= frames,
        0 <= tick_frames,
    ensures
        tiles(curve_plan(events, curves, tick_frames, frames), 0, frames),
{
    let queued = queued_values(events, events.len() as int);
    let ticks = longest(curves, curves.len() as int);
    lemma_queued_tiles(events, events.len() as int);
    lemma_longest_is_no_less(curves, curves.len() as int);
    lemma_ticks_tile(queued, curves, tick_frames, frames, ticks);
    lemma_ticks_are_in_order(ticks, tick_frames, frames);
    lemma_tiles_push(
        queued + ticks_plan(curves, tick_frames, frames, ticks),
        Step::Range(cut_before(ticks, tick_frames, frames), frames),
        0,
        cut_before(ticks, tick_frames, frames),
        frames,
    );
}

proof fn lemma_longest_is_no_less<V>(curves: Seq<Curve<V>>, count: int)
    requires
        0 <= count <= curves.len(),
    ensures
        0 <= longest(curves, count),
    decreases count,
{
    if count > 0 {
        lemma_longest_is_no_less(curves, count - 1);
    }
}

proof fn lemma_ticks_are_in_order(tick: int, tick_frames: int, frames: int)
    requires
        0 <= tick,
        0 <= tick_frames,
        0 <= frames,
    ensures
        0 <= cut_before(tick, tick_frames, frames) <= tick_at(tick, tick_frames, frames) <= frames,
{
    assert(0 <= tick * tick_frames) by (nonlinear_arith)
        requires
            0 <= tick,
            0 <= tick_frames,
    ;
    if tick > 0 {
        assert(0 <= (tick - 1) * tick_frames <= tick * tick_frames) by (nonlinear_arith)
            requires
                0 < tick,
                0 <= tick_frames,
        ;
    }
}

proof fn lemma_queued_tiles<V, B>(events: Seq<TimedEvent<V, B>>, count: int)
    requires
        0 <= count <= events.len(),
    ensures
        tiles(queued_values(events, count), 0, 0),
    decreases count,
{
    if count > 0 {
        lemma_queued_tiles(events, count - 1);
        let earlier = queued_values(events, count - 1);
        let taken = taken_from(events[count - 1].event);
        if taken.len() == 0 {
            assert(earlier + taken =~= earlier);
        } else {
            lemma_tiles_push(earlier, taken[0], 0, 0, 0);
            assert(earlier + taken =~= earlier.push(taken[0]));
        }
    }
}

proof fn lemma_values_tile<V>(
    steps: Seq<Step<V>>,
    curves: Seq<Curve<V>>,
    tick: int,
    count: int,
    to: int,
)
    requires
        0 <= count <= curves.len(),
        tiles(steps, 0, to),
    ensures
        tiles(steps + tick_values(curves, tick, count), 0, to),
    decreases count,
{
    if count <= 0 {
        assert(steps + tick_values(curves, tick, count) =~= steps);
    } else {
        lemma_values_tile(steps, curves, tick, count - 1, to);
        let curve = curves[count - 1];
        if tick < curve.values.len() {
            let earlier = tick_values(curves, tick, count - 1);
            let step = Step::Param(curve.id, curve.values[tick]);
            lemma_tiles_push(steps + earlier, step, 0, to, to);
            assert((steps + earlier).push(step) =~= steps + earlier.push(step));
        }
    }
}

proof fn lemma_ticks_tile<V>(
    queued: Seq<Step<V>>,
    curves: Seq<Curve<V>>,
    tick_frames: int,
    frames: int,
    ticks: int,
)
    requires
        0 <= ticks,
        0 <= tick_frames,
        0 <= frames,
        tiles(queued, 0, 0),
    ensures
        tiles(
            queued + ticks_plan(curves, tick_frames, frames, ticks),
            0,
            cut_before(ticks, tick_frames, frames),
        ),
    decreases ticks,
{
    if ticks <= 0 {
        assert(queued + ticks_plan(curves, tick_frames, frames, ticks) =~= queued);
    } else {
        let tick = ticks - 1;
        let from = cut_before(tick, tick_frames, frames);
        let to = tick_at(tick, tick_frames, frames);
        let earlier = queued + ticks_plan(curves, tick_frames, frames, tick);
        lemma_ticks_tile(queued, curves, tick_frames, frames, tick);
        lemma_ticks_are_in_order(tick, tick_frames, frames);
        let ranged = if from < to {
            earlier.push(Step::Range(from, to))
        } else {
            earlier
        };
        if from < to {
            lemma_tiles_push(earlier, Step::Range(from, to), 0, from, to);
        }
        lemma_values_tile(ranged, curves, tick, curves.len() as int, to);
        assert(ranged + tick_values(curves, tick, curves.len() as int) =~= queued + ticks_plan(
            curves,
            tick_frames,
            frames,
            ticks,
        ));
    }
}

/// A plan without the ranges that hold no frame.
pub open spec fn sounding<V>(steps: Seq<Step<V>>) -> Seq<Step<V>>
    decreases steps.len(),
{
    if steps.len() == 0 {
        seq![]
    } else {
        let earlier = sounding(steps.drop_last());
        match steps.last() {
            Step::Range(start, end) => if start == end {
                earlier
            } else {
                earlier.push(steps.last())
            },
            Step::Param(..) => earlier.push(steps.last()),
        }
    }
}

/// Whether events are a curve's values, each timed at its control tick.
pub open spec fn spell_out<V, B>(
    events: Seq<TimedEvent<V, B>>,
    curve: Curve<V>,
    tick_frames: int,
) -> bool {
    &&& events.len() == curve.values.len()
    &&& forall|i: int|
        0 <= i < events.len() ==> {
            &&& (#[trigger] events[i]).offset == i * tick_frames
            &&& events[i].event == Event::<V, B>::ParamValue {
                id: curve.id,
                value: curve.values[i],
            }
        }
}

proof fn lemma_sounding_push<V>(steps: Seq<Step<V>>, step: Step<V>)
    ensures
        sounding(steps.push(step)) == (match step {
            Step::Range(start, end) => if start == end {
                sounding(steps)
            } else {
                sounding(steps).push(step)
            },
            Step::Param(..) => sounding(steps).push(step),
        }),
{
    assert(steps.push(step).drop_last() =~= steps);
}

proof fn lemma_ticks_are_events<V, B>(
    events: Seq<TimedEvent<V, B>>,
    curve: Curve<V>,
    tick_frames: int,
    frames: int,
    count: int,
)
    requires
        0 <= frames,
        0 <= tick_frames,
        0 <= count <= events.len(),
        spell_out(events, curve, tick_frames),
    ensures
        cut_at(events, frames, count) == cut_before(count, tick_frames, frames),
        sounding(plan_of(events, frames, count)) == sounding(
            ticks_plan(seq![curve], tick_frames, frames, count),
        ),
    decreases count,
{
    if count > 0 {
        let tick = count - 1;
        let curves = seq![curve];
        lemma_ticks_are_events(events, curve, tick_frames, frames, tick);
        lemma_ticks_are_in_order(tick, tick_frames, frames);
        let from = cut_before(tick, tick_frames, frames);
        let to = tick_at(tick, tick_frames, frames);
        assert(events[tick].offset == tick * tick_frames);
        assert(cut_at(events, frames, count) == to);
        let value = Step::Param(curve.id, curve.values[tick]);
        let planned = plan_of(events, frames, tick).push(Step::Range(from, to));
        assert(plan_of(events, frames, count) =~= planned.push(value));
        reveal_with_fuel(tick_values, 2);
        assert(tick_values(curves, tick, 1) =~= seq![value]);
        let earlier = ticks_plan(curves, tick_frames, frames, tick);
        let ticked = if from < to {
            earlier.push(Step::Range(from, to))
        } else {
            earlier
        };
        assert(ticks_plan(curves, tick_frames, frames, count) =~= ticked.push(value));
        lemma_sounding_push(plan_of(events, frames, tick), Step::Range(from, to));
        lemma_sounding_push(planned, value);
        lemma_sounding_push(earlier, Step::Range(from, to));
        lemma_sounding_push(ticked, value);
    }
}

/// A curve is a shorter way of writing its events: the block is cut at the same
/// places and the same values are taken there, but for ranges of no frames.
pub proof fn a_curve_is_its_events<V, B>(
    events: Seq<TimedEvent<V, B>>,
    curve: Curve<V>,
    tick_frames: int,
    frames: int,
)
    requires
        0 <= frames,
        0 <= tick_frames,
        spell_out(events, curve, tick_frames),
    ensures
        sounding(param_plan(events, frames)) == sounding(
            curve_plan(Seq::<TimedEvent<V, B>>::empty(), seq![curve], tick_frames, frames),
        ),
{
    let curves = seq![curve];
    let count = events.len() as int;
    let none = Seq::<TimedEvent<V, B>>::empty();
    reveal_with_fuel(longest, 2);
    assert(longest(curves, 1) == count);
    lemma_ticks_are_events(events, curve, tick_frames, frames, count);
    let rest = Step::Range(cut_before(count, tick_frames, frames), frames);
    let ticks = ticks_plan(curves, tick_frames, frames, count);
    assert(queued_values(none, 0) + ticks =~= ticks);
    lemma_sounding_push(plan_of(events, frames, count), rest);
    lemma_sounding_push(ticks, rest);
}

} // verus!
