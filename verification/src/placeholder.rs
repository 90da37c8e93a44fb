//! What occupies a rack slot when nothing is to be heard of it: the container's
//! transparent node, and the placeholder of a plugin that is not running.

use vstd::prelude::*;

use crate::bus::{fitting, StereoBus};
use crate::fold::{
    after_frames, left_of, lemma_frame_rendered, lemma_nothing_rendered, right_of,
};
use crate::hosted_source::PluginSlotId;
use crate::node::{Discontinuity, ProcessContext};
use crate::num::Sample;
use crate::ring::{forgotten, remembered, Shift};

verus! {

/// A container's slot occupant: transparent, stateless, and always at rest.
/// Its work, crossfading a copy of its input back in at the end of its run,
/// is the host's.
#[derive(Clone, Copy, Debug)]
pub struct ContainerEffect<P> {
    pub params: P,
}

impl<P: Copy> ContainerEffect<P> {
    pub fn new(params: P) -> (effect: Self)
        ensures
            effect == (ContainerEffect { params }),
    {
        ContainerEffect { params }
    }

    pub fn set_params(&mut self, params: P)
        ensures
            *final(self) == (ContainerEffect { params }),
    {
        self.params = params;
    }

    pub fn params(&self) -> (params: P)
        ensures
            params == self.params,
    {
        self.params
    }

    pub fn tail_frames(&self) -> (frames: u32)
        ensures
            frames == 0,
    {
        0
    }

    pub fn is_at_rest(&self) -> (answer: bool)
        ensures
            answer,
    {
        true
    }

    /// A container's latency is not the sum of its children's: they are rows
    /// of the same chain, which counts them already.
    pub fn latency_frames(&self) -> (frames: u32)
        ensures
            frames == 0,
    {
        0
    }

    /// Leaves the bus as it is.
    pub fn process<S: Sample>(&mut self, ctx: &ProcessContext, bus: &mut StereoBus<S>)
        ensures
            *final(self) == *old(self),
            *final(bus) == *old(bus),
    {
    }
}

/// A plugin slot's occupant with no plugin in it: transparent, and stateless
/// apart from the latency it may stand in for.
pub struct PluginPlaceholder<S> {
    pub slot: PluginSlotId,
    /// The latency of the plugin it stands in for, as a row for each channel;
    /// `None` for none, which is every placeholder but a restart's.
    pub delay: Option<(Shift<S>, Shift<S>)>,
}

/// What two rows hold.
pub struct Late<S> {
    pub l: Seq<S>,
    pub r: Seq<S>,
}

/// Two rows after a frame.
pub open spec fn late_step<S>() -> spec_fn(Late<S>, S, S) -> Late<S> {
    |late: Late<S>, l: S, r: S| Late { l: remembered(late.l, l), r: remembered(late.r, r) }
}

/// What comes out of two rows for a frame: the oldest they hold.
pub open spec fn late_heard<S>() -> spec_fn(Late<S>, S, S) -> (S, S) {
    |late: Late<S>, l: S, r: S| (late.l.last(), late.r.last())
}

impl<S: Sample> PluginPlaceholder<S> {
    /// The two rows are of one length, and not empty.
    pub open spec fn well_formed(&self) -> bool {
        self.delay is Some ==> self.delay->Some_0.0.well_formed()
            && self.delay->Some_0.1.well_formed() && self.delay->Some_0.0@.len()
            == self.delay->Some_0.1@.len() && self.delay->Some_0.0@.len() > 0
    }

    /// What the rows hold, where there are any.
    pub open spec fn held(&self) -> Option<Late<S>> {
        match self.delay {
            None => None,
            Some(rows) => Some(Late { l: rows.0@, r: rows.1@ }),
        }
    }

    pub fn new(slot: PluginSlotId) -> (placeholder: Self)
        ensures
            placeholder.well_formed(),
            placeholder.slot == slot,
            placeholder.held() is None,
    {
        PluginPlaceholder { slot, delay: None }
    }

    /// A pass-through `latency` frames late: the placeholder for a plugin
    /// whose latency the chain is compensated for. Allocates the rows.
    pub fn with_latency(slot: PluginSlotId, latency: u32) -> (placeholder: Self)
        ensures
            placeholder.well_formed(),
            placeholder.slot == slot,
            placeholder.held() == (if latency == 0 {
                None
            } else {
                Some(Late { l: forgotten::<S>(latency as nat), r: forgotten(latency as nat) })
            }),
    {
        if latency == 0 {
            return PluginPlaceholder { slot, delay: None };
        }
        let left: Shift<S> = Shift::filled(latency as usize, S::of(0));
        let right: Shift<S> = Shift::filled(latency as usize, S::of(0));
        assert(left@ =~= forgotten::<S>(latency as nat));
        assert(right@ =~= forgotten::<S>(latency as nat));
        PluginPlaceholder { slot, delay: Some((left, right)) }
    }

    /// The plugin slot this device names.
    pub fn slot(&self) -> (slot: PluginSlotId)
        ensures
            slot == self.slot,
    {
        self.slot
    }

    pub fn tail_frames(&self) -> (frames: u32)
        ensures
            frames == 0,
    {
        0
    }

    /// At rest whatever its rows hold: the host keeps a slot awake until it
    /// has seen silence for its latency, which is the rows.
    pub fn is_at_rest(&self) -> (answer: bool)
        ensures
            answer,
    {
        true
    }

    /// Nothing for a plain placeholder. A restart's stands in for the plugin's
    /// own.
    pub fn latency_frames(&self) -> (frames: usize)
        ensures
            frames == (match self.held() {
                None => 0nat,
                Some(late) => late.l.len(),
            }),
    {
        match &self.delay {
            None => 0,
            Some(rows) => rows.0.len(),
        }
    }

    pub fn on_discontinuity(&mut self, kind: Discontinuity)
        requires
            old(self).well_formed(),
        ensures
            final(self).well_formed(),
            final(self).slot == old(self).slot,
            final(self).held() == (match old(self).held() {
                None => None,
                Some(late) => Some(
                    if kind.leaves() {
                        Late { l: forgotten(late.l.len()), r: forgotten(late.r.len()) }
                    } else {
                        late
                    },
                ),
            }),
    {
        if kind.invalidates_tails() {
            if let Some(rows) = &mut self.delay {
                let ghost frames = rows.0@.len();
                rows.0.fill(S::of(0));
                rows.1.fill(S::of(0));
                assert(rows.0@ =~= forgotten::<S>(frames));
                assert(rows.1@ =~= forgotten::<S>(frames));
            }
        }
    }

    /// Passes the bus on, as late as the latency it stands in for. Parameter
    /// events name the plugin's parameters, and there is no plugin to take
    /// them.
    pub fn process(&mut self, ctx: &ProcessContext, bus: &mut StereoBus<S>)
        requires
            old(self).well_formed(),
            old(bus).well_formed(),
        ensures
            final(self).well_formed(),
            final(bus).well_formed(),
            final(self).slot == old(self).slot,
            match old(self).held() {
                None => {
                    &&& final(self).held() is None
                    &&& final(bus).l@ == old(bus).l@
                    &&& final(bus).r@ == old(bus).r@
                },
                Some(late) => {
                    let frames = fitting(ctx.frames as int, old(bus).l@.len() as int);
                    let (l, r) = (old(bus).l@, old(bus).r@);
                    &&& final(self).held() == Some(
                        after_frames(late_step(), late, l, r, 0, frames),
                    )
                    &&& final(bus).l@ == left_of(late_step(), late_heard(), late, l, r, 0, frames)
                    &&& final(bus).r@ == right_of(late_step(), late_heard(), late, l, r, 0, frames)
                },
            },
    {
        let capacity: usize = bus.capacity();
        let frames: usize = if ctx.frames < capacity {
            ctx.frames
        } else {
            capacity
        };
        if let Some(rows) = &mut self.delay {
            delay_bus(&mut rows.0, &mut rows.1, bus, frames);
        }
    }
}

/// Pass the first `frames` frames of a bus through two rows.
fn delay_bus<S: Sample>(
    left: &mut Shift<S>,
    right: &mut Shift<S>,
    bus: &mut StereoBus<S>,
    frames: usize,
)
    requires
        old(left).well_formed(),
        old(right).well_formed(),
        old(left)@.len() == old(right)@.len(),
        old(left)@.len() > 0,
        old(bus).well_formed(),
        frames <= old(bus).l@.len(),
    ensures
        final(left).well_formed(),
        final(right).well_formed(),
        final(left)@.len() == old(left)@.len(),
        final(right)@.len() == old(right)@.len(),
        final(bus).well_formed(),
        ({
            let late = Late { l: old(left)@, r: old(right)@ };
            let (l, r) = (old(bus).l@, old(bus).r@);
            &&& (Late { l: final(left)@, r: final(right)@ }) == after_frames(
                late_step(),
                late,
                l,
                r,
                0,
                frames as int,
            )
            &&& final(bus).l@ == left_of(late_step(), late_heard(), late, l, r, 0, frames as int)
            &&& final(bus).r@ == right_of(late_step(), late_heard(), late, l, r, 0, frames as int)
        }),
{
    let ghost late = Late { l: left@, r: right@ };
    let ghost l = bus.l@;
    let ghost r = bus.r@;
    proof {
        lemma_nothing_rendered(late_step(), late_heard(), late, l, r, 0);
    }
    let mut i: usize = 0;
    while i < frames
        invariant
            i <= frames <= l.len(),
            l.len() == r.len(),
            bus.l@.len() == l.len(),
            bus.r@.len() == r.len(),
            left.well_formed(),
            right.well_formed(),
            left@.len() == old(left)@.len(),
            right@.len() == old(right)@.len(),
            left@.len() > 0,
            right@.len() > 0,
            (Late { l: left@, r: right@ }) == after_frames(late_step(), late, l, r, 0, i as int),
            bus.l@ == left_of(late_step(), late_heard(), late, l, r, 0, i as int),
            bus.r@ == right_of(late_step(), late_heard(), late, l, r, 0, i as int),
        decreases frames - i,
    {
        proof {
            lemma_frame_rendered(late_step(), late_heard(), late, l, r, 0, i as int);
        }
        bus.l[i] = left.pass(bus.l[i]);
        bus.r[i] = right.pass(bus.r[i]);
        i = i + 1;
    }
}

/// A placeholder that stands in for a latency hands every sample on, exactly
/// that many frames late: what comes out at a frame is what went in the
/// latency before.
pub proof fn a_placeholder_is_its_latency_late<S>(
    late: Late<S>,
    l: Seq<S>,
    r: Seq<S>,
    frames: int,
    latency: int,
)
    requires
        0 < latency,
        late.l.len() == latency,
        late.r.len() == latency,
        latency <= frames <= l.len(),
        l.len() == r.len(),
    ensures
        after_frames(late_step(), late, l, r, 0, frames).l.last() == l[frames - latency],
        after_frames(late_step(), late, l, r, 0, frames).r.last() == r[frames - latency],
{
    lemma_rows_age(late, l, r, frames);
}

proof fn lemma_rows_age<S>(late: Late<S>, l: Seq<S>, r: Seq<S>, frames: int)
    requires
        0 < late.l.len(),
        late.l.len() == late.r.len(),
        0 <= frames <= l.len(),
        l.len() == r.len(),
    ensures
        ({
            let after = after_frames(late_step(), late, l, r, 0, frames);
            &&& after.l.len() == late.l.len()
            &&& after.r.len() == late.r.len()
            &&& forall|age: int|
                0 <= age < late.l.len() && age < frames ==> #[trigger] after.l[age] == l[frames
                    - 1 - age]
            &&& forall|age: int|
                0 <= age < late.r.len() && age < frames ==> #[trigger] after.r[age] == r[frames
                    - 1 - age]
        }),
    decreases frames,
{
    if frames > 0 {
        lemma_rows_age(late, l, r, frames - 1);
    }
}

} // verus!
