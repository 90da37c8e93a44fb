//! Sample-accurate event lists: the note and automation pipe between the
//! sequencer and the nodes.
//!
//! Every node receives its block's events as a sorted [`EventList`]: each
//! event carries a sample offset into the block. Nodes split their processing
//! at event offsets, so note timing is sample-accurate regardless of block
//! size. The list has fixed inline capacity and never allocates, so it is safe
//! to fill on the realtime thread.

use vstd::prelude::*;
use vstd::std_specs::slice::into_iter_elts;

verus! {

/// Events a node may receive or emit. `V` is the number a control value is
/// made of, and `B` an edit of retained audio.
#[derive(Clone, Copy, Debug, PartialEq)]
#[allow(inconsistent_fields)]
pub enum Event<V, B> {
    /// `id` pairs note-on and note-off across overlapping notes of one pitch.
    NoteOn { id: u64, note: u8, velocity: u8 },
    NoteOff { id: u64, note: u8 },
    /// Release every active voice quickly. Used by channel choke groups.
    Choke,
    /// Generic parameter automation point. `id` is node-defined.
    ParamValue { id: u32, value: V },
    /// A depth inside one of the generator's own modulation routes, by the
    /// route's durable id. Nodes with no internal routes ignore it.
    SourceRouteAmount { route: u16, amount: V },
    /// Atomic retained-audio edit for a buffer insert.
    Buffer(B),
    /// End of a gated retained-audio edit. Latching edits ignore it, so a
    /// release can be sent without cancelling an unrelated event.
    BufferRelease,
    /// Move a retained-audio scrub platter by a signed distance in frames.
    BufferScrub { delta_frames: V },
}

/// One event and its position inside the current block.
#[derive(Clone, Copy, Debug, PartialEq)]
pub struct TimedEvent<V, B> {
    /// Frames into the block, `0..frames`.
    pub offset: u32,
    pub event: Event<V, B>,
}

/// Generous headroom: a full bar of 32nds across a giant block is still far
/// below it.
pub const MAX_EVENTS: usize = 256;

/// Where an event stands among those at one offset: what ends a note, then
/// what changes a control, then what starts a note.
pub open spec fn priority_of<V, B>(event: Event<V, B>) -> u8 {
    match event {
        Event::NoteOff { .. } | Event::Choke => 0,
        Event::NoteOn { .. } => 2,
        _ => 1,
    }
}

/// Whether `first` may stand before `second` in an ordered list.
pub open spec fn in_order<V, B>(first: TimedEvent<V, B>, second: TimedEvent<V, B>) -> bool {
    first.offset < second.offset || first.offset == second.offset && priority_of(first.event)
        <= priority_of(second.event)
}

/// Whether a list is ordered by offset and priority.
pub open spec fn ordered<V, B>(events: Seq<TimedEvent<V, B>>) -> bool {
    forall|i: int, j: int|
        0 <= i < j < events.len() ==> #[trigger] in_order(events[i], events[j])
}

/// Whether `event` may be put in at `slot`: what stands before it there may
/// stay before it, and what stands after it must stay after.
pub open spec fn fits_at<V, B>(
    events: Seq<TimedEvent<V, B>>,
    event: TimedEvent<V, B>,
    slot: int,
) -> bool {
    &&& 0 <= slot <= events.len()
    &&& slot > 0 ==> in_order(events[slot - 1], event)
    &&& slot < events.len() ==> !in_order(events[slot], event)
}

/// Whether `slot` parts the list into what may stand before `event` and what
/// may not.
pub open spec fn parts_at<V, B>(
    events: Seq<TimedEvent<V, B>>,
    event: TimedEvent<V, B>,
    slot: int,
) -> bool {
    &&& 0 <= slot <= events.len()
    &&& forall|i: int| 0 <= i < slot ==> #[trigger] in_order(events[i], event)
    &&& forall|i: int| slot <= i < events.len() ==> !#[trigger] in_order(events[i], event)
}

/// A fixed-capacity, allocation-free list of sample-timed events.
pub struct EventList<V, B> {
    buf: [TimedEvent<V, B>; MAX_EVENTS],
    len: usize,
}

impl<V, B> View for EventList<V, B> {
    type V = Seq<TimedEvent<V, B>>;

    closed spec fn view(&self) -> Seq<TimedEvent<V, B>> {
        self.buf@.subrange(0, self.len as int)
    }
}

impl<V, B> EventList<V, B> {
    #[verifier::type_invariant]
    closed spec fn fits(&self) -> bool {
        self.len <= MAX_EVENTS
    }
}

impl<V: Copy, B: Copy> EventList<V, B> {
    pub fn empty() -> (list: Self)
        ensures
            list@ == Seq::<TimedEvent<V, B>>::empty(),
    {
        let list = EventList {
            buf: [TimedEvent { offset: 0, event: Event::NoteOff { id: 0, note: 0 } }; MAX_EVENTS],
            len: 0,
        };
        assert(list@ =~= Seq::empty());
        list
    }

    pub fn clear(&mut self)
        ensures
            final(self)@ == Seq::<TimedEvent<V, B>>::empty(),
    {
        self.len = 0;
        assert(self@ =~= Seq::empty());
    }

    /// Append an event. Callers append in time order. Returns `false`,
    /// dropping the event, if the list is full.
    pub fn push(&mut self, event: TimedEvent<V, B>) -> (taken: bool)
        ensures
            taken == (old(self)@.len() < MAX_EVENTS),
            final(self)@ == (if taken {
                old(self)@.push(event)
            } else {
                old(self)@
            }),
    {
        proof {
            use_type_invariant(&*self);
        }
        if self.len == MAX_EVENTS {
            return false;
        }
        let at: usize = self.len;
        self.buf[at] = event;
        self.len = at + 1;
        assert(self@ =~= old(self)@.push(event));
        true
    }

    /// Insert by sample offset with deterministic ordering at equal offsets:
    /// note-offs, parameter changes, then note-ons, and behind what is equal
    /// in both. A retrigger so ends the old voice before it starts the new
    /// one, and a parameter reaches the note that starts on its sample.
    pub fn push_ordered(&mut self, event: TimedEvent<V, B>) -> (taken: bool)
        ensures
            taken == (old(self)@.len() < MAX_EVENTS),
            !taken ==> final(self)@ == old(self)@,
            taken ==> exists|slot: int|
                #[trigger] fits_at(old(self)@, event, slot) && final(self)@ == old(self)@.insert(
                    slot,
                    event,
                ),
            taken && ordered(old(self)@) ==> ordered(final(self)@) && exists|slot: int|
                #[trigger] parts_at(old(self)@, event, slot) && final(self)@ == old(self)@.insert(
                    slot,
                    event,
                ),
    {
        proof {
            use_type_invariant(&*self);
        }
        if self.len == MAX_EVENTS {
            return false;
        }
        let ghost before = self@;
        let slot: usize = self.slot_for(&event);
        let len: usize = self.len;
        let mut at: usize = len;
        self.len = len + 1;
        while at > slot
            invariant
                slot <= at <= len < MAX_EVENTS,
                self.len == len + 1,
                before.len() == len,
                forall|i: int| 0 <= i < at ==> self.buf[i] == before[i],
                forall|i: int| at < i <= len ==> self.buf[i] == before[i - 1],
            decreases at,
        {
            self.buf[at] = self.buf[at - 1];
            at = at - 1;
        }
        self.buf[slot] = event;
        proof {
            assert(self@ =~= before.insert(slot as int, event));
            if ordered(before) {
                lemma_ordered_insert(before, event, slot as int);
            }
        }
        true
    }

    /// The slot for an event, found by halving.
    fn slot_for(&self, event: &TimedEvent<V, B>) -> (slot: usize)
        ensures
            slot <= self.len,
            fits_at(self@, *event, slot as int),
    {
        proof {
            use_type_invariant(self);
        }
        let mut low: usize = 0;
        let mut high: usize = self.len;
        while low < high
            invariant
                low <= high <= self.len <= MAX_EVENTS,
                low > 0 ==> in_order(self@[low - 1], *event),
                high < self.len ==> !in_order(self@[high as int], *event),
            decreases high - low,
        {
            let middle: usize = low + (high - low) / 2;
            assert(self@[middle as int] == self.buf[middle as int]);
            if stands_before(&self.buf[middle], event) {
                low = middle + 1;
            } else {
                high = middle;
            }
        }
        low
    }

    pub fn len(&self) -> (len: usize)
        ensures
            len == self@.len(),
    {
        proof {
            use_type_invariant(self);
        }
        self.len
    }

    pub fn is_empty(&self) -> (answer: bool)
        ensures
            answer == (self@.len() == 0),
    {
        proof {
            use_type_invariant(self);
        }
        self.len == 0
    }

    /// The event at a place in the list.
    pub fn get(&self, index: usize) -> (event: TimedEvent<V, B>)
        requires
            index < self@.len(),
        ensures
            event == self@[index as int],
    {
        proof {
            use_type_invariant(self);
        }
        self.buf[index]
    }

    pub fn iter(&self) -> (events: core::slice::Iter<'_, TimedEvent<V, B>>)
        ensures
            into_iter_elts(events) == self@,
    {
        proof {
            use_type_invariant(self);
        }
        let held = vstd::slice::slice_subrange(self.buf.as_slice(), 0, self.len);
        let events = held.iter();
        proof {
            broadcast use vstd::std_specs::slice::axiom_spec_slice_iter;

            assert(held@.as_ref().unref() =~= held@);
        }
        events
    }
}

/// An event's offset, and its priority among those at that offset.
pub fn event_sort_key<V: Copy, B: Copy>(event: &TimedEvent<V, B>) -> (key: (u32, u8))
    ensures
        key == (event.offset, priority_of(event.event)),
{
    let priority: u8 = match event.event {
        Event::NoteOff { .. } | Event::Choke => 0,
        Event::ParamValue { .. }
        | Event::SourceRouteAmount { .. }
        | Event::Buffer(_)
        | Event::BufferRelease
        | Event::BufferScrub { .. } => 1,
        Event::NoteOn { .. } => 2,
    };
    (event.offset, priority)
}

fn stands_before<V: Copy, B: Copy>(first: &TimedEvent<V, B>, second: &TimedEvent<V, B>) -> (answer:
    bool)
    ensures
        answer == in_order(*first, *second),
{
    let (offset, priority) = event_sort_key(first);
    let (other_offset, other_priority) = event_sort_key(second);
    offset < other_offset || offset == other_offset && priority <= other_priority
}

/// A fitting slot of an ordered list parts it, and the list stays ordered.
proof fn lemma_ordered_insert<V, B>(
    events: Seq<TimedEvent<V, B>>,
    event: TimedEvent<V, B>,
    slot: int,
)
    requires
        ordered(events),
        fits_at(events, event, slot),
    ensures
        parts_at(events, event, slot),
        ordered(events.insert(slot, event)),
{
    assert forall|i: int| 0 <= i < slot implies #[trigger] in_order(events[i], event) by {
        if i < slot - 1 {
            assert(in_order(events[i], events[slot - 1]));
        }
    }
    assert forall|i: int| slot <= i < events.len() implies !#[trigger] in_order(
        events[i],
        event,
    ) by {
        if i > slot {
            assert(in_order(events[slot], events[i]));
        }
    }
    let after = events.insert(slot, event);
    assert forall|i: int, j: int| 0 <= i < j < after.len() implies #[trigger] in_order(
        after[i],
        after[j],
    ) by {
        let from = if i < slot { i } else { i - 1 };
        let to = if j < slot { j } else { j - 1 };
        if i != slot && j != slot {
            assert(in_order(events[from], events[to]));
        } else if j == slot {
            assert(in_order(events[i], event));
        } else {
            assert(!in_order(events[to], event));
        }
    }
}

/// In an ordered list a parameter change is seen by every note that starts on
/// its sample, and a note that ends there ends before either.
pub proof fn parameters_precede_note_ons<V, B>(events: Seq<TimedEvent<V, B>>, i: int, j: int)
    requires
        ordered(events),
        0 <= i < events.len(),
        0 <= j < events.len(),
        events[i].offset == events[j].offset,
        priority_of(events[i].event) < priority_of(events[j].event),
    ensures
        i < j,
{
    if j < i {
        assert(in_order(events[j], events[i]));
    }
}

/// Two events whose keys differ land in one and the same list, whichever of
/// them is put in first.
pub proof fn ordered_inserts_commute<V, B>(
    events: Seq<TimedEvent<V, B>>,
    a: TimedEvent<V, B>,
    b: TimedEvent<V, B>,
    a_first: int,
    b_second: int,
    b_first: int,
    a_second: int,
)
    requires
        ordered(events),
        !(in_order(a, b) && in_order(b, a)),
        parts_at(events, a, a_first),
        parts_at(events.insert(a_first, a), b, b_second),
        parts_at(events, b, b_first),
        parts_at(events.insert(b_first, b), a, a_second),
    ensures
        events.insert(a_first, a).insert(b_second, b) == events.insert(b_first, b).insert(
            a_second,
            a,
        ),
{
    if in_order(a, b) {
        lemma_later_event_parts_later(events, a, b, a_first, b_first);
        lemma_parts_of_the_pair(events, a, b, a_first, b_first, a_second, b_second);
    } else {
        lemma_later_event_parts_later(events, b, a, b_first, a_first);
        lemma_parts_of_the_pair(events, b, a, b_first, a_first, b_second, a_second);
    }
}

proof fn lemma_later_event_parts_later<V, B>(
    events: Seq<TimedEvent<V, B>>,
    early: TimedEvent<V, B>,
    late: TimedEvent<V, B>,
    early_slot: int,
    late_slot: int,
)
    requires
        in_order(early, late),
        parts_at(events, early, early_slot),
        parts_at(events, late, late_slot),
    ensures
        early_slot <= late_slot,
{
    if late_slot < early_slot {
        assert(in_order(events[late_slot], early));
        assert(!in_order(events[late_slot], late));
    }
}

proof fn lemma_parts_of_the_pair<V, B>(
    events: Seq<TimedEvent<V, B>>,
    early: TimedEvent<V, B>,
    late: TimedEvent<V, B>,
    early_slot: int,
    late_slot: int,
    early_second: int,
    late_second: int,
)
    requires
        in_order(early, late),
        !in_order(late, early),
        early_slot <= late_slot,
        parts_at(events, early, early_slot),
        parts_at(events, late, late_slot),
        parts_at(events.insert(early_slot, early), late, late_second),
        parts_at(events.insert(late_slot, late), early, early_second),
    ensures
        events.insert(early_slot, early).insert(late_second, late) == events.insert(
            late_slot,
            late,
        ).insert(early_second, early),
{
    let with_early = events.insert(early_slot, early);
    let with_late = events.insert(late_slot, late);
    assert(late_second == late_slot + 1) by {
        if late_second <= late_slot {
            assert(!in_order(with_early[late_slot], late));
            if late_slot > early_slot {
                assert(with_early[late_slot] == events[late_slot - 1]);
                assert(in_order(events[late_slot - 1], late));
            } else {
                assert(with_early[late_slot] == early);
            }
        }
        if late_second > late_slot + 1 {
            assert(in_order(with_early[late_slot + 1], late));
            assert(with_early[late_slot + 1] == events[late_slot]);
            assert(!in_order(events[late_slot], late));
        }
    }
    assert(early_second == early_slot) by {
        if early_second < early_slot {
            assert(!in_order(with_late[early_second], early));
            assert(with_late[early_second] == events[early_second]);
            assert(in_order(events[early_second], early));
        }
        if early_second > early_slot {
            assert(in_order(with_late[early_slot], early));
            if early_slot < late_slot {
                assert(with_late[early_slot] == events[early_slot]);
                assert(!in_order(events[early_slot], early));
            } else {
                assert(with_late[early_slot] == late);
            }
        }
    }
    assert(with_early.insert(late_second, late) =~= with_late.insert(early_second, early));
}

} // verus!
