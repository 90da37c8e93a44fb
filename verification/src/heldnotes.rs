//! The held-note stack a monophonic voice needs to behave like a monosynth
//! rather than like a synth with one voice.
//!
//! Two rules the rest of the engine depends on:
//!
//! - **Fixed size, no allocation.** The storage is an array. On overflow the
//!   *oldest* entry is dropped rather than the new note rejected: refusing the
//!   newest note is the audible failure.
//! - **Event ids are the identity of a note.** Removal matches on `event_id`
//!   and never on pitch, so a stale note-off cannot evict a newer entry that
//!   happens to share a note number.

use vstd::prelude::*;

verus! {

/// How many simultaneously held notes are tracked.
pub const MAX_HELD_NOTES: usize = 16;

/// Which of the held notes a monophonic voice plays.
#[derive(Clone, Copy, Debug, PartialEq, Eq, Structural)]
pub enum NotePriority {
    /// The most recently pressed.
    Last,
    /// The lowest.
    Low,
    /// The highest.
    High,
}

#[derive(Clone, Copy, Debug, PartialEq, Eq, Structural)]
pub struct HeldNote {
    pub event_id: u64,
    pub note: u8,
    /// Carried so that falling back to this note restores *its* velocity, not
    /// the velocity of the note that was just released.
    pub velocity: u8,
}

/// Oldest-first, so the last entry is the most recently pressed note.
pub struct HeldNotes {
    notes: [HeldNote; MAX_HELD_NOTES],
    len: usize,
}

/// Where the oldest note held under `event_id` stands, or the length when
/// none is.
pub open spec fn position_of(held: Seq<HeldNote>, event_id: u64) -> int
    decreases held.len(),
{
    if held.len() == 0 {
        0
    } else if held[0].event_id == event_id {
        0
    } else {
        1 + position_of(held.skip(1), event_id)
    }
}

/// Whether any note is held under `event_id`.
pub open spec fn holds(held: Seq<HeldNote>, event_id: u64) -> bool {
    exists|i: int| 0 <= i < held.len() && #[trigger] held[i].event_id == event_id
}

/// The stack after `note` is pressed.
pub open spec fn pushed(held: Seq<HeldNote>, note: HeldNote) -> Seq<HeldNote> {
    if held.len() == MAX_HELD_NOTES {
        held.skip(1).push(note)
    } else {
        held.push(note)
    }
}

/// The stack after the note held under `event_id` is released.
pub open spec fn released(held: Seq<HeldNote>, event_id: u64) -> Seq<HeldNote> {
    if holds(held, event_id) {
        held.remove(position_of(held, event_id))
    } else {
        held
    }
}

/// Whether the note at `i` is the one a voice under `priority` plays: the
/// extreme pitch, and of equal pitches the most recently pressed.
pub open spec fn wins(held: Seq<HeldNote>, priority: NotePriority, i: int) -> bool {
    &&& 0 <= i < held.len()
    &&& match priority {
        NotePriority::Last => i == held.len() - 1,
        NotePriority::Low => {
            &&& forall|j: int| 0 <= j < i ==> held[i].note <= #[trigger] held[j].note
            &&& forall|j: int| i < j < held.len() ==> held[i].note < #[trigger] held[j].note
        },
        NotePriority::High => {
            &&& forall|j: int| 0 <= j < i ==> held[i].note >= #[trigger] held[j].note
            &&& forall|j: int| i < j < held.len() ==> held[i].note > #[trigger] held[j].note
        },
    }
}

impl View for HeldNotes {
    type V = Seq<HeldNote>;

    closed spec fn view(&self) -> Seq<HeldNote> {
        self.notes@.take(self.len as int)
    }
}

impl Default for HeldNotes {
    fn default() -> (stack: Self)
        ensures
            stack.well_formed(),
            stack@ == Seq::<HeldNote>::empty(),
    {
        Self::new()
    }
}

impl HeldNotes {
    /// The stack's own invariant: it never claims more notes than it stores.
    pub closed spec fn well_formed(&self) -> bool {
        self.len <= MAX_HELD_NOTES
    }

    pub fn new() -> (stack: Self)
        ensures
            stack.well_formed(),
            stack@ == Seq::<HeldNote>::empty(),
    {
        let stack = Self {
            notes: [HeldNote { event_id: 0, note: 0, velocity: 0 };MAX_HELD_NOTES],
            len: 0,
        };
        assert(stack@ =~= Seq::<HeldNote>::empty());
        stack
    }

    pub fn len(&self) -> (len: usize)
        requires
            self.well_formed(),
        ensures
            len == self@.len(),
            len <= MAX_HELD_NOTES,
    {
        self.len
    }

    pub fn is_empty(&self) -> (empty: bool)
        requires
            self.well_formed(),
        ensures
            empty == (self@.len() == 0),
    {
        self.len == 0
    }

    pub fn clear(&mut self)
        requires
            old(self).well_formed(),
        ensures
            final(self).well_formed(),
            final(self)@ == Seq::<HeldNote>::empty(),
    {
        self.len = 0;
        assert(self@ =~= Seq::<HeldNote>::empty());
    }

    /// Record a newly pressed note. Dropping the oldest entry when full keeps
    /// the note the player just played.
    pub fn push(&mut self, note: HeldNote)
        requires
            old(self).well_formed(),
        ensures
            final(self).well_formed(),
            final(self)@ == pushed(old(self)@, note),
    {
        if self.len == MAX_HELD_NOTES {
            self.close_gap(0);
        }
        let at: usize = self.len;
        self.notes[at] = note;
        self.len = at + 1;
        assert(self@ =~= pushed(old(self)@, note));
    }

    /// Drop the entry at `index`, moving the newer ones down over it.
    fn close_gap(&mut self, index: usize)
        requires
            old(self).well_formed(),
            index < old(self)@.len(),
        ensures
            final(self).well_formed(),
            final(self)@ == old(self)@.remove(index as int),
            final(self)@.len() == old(self)@.len() - 1,
    {
        let len: usize = self.len;
        let mut i: usize = index;
        while i + 1 < len
            invariant
                index <= i < len,
                len == old(self).len,
                self.len == len,
                len <= MAX_HELD_NOTES,
                forall|j: int| 0 <= j < index ==> self.notes@[j] == old(self).notes@[j],
                forall|j: int| index <= j < i ==> self.notes@[j] == old(self).notes@[j + 1],
                forall|j: int| i < j < len ==> self.notes@[j] == old(self).notes@[j],
            decreases len - i,
        {
            let next: HeldNote = self.notes[i + 1];
            self.notes[i] = next;
            i = i + 1;
        }
        self.len = len - 1;
        assert(self@ =~= old(self)@.remove(index as int));
    }

    /// Release the entry with this event id, preserving press order. Returns
    /// whether anything was actually held under that id: a `false` here is a
    /// stale note-off and the caller should do nothing at all.
    pub fn remove(&mut self, event_id: u64) -> (found: bool)
        requires
            old(self).well_formed(),
        ensures
            final(self).well_formed(),
            found == holds(old(self)@, event_id),
            final(self)@ == released(old(self)@, event_id),
    {
        let mut index: usize = 0;
        while index < self.len
            invariant
                self.well_formed(),
                *self == *old(self),
                index <= self.len,
                forall|j: int| 0 <= j < index ==> #[trigger] self@[j].event_id != event_id,
            decreases self.len - index,
        {
            assert(self@[index as int] == self.notes@[index as int]);
            if self.notes[index].event_id == event_id {
                proof {
                    lemma_first_position(self@, event_id, index as int);
                }
                self.close_gap(index);
                return true;
            }
            index = index + 1;
        }
        false
    }

    /// The note the voice should be playing, or `None` when nothing is held.
    /// `Low` and `High` break ties towards the most recently pressed note, so
    /// re-pressing a pitch that is already down still takes the voice.
    pub fn winner(&self, priority: NotePriority) -> (note: Option<HeldNote>)
        requires
            self.well_formed(),
        ensures
            note is None <==> self@.len() == 0,
            note matches Some(held) ==> exists|i: int|
                #[trigger] wins(self@, priority, i) && held == self@[i],
    {
        if self.len == 0 {
            return None;
        }
        let mut best: usize = 0;
        let mut next: usize = 1;
        assert(self@.len() == self.len);
        while next < self.len
            invariant
                self.well_formed(),
                self@.len() == self.len,
                best < next <= self.len,
                wins(self@.take(next as int), priority, best as int),
            decreases self.len - next,
        {
            assert(self@[next as int] == self.notes@[next as int]);
            assert(self@[best as int] == self.notes@[best as int]);
            let ghost before = self@.take(next as int);
            let ghost after = self@.take(next + 1);
            assert(forall|j: int| 0 <= j < next ==> before[j] == after[j]);
            let takes: bool = match priority {
                NotePriority::Last => true,
                NotePriority::Low => self.notes[next].note <= self.notes[best].note,
                NotePriority::High => self.notes[next].note >= self.notes[best].note,
            };
            if takes {
                assert forall|j: int| 0 <= j < next implies (priority == NotePriority::Low
                    ==> after[next as int].note <= #[trigger] after[j].note) && (priority
                    == NotePriority::High ==> after[next as int].note >= after[j].note) by {
                    assert(before[j] == after[j]);
                }
                assert(wins(after, priority, next as int));
                best = next;
            } else {
                assert(wins(after, priority, best as int));
            }
            next = next + 1;
        }
        assert(self@.take(self.len as int) =~= self@);
        assert(wins(self@, priority, best as int));
        assert(self@[best as int] == self.notes@[best as int]);
        Some(self.notes[best])
    }
}

/// The first entry under an id is the one the search lands on.
proof fn lemma_first_position(held: Seq<HeldNote>, event_id: u64, index: int)
    requires
        0 <= index < held.len(),
        held[index].event_id == event_id,
        forall|j: int| 0 <= j < index ==> #[trigger] held[j].event_id != event_id,
    ensures
        holds(held, event_id),
        position_of(held, event_id) == index,
    decreases index,
{
    if index > 0 {
        let rest = held.skip(1);
        assert(held[0].event_id != event_id);
        assert forall|j: int| 0 <= j < index - 1 implies #[trigger] rest[j].event_id
            != event_id by {
            assert(rest[j] == held[j + 1]);
        }
        lemma_first_position(rest, event_id, index - 1);
    }
}

/// Where an id is held, its position is that of an entry under it, and no
/// older entry is under it.
pub proof fn position_is_the_oldest_under_its_id(held: Seq<HeldNote>, event_id: u64)
    requires
        holds(held, event_id),
    ensures
        0 <= position_of(held, event_id) < held.len(),
        held[position_of(held, event_id)].event_id == event_id,
        forall|j: int|
            0 <= j < position_of(held, event_id) ==> #[trigger] held[j].event_id != event_id,
    decreases held.len(),
{
    let at = choose|i: int| 0 <= i < held.len() && #[trigger] held[i].event_id == event_id;
    if held[0].event_id != event_id {
        let rest = held.skip(1);
        assert(rest[at - 1].event_id == event_id);
        position_is_the_oldest_under_its_id(rest, event_id);
        assert forall|j: int| 0 <= j < position_of(held, event_id) implies #[trigger] held[j].event_id
            != event_id by {
            if j > 0 {
                assert(rest[j - 1] == held[j]);
            }
        }
    }
}

/// The newest press always has the voice under `Last`, however full the stack
/// was, and takes it under `Low` and `High` when nothing held is lower or
/// higher.
pub proof fn the_newest_press_takes_the_voice(
    held: Seq<HeldNote>,
    note: HeldNote,
    priority: NotePriority,
)
    requires
        held.len() <= MAX_HELD_NOTES,
        priority == NotePriority::Low ==> forall|j: int|
            0 <= j < held.len() ==> note.note <= #[trigger] held[j].note,
        priority == NotePriority::High ==> forall|j: int|
            0 <= j < held.len() ==> note.note >= #[trigger] held[j].note,
    ensures
        wins(pushed(held, note), priority, pushed(held, note).len() - 1),
        pushed(held, note)[pushed(held, note).len() - 1] == note,
{
    let after = pushed(held, note);
    let shift = held.len() + 1 - after.len();
    assert forall|j: int| 0 <= j < after.len() - 1 implies #[trigger] after[j] == held[j + shift] by {}
}

/// At most one entry wins, so the note a voice plays is determined.
pub proof fn the_winner_is_unique(held: Seq<HeldNote>, priority: NotePriority, i: int, k: int)
    requires
        wins(held, priority, i),
        wins(held, priority, k),
    ensures
        i == k,
{
    match priority {
        NotePriority::Last => {},
        NotePriority::Low => {
            assert(i < k ==> held[k].note <= held[i].note);
            assert(i < k ==> held[i].note < held[k].note);
            assert(k < i ==> held[i].note <= held[k].note);
            assert(k < i ==> held[k].note < held[i].note);
        },
        NotePriority::High => {
            assert(i < k ==> held[k].note >= held[i].note);
            assert(i < k ==> held[i].note > held[k].note);
            assert(k < i ==> held[i].note >= held[k].note);
            assert(k < i ==> held[k].note > held[i].note);
        },
    }
}

/// The stack never outgrows its storage, and loses nothing but its oldest
/// entry to a press that finds it full.
pub proof fn a_press_drops_at_most_the_oldest(held: Seq<HeldNote>, note: HeldNote)
    requires
        held.len() <= MAX_HELD_NOTES,
    ensures
        pushed(held, note).len() <= MAX_HELD_NOTES,
        held.len() < MAX_HELD_NOTES ==> pushed(held, note) == held.push(note),
        held.len() == MAX_HELD_NOTES ==> pushed(held, note) == held.push(note).remove(0),
{
    if held.len() == MAX_HELD_NOTES {
        assert(held.skip(1).push(note) =~= held.push(note).remove(0));
    }
}

/// A note-off for an id nothing is held under leaves the stack alone, whatever
/// pitches it holds.
pub proof fn a_stale_note_off_changes_nothing(held: Seq<HeldNote>, event_id: u64)
    requires
        !holds(held, event_id),
    ensures
        released(held, event_id) == held,
{
}

/// Releasing a note under an id of its own undoes its press, where the press
/// dropped nothing.
pub proof fn release_undoes_a_press(held: Seq<HeldNote>, note: HeldNote)
    requires
        held.len() < MAX_HELD_NOTES,
        !holds(held, note.event_id),
    ensures
        released(pushed(held, note), note.event_id) == held,
{
    let after = pushed(held, note);
    assert forall|j: int| 0 <= j < held.len() implies #[trigger] after[j].event_id
        != note.event_id by {
        assert(after[j] == held[j]);
    }
    lemma_first_position(after, note.event_id, held.len() as int);
    assert(after.remove(held.len() as int) =~= held);
}

/// Where the ids are distinct, a released id is held no longer, and every
/// other note is held exactly as before.
pub proof fn release_takes_its_own_note_only(held: Seq<HeldNote>, event_id: u64, other: u64)
    requires
        forall|i: int, j: int|
            0 <= i < j < held.len() ==> #[trigger] held[i].event_id != #[trigger] held[j].event_id,
    ensures
        !holds(released(held, event_id), event_id),
        other != event_id ==> holds(released(held, event_id), other) == holds(held, other),
{
    if holds(held, event_id) {
        position_is_the_oldest_under_its_id(held, event_id);
        let at = position_of(held, event_id);
        let after = held.remove(at);
        assert(forall|j: int| 0 <= j < at ==> after[j] == held[j]);
        assert(forall|j: int| at <= j < after.len() ==> after[j] == held[j + 1]);
        if other != event_id && holds(held, other) {
            let k = choose|i: int| 0 <= i < held.len() && #[trigger] held[i].event_id == other;
            if k < at {
                assert(after[k].event_id == other);
            } else {
                assert(after[k - 1].event_id == other);
            }
        }
    }
}

} // verus!
