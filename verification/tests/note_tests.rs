use mooloop_dsp::event::{event_sort_key, Event, EventList, TimedEvent, MAX_EVENTS};
use mooloop_dsp::heldnotes::{HeldNote, HeldNotes, NotePriority, MAX_HELD_NOTES};

type List = EventList<i32, ()>;

fn held(event_id: u64, note: u8) -> HeldNote {
    HeldNote { event_id, note, velocity: 100 }
}

fn stack(notes: &[(u64, u8)]) -> HeldNotes {
    let mut stack = HeldNotes::new();
    for (event_id, note) in notes {
        stack.push(held(*event_id, *note));
    }
    stack
}

#[test]
fn each_priority_picks_its_documented_winner() {
    let stack = stack(&[(1, 60), (2, 48), (3, 72)]);
    assert_eq!(stack.winner(NotePriority::Last).unwrap().note, 72);
    assert_eq!(stack.winner(NotePriority::Low).unwrap().note, 48);
    assert_eq!(stack.winner(NotePriority::High).unwrap().note, 72);
}

#[test]
fn ties_go_to_the_most_recent_press() {
    let stack = stack(&[(1, 60), (2, 60)]);
    assert_eq!(stack.winner(NotePriority::Low).unwrap().event_id, 2);
    assert_eq!(stack.winner(NotePriority::High).unwrap().event_id, 2);
}

#[test]
fn releasing_the_winner_falls_back_to_the_next_held_note() {
    let mut stack = stack(&[(1, 60), (2, 48), (3, 72)]);
    assert!(stack.remove(3));
    assert_eq!(stack.winner(NotePriority::Last).unwrap().note, 48);
    assert_eq!(stack.winner(NotePriority::High).unwrap().note, 60);
}

#[test]
fn releasing_a_non_winner_leaves_the_winner_alone() {
    let mut stack = stack(&[(1, 60), (2, 48)]);
    assert!(stack.remove(1));
    assert_eq!(stack.winner(NotePriority::Last).unwrap().event_id, 2);
}

#[test]
fn a_stale_note_off_does_not_evict_a_re_pressed_pitch() {
    let mut stack = stack(&[(1, 60)]);
    assert!(stack.remove(1));
    stack.push(held(2, 60));
    assert!(!stack.remove(1));
    assert_eq!(stack.len(), 1);
    assert_eq!(stack.winner(NotePriority::Last).unwrap().event_id, 2);
}

#[test]
fn overflow_drops_the_oldest_note_not_the_newest() {
    let mut stack = HeldNotes::new();
    for index in 0..MAX_HELD_NOTES as u64 + 2 {
        stack.push(held(index, 60 + index as u8));
    }
    assert_eq!(stack.len(), MAX_HELD_NOTES);
    assert_eq!(
        stack.winner(NotePriority::Last).unwrap().event_id,
        MAX_HELD_NOTES as u64 + 1
    );
    // The two oldest are gone; the third-oldest survived.
    assert!(!stack.remove(0));
    assert!(!stack.remove(1));
    assert!(stack.remove(2));
}

#[test]
fn an_empty_stack_has_no_winner() {
    let mut stack = stack(&[(1, 60)]);
    stack.clear();
    assert!(stack.is_empty());
    assert!(stack.winner(NotePriority::Last).is_none());
}

#[test]
fn a_press_moves_its_own_id_to_the_top() {
    let mut stack = stack(&[(1, 60), (2, 48)]);
    stack.push(held(1, 61));
    assert_eq!(stack.winner(NotePriority::Last).unwrap(), held(1, 61));
}

#[test]
fn push_and_iterate_in_order() {
    let mut list = List::empty();
    for i in 0..3u32 {
        assert!(list.push(TimedEvent {
            offset: i * 10,
            event: Event::NoteOn { id: u64::from(i), note: 60 + i as u8, velocity: 100 },
        }));
    }
    let offsets: Vec<u32> = list.iter().map(|e| e.offset).collect();
    assert_eq!(offsets, [0, 10, 20]);
    assert_eq!(list.len(), 3);
    list.clear();
    assert!(list.is_empty());
}

#[test]
fn overflow_drops_without_panicking() {
    let mut list = List::empty();
    for _ in 0..MAX_EVENTS {
        assert!(list.push(TimedEvent { offset: 0, event: Event::NoteOff { id: 0, note: 0 } }));
    }
    assert!(!list.push(TimedEvent { offset: 0, event: Event::NoteOff { id: 0, note: 0 } }));
    assert_eq!(list.len(), MAX_EVENTS);
}

#[test]
fn ordered_insert_puts_note_off_before_retrigger() {
    let mut list = List::empty();
    assert!(list.push_ordered(TimedEvent {
        offset: 12,
        event: Event::NoteOn { id: 2, note: 60, velocity: 100 },
    }));
    assert!(list.push_ordered(TimedEvent {
        offset: 12,
        event: Event::NoteOff { id: 1, note: 60 },
    }));
    assert!(matches!(list.iter().next().unwrap().event, Event::NoteOff { id: 1, .. }));
}

#[test]
fn parameter_changes_precede_note_ons_at_one_offset() {
    for note_first in [true, false] {
        let mut list = EventList::<f32, ()>::empty();
        let note = TimedEvent {
            offset: 64,
            event: Event::NoteOn { id: 1, note: 60, velocity: 100 },
        };
        let param = TimedEvent { offset: 64, event: Event::ParamValue { id: 7, value: 0.5 } };
        if note_first {
            assert!(list.push_ordered(note));
            assert!(list.push_ordered(param));
        } else {
            assert!(list.push_ordered(param));
            assert!(list.push_ordered(note));
        }
        let kinds: Vec<u8> = list.iter().map(event_sort_key).map(|key| key.1).collect();
        assert_eq!(kinds, vec![1, 2], "note-on preceded the parameter it needs");
    }
}

#[test]
fn equal_keys_keep_the_order_they_came_in() {
    let mut list = List::empty();
    for id in [5, 3, 9] {
        list.push_ordered(TimedEvent { offset: 4, event: Event::ParamValue { id, value: 0 } });
    }
    list.push_ordered(TimedEvent { offset: 3, event: Event::Choke });
    let ids: Vec<u32> = list
        .iter()
        .map(|e| match e.event {
            Event::ParamValue { id, .. } => id,
            _ => 0,
        })
        .collect();
    assert_eq!(ids, [0, 5, 3, 9]);
    assert_eq!(list.get(3).offset, 4);
}
