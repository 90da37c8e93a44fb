use mooloop_dsp::bus::{scrub_non_finite, StereoBus};
use mooloop_dsp::event::{Event, EventList, TimedEvent};
use mooloop_dsp::num::Sample;
use mooloop_dsp::split::{
    process_curve_split, process_param_split, ControlCurve, CurveFrame, RangeProcessor,
    MAX_NODE_CURVE_DESTINATIONS,
};

#[derive(Clone, Copy, Debug, PartialEq, PartialOrd)]
struct F(f32);

impl Sample for F {
    fn add(self, other: Self) -> Self {
        F(self.0 + other.0)
    }
    fn sub(self, other: Self) -> Self {
        F(self.0 - other.0)
    }
    fn mul(self, other: Self) -> Self {
        F(self.0 * other.0)
    }
    fn div(self, other: Self) -> Self {
        F(self.0 / other.0)
    }
    fn neg(self) -> Self {
        F(-self.0)
    }
    fn abs(self) -> Self {
        F(self.0.abs())
    }
    fn of(count: usize) -> Self {
        F(count as f32)
    }
    fn whole(self) -> usize {
        self.0 as usize
    }
    fn round(self) -> Self {
        F(self.0.round())
    }
    fn ceil(self) -> Self {
        F(self.0.ceil())
    }
    fn lt(self, other: Self) -> bool {
        self.0 < other.0
    }
    fn le(self, other: Self) -> bool {
        self.0 <= other.0
    }
    fn equals(self, other: Self) -> bool {
        self.0 == other.0
    }
    fn same(self, other: Self) -> bool {
        self.0.to_bits() == other.0.to_bits()
    }
    fn is_finite(self) -> bool {
        self.0.is_finite()
    }
}

const BLOCK: usize = 512;

type Events = EventList<F, ()>;

/// Records what a split asked of it, in order, so the splitting itself can be
/// checked without a real effect's audio in the way.
#[derive(Default)]
struct Recorder {
    ranges: Vec<(usize, usize)>,
    params: Vec<(u32, f32, usize)>,
}

impl RangeProcessor<F> for Recorder {
    fn process_range(&mut self, _bus: &mut StereoBus<F>, start: usize, end: usize) {
        self.ranges.push((start, end));
    }

    fn apply_param(&mut self, id: u32, value: F) {
        // Where in the block this value landed, as the ranges so far say.
        let at = self.ranges.last().map_or(0, |(_, end)| *end);
        self.params.push((id, value.0, at));
    }
}

fn split(events: &Events, frames: usize) -> Recorder {
    let mut bus = StereoBus::with_capacity(frames.max(1));
    let mut recorder = Recorder::default();
    process_param_split(&mut recorder, &mut bus, events, frames);
    recorder
}

fn events(offsets_and_ids: &[(u32, u32)]) -> Events {
    let mut list = EventList::empty();
    for (offset, id) in offsets_and_ids {
        list.push(TimedEvent {
            offset: *offset,
            event: Event::ParamValue { id: *id, value: F(*id as f32) },
        });
    }
    list
}

#[test]
fn an_empty_event_list_renders_the_block_in_one_call() {
    let recorder = split(&EventList::empty(), 64);
    assert_eq!(recorder.ranges, vec![(0, 64)]);
    assert!(recorder.params.is_empty());
}

#[test]
fn a_value_lands_on_the_sample_it_was_timed_for() {
    let recorder = split(&events(&[(16, 7)]), 64);
    assert_eq!(recorder.ranges, vec![(0, 16), (16, 64)]);
    assert_eq!(recorder.params, vec![(7, 7.0, 16)]);
}

#[test]
fn an_event_past_the_block_end_applies_after_all_of_it() {
    let recorder = split(&events(&[(999, 3)]), 64);
    assert_eq!(recorder.ranges, vec![(0, 64), (64, 64)]);
    assert_eq!(recorder.params, vec![(3, 3.0, 64)]);
}

#[test]
fn an_out_of_order_event_does_not_rewind_the_render_head() {
    let recorder = split(&events(&[(40, 1), (8, 2)]), 64);
    assert_eq!(recorder.ranges, vec![(0, 40), (40, 40), (40, 64)]);
    for (start, end) in &recorder.ranges {
        assert!(start <= end, "range {start}..{end} runs backwards");
    }
}

#[test]
fn an_event_that_is_no_parameter_still_cuts_the_block() {
    let mut list = Events::empty();
    list.push(TimedEvent { offset: 10, event: Event::Choke });
    let recorder = split(&list, 64);
    assert_eq!(recorder.ranges, vec![(0, 10), (10, 64)]);
    assert!(recorder.params.is_empty());
}

/// The most control ticks a block may hold.
const MAX_TICKS: usize = 256;

fn curve_frame(rows: &[(u32, &[f32])]) -> CurveFrame<F> {
    let mut frame = CurveFrame::empty(MAX_TICKS);
    let values: Vec<Vec<F>> = rows
        .iter()
        .map(|(_, values)| values.iter().map(|&x| F(x)).collect())
        .collect();
    let curves: Vec<ControlCurve<'_, F>> = rows
        .iter()
        .zip(&values)
        .map(|(&(id, _), values)| ControlCurve { id, values })
        .collect();
    frame.capture(&curves);
    frame
}

#[test]
fn a_curve_lands_its_value_on_every_tick_boundary() {
    let values = [1.0, 2.0, 3.0];
    let frame = curve_frame(&[(9, &values)]);
    let mut bus = StereoBus::with_capacity(96);
    let mut recorder = Recorder::default();
    process_curve_split(&mut recorder, &mut bus, &Events::empty(), &frame, 32, 96);
    assert_eq!(recorder.ranges, vec![(0, 32), (32, 64), (64, 96)]);
    assert_eq!(recorder.params, vec![(9, 1.0, 0), (9, 2.0, 32), (9, 3.0, 64)]);
}

#[test]
fn two_curves_at_the_same_tick_share_one_range_split() {
    let a = [10.0, 11.0];
    let b = [20.0, 21.0];
    let frame = curve_frame(&[(1, &a), (2, &b)]);
    let mut bus = StereoBus::with_capacity(64);
    let mut recorder = Recorder::default();
    process_curve_split(&mut recorder, &mut bus, &Events::empty(), &frame, 32, 64);
    assert_eq!(recorder.ranges, vec![(0, 32), (32, 64)]);
    assert_eq!(
        recorder.params,
        vec![(1, 10.0, 0), (2, 20.0, 0), (1, 11.0, 32), (2, 21.0, 32)]
    );
}

#[test]
fn a_queued_once_off_event_is_applied_before_the_first_curve_tick() {
    let values = [5.0];
    let frame = curve_frame(&[(3, &values)]);
    let mut once = Events::empty();
    once.push(TimedEvent { offset: 0, event: Event::ParamValue { id: 4, value: F(9.0) } });
    let mut bus = StereoBus::with_capacity(32);
    let mut recorder = Recorder::default();
    process_curve_split(&mut recorder, &mut bus, &once, &frame, 32, 32);
    assert_eq!(recorder.params, vec![(4, 9.0, 0), (3, 5.0, 0)]);
}

#[test]
fn an_empty_curve_frame_renders_the_block_in_one_call() {
    let frame = CurveFrame::empty(MAX_TICKS);
    let mut bus = StereoBus::with_capacity(64);
    let mut recorder = Recorder::default();
    process_curve_split(&mut recorder, &mut bus, &Events::empty(), &frame, 32, 64);
    assert_eq!(recorder.ranges, vec![(0, 64)]);
    assert!(recorder.params.is_empty());
}

#[test]
fn many_simultaneous_curve_destinations_do_not_drop_where_the_shared_event_list_would() {
    const DESTINATIONS: usize = 4;
    let ticks = MAX_TICKS;
    let frames = ticks * 32;

    let mut shared = Events::empty();
    let mut accepted = 0usize;
    for destination in 0..DESTINATIONS {
        for tick in 0..ticks {
            let accepted_this_one = shared.push_ordered(TimedEvent {
                offset: (tick * 32) as u32,
                event: Event::ParamValue { id: destination as u32, value: F(tick as f32) },
            });
            accepted += accepted_this_one as usize;
        }
    }
    assert!(
        accepted > 0 && accepted < DESTINATIONS * ticks,
        "expected the shared event list to accept some ticks and then start refusing the rest \
         (accepted {accepted} of {})",
        DESTINATIONS * ticks
    );

    let series: Vec<Vec<f32>> = (0..DESTINATIONS)
        .map(|_| (0..ticks).map(|tick| tick as f32).collect())
        .collect();
    let rows: Vec<(u32, &[f32])> = series
        .iter()
        .enumerate()
        .map(|(destination, values)| (destination as u32, values.as_slice()))
        .collect();
    let frame = curve_frame(&rows);
    let mut bus = StereoBus::with_capacity(frames);
    let mut recorder = Recorder::default();
    process_curve_split(&mut recorder, &mut bus, &Events::empty(), &frame, 32, frames);
    assert_eq!(
        recorder.params.len(),
        DESTINATIONS * ticks,
        "every destination's every tick should have reached apply_param"
    );
    // Application order is tick-major.
    for tick in 0..ticks {
        for destination in 0..DESTINATIONS {
            assert_eq!(
                recorder.params[tick * DESTINATIONS + destination],
                (destination as u32, tick as f32, tick * 32)
            );
        }
    }
}

#[test]
fn a_curve_frame_keeps_what_it_has_room_for() {
    let long = [1.0; MAX_TICKS + 3];
    let rows: Vec<(u32, &[f32])> =
        (0..MAX_NODE_CURVE_DESTINATIONS as u32 + 2).map(|id| (id, &long[..])).collect();
    let mut frame = curve_frame(&rows);
    assert_eq!(frame.len(), MAX_NODE_CURVE_DESTINATIONS);
    assert_eq!(frame.curve(4).id, 4);
    assert_eq!(frame.curve(4).values.len(), MAX_TICKS);
    frame.clear();
    assert!(frame.is_empty());
}

#[test]
fn scrubbing_a_finite_block_changes_nothing() {
    let mut bus = StereoBus::with_capacity(BLOCK);
    for index in 0..BLOCK {
        bus.l[index] = F((index as f32 * 0.37).sin() * 0.9);
        bus.r[index] = F(-bus.l[index].0);
    }
    let (left, right) = (bus.l[..BLOCK].to_vec(), bus.r[..BLOCK].to_vec());
    assert!(!scrub_non_finite(&mut bus, BLOCK));
    assert_eq!(bus.l[..BLOCK], left[..]);
    assert_eq!(bus.r[..BLOCK], right[..]);
    bus.l[7] = F(f32::NAN);
    bus.r[9] = F(f32::NEG_INFINITY);
    assert!(scrub_non_finite(&mut bus, BLOCK));
    assert_eq!((bus.l[7], bus.r[9]), (F(0.0), F(0.0)));
    assert_eq!(bus.l[8], left[8]);
}
