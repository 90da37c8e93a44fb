//! Stereo delay with a damped, cross-feedable feedback path and three ways of
//! responding to a moving delay time.

use vstd::prelude::*;

use crate::bus::{
    a_scrubbed_block_is_finite, all_finite, fitting, scrub_non_finite, scrubbed, StereoBus,
};
use crate::curves::{tau, tau_of, Curves};
use crate::delayline::{
    a_whole_offset_reads_its_sample, blank, furthest, head_after, head_jumped, head_reads, tape_at,
    taped, DelayLine, ReadHead, Tape, MIN_LINE_FRAMES, MIN_READ_OFFSET,
};
use crate::event::EventList;
use crate::filter::{leaked, OnePoleLp};
use crate::fold::{
    after_frames, left_of, lemma_frame_rendered, lemma_nothing_rendered, right_of,
};
use crate::node::{
    a_tail_covers_its_trips, fallen, feedback_tail_frames, feedback_tail_of,
    the_trips_of_a_tail_are_enough, trips_of, Discontinuity, ProcessContext,
};
use crate::num::{
    a_blend_stays_within, a_gain_scales_a_bound, a_product_is_exact_to_a_count,
    a_ratio_is_exact_to_a_count, a_share_is_a_gain, a_share_is_exact_to_a_count, clamp, clamp_of,
    clamp_param_of, held, is_gain, magnitude, max, max_of, one_times, products_keep_order, ratio,
    ratio_of, within, Fixed, Sample, FRACTION,
};
use crate::ring::{a_lag_nears_its_input, excess_left, newest_within};
use crate::smooth::{
    a_settled_lag_stays, at_least_one, glide_coeff_of, settled, smoothed_next, Smoothed,
};
use crate::split::{carried_out, param_plan, process_param_split, Desk, RangeProcessor};

verus! {

/// Crossfade applied when the head jumps: a digital time change, or a reverse
/// window wrapping.
pub const FADE_FRAMES: u32 = 256;

pub const DELAY_PARAM_TIME_MS: u32 = 0;

pub const DELAY_PARAM_FEEDBACK: u32 = 1;

pub const DELAY_PARAM_MODE: u32 = 2;

pub const DELAY_PARAM_CROSS: u32 = 3;

pub const DELAY_PARAM_TONE: u32 = 4;

pub const DELAY_PARAM_MIX: u32 = 5;

/// What a moving delay time does to the repeats.
#[derive(Clone, Copy, Debug, PartialEq, Eq, Structural)]
pub enum DelayMode {
    /// Jumps to the new time.
    Digital,
    /// Glides to the new time, repitching on the way.
    Tape,
    /// Reads windows of one delay time backwards.
    Reverse,
}

impl DelayMode {
    pub open spec fn at(index: nat) -> Self {
        if index == 0 {
            DelayMode::Digital
        } else if index == 1 {
            DelayMode::Tape
        } else {
            DelayMode::Reverse
        }
    }

    /// The mode at an index, the last one for what is past it.
    pub fn from_index(index: usize) -> (mode: Self)
        ensures
            mode == Self::at(index as nat),
    {
        match index {
            0 => DelayMode::Digital,
            1 => DelayMode::Tape,
            _ => DelayMode::Reverse,
        }
    }
}

/// A length of time counted in beats, as a fraction of one.
#[derive(Clone, Copy, Debug, PartialEq, Eq, Structural)]
pub struct DelayTimeDivision {
    pub beats: u32,
    pub of: u32,
}

/// How long a division lasts at a tempo.
pub open spec fn division_ms<S: Sample>(division: DelayTimeDivision, bpm: S) -> S {
    ratio_of::<S>(division.beats as nat, division.of as nat).times(
        S::of_spec(60_000).over(bpm),
    )
}

impl DelayTimeDivision {
    pub fn quarter() -> (division: Self)
        ensures
            division == (DelayTimeDivision { beats: 1, of: 1 }),
    {
        DelayTimeDivision { beats: 1, of: 1 }
    }

    pub fn dotted_eighth() -> (division: Self)
        ensures
            division == (DelayTimeDivision { beats: 3, of: 4 }),
    {
        DelayTimeDivision { beats: 3, of: 4 }
    }

    pub fn eighth_triplet() -> (division: Self)
        ensures
            division == (DelayTimeDivision { beats: 1, of: 3 }),
    {
        DelayTimeDivision { beats: 1, of: 3 }
    }

    pub fn time_ms<S: Sample>(self, bpm: S) -> (ms: S)
        ensures
            ms == division_ms(self, bpm),
    {
        ratio::<S>(self.beats as usize, self.of as usize).mul(S::of(60_000).div(bpm))
    }
}

/// The controls of the delay.
#[derive(Clone, Copy, Debug)]
pub struct DelayParams<S> {
    pub time_ms: S,
    /// Whether the time follows the transport, and the division it follows
    /// it by.
    pub tempo_sync: bool,
    pub time_division: DelayTimeDivision,
    pub feedback: S,
    pub mode: DelayMode,
    pub cross: S,
    pub tone: S,
    pub mix: S,
}

/// The delay.
pub struct DelayEffect<S> {
    pub params: DelayParams<S>,
    pub sample_rate: u32,
    /// The longest time the delay can be set to.
    pub max_time_ms: S,
    pub line: DelayLine<S>,
    pub head: ReadHead<S>,
    /// Delay time in frames, as last resolved from the time control.
    pub target_offset: S,
    /// One-pole low-pass on the feedback path, per channel.
    pub damp_l: OnePoleLp<S>,
    pub damp_r: OnePoleLp<S>,
    pub feedback: Smoothed<S>,
    pub damp_coeff: Smoothed<S>,
    pub mix: Smoothed<S>,
}

/// What the delay is.
pub struct Delaying<S> {
    pub params: DelayParams<S>,
    pub sample_rate: u32,
    pub max_time_ms: S,
    pub line: Tape<S>,
    pub head: ReadHead<S>,
    pub target_offset: S,
    pub damp_l: OnePoleLp<S>,
    pub damp_r: OnePoleLp<S>,
    pub feedback: Smoothed<S>,
    pub damp_coeff: Smoothed<S>,
    pub mix: Smoothed<S>,
}

impl<S> View for DelayEffect<S> {
    type V = Delaying<S>;

    open spec fn view(&self) -> Delaying<S> {
        Delaying {
            params: self.params,
            sample_rate: self.sample_rate,
            max_time_ms: self.max_time_ms,
            line: self.line@,
            head: self.head,
            target_offset: self.target_offset,
            damp_l: self.damp_l,
            damp_r: self.damp_r,
            feedback: self.feedback,
            damp_coeff: self.damp_coeff,
            mix: self.mix,
        }
    }
}

/// The frames the line needs for a longest time, and the interpolator's margin.
pub open spec fn ring_frames_of<S: Sample>(max_time_ms: S, sample_rate: u32) -> int {
    let frames = max_time_ms.over(S::of_spec(1000)).times(
        S::of_spec(sample_rate as nat),
    ).whole_spec() as int;
    if frames + 8 > usize::MAX {
        usize::MAX as int
    } else {
        frames + 8
    }
}

pub fn ring_frames<S: Sample>(max_time_ms: S, sample_rate: u32) -> (frames: usize)
    ensures
        frames == ring_frames_of(max_time_ms, sample_rate),
{
    let frames: usize = max_time_ms.div(S::of(1000)).mul(S::of(sample_rate as usize)).whole();
    frames.saturating_add(8)
}

/// The feedback damping's coefficient: swept exponentially from 200 Hz to 20
/// kHz, so that the knob's lower half does something useful.
pub open spec fn tone_coeff_of<S: Curves>(tone: S, sample_rate: u32) -> S {
    let rate = S::of_spec(if sample_rate < 1 { 1 } else { sample_rate as nat });
    let hz = S::of_spec(200).times(
        S::of_spec(20_000).over(S::of_spec(200)).powf_spec(
            clamp_of(tone, S::of_spec(0), S::of_spec(1)),
        ),
    );
    clamp_of(
        S::of_spec(1).minus(tau_of::<S>().negated().times(hz).over(rate).exp_spec()),
        S::of_spec(0),
        S::of_spec(1),
    )
}

pub fn tone_coeff<S: Curves>(tone: S, sample_rate: u32) -> (coeff: S)
    ensures
        coeff == tone_coeff_of(tone, sample_rate),
{
    let rate = S::of(at_least_one(sample_rate) as usize);
    let hz = S::of(200).mul(
        S::of(20_000).div(S::of(200)).powf(clamp(tone, S::of(0), S::of(1))),
    );
    clamp(
        S::of(1).sub(tau::<S>().neg().mul(hz).div(rate).exp()),
        S::of(0),
        S::of(1),
    )
}

pub open spec fn delay_feedback<S: Sample>(value: S) -> S {
    clamp_of(value, S::of_spec(0), ratio_of(98, 100))
}

pub open spec fn delay_unit<S: Sample>(value: S) -> S {
    clamp_of(value, S::of_spec(0), S::of_spec(1))
}

/// The time constant of feedback and mix: five milliseconds.
pub open spec fn gain_time<S: Sample>() -> S {
    ratio_of(5, 1000)
}

/// The time constant of the damping coefficient: ten milliseconds.
pub open spec fn damp_time<S: Sample>() -> S {
    ratio_of(1, 100)
}

/// Delay time in frames, clamped to what the line can serve.
pub open spec fn offset_of<S: Sample>(time_ms: S, sample_rate: u32, frames: nat) -> S {
    clamp_of(
        max_of(time_ms, S::of_spec(0)).over(S::of_spec(1000)).times(
            S::of_spec(sample_rate as nat),
        ),
        S::of_spec(MIN_READ_OFFSET as nat),
        furthest(frames),
    )
}

/// A head at rest on an offset.
pub open spec fn head_on<S>(offset: S) -> ReadHead<S> {
    ReadHead { offset, from: offset, fade_left: 0, fade_len: 0 }
}

/// The window the reverse mode reads: one delay time, and no shorter than two
/// crossfades.
pub open spec fn reverse_window<S: Sample>(target_offset: S) -> S {
    max_of(target_offset, S::of_spec(FADE_FRAMES as nat).times(S::of_spec(2)))
}

/// The head with any jump its mode wants made, and how far it drifts against
/// the advancing line this frame: nothing holds the delay time, two reads
/// backwards at unity rate.
pub open spec fn head_stepped<S: Sample>(
    mode: DelayMode,
    head: ReadHead<S>,
    target_offset: S,
) -> (ReadHead<S>, S) {
    match mode {
        DelayMode::Digital => (
            if S::of_spec(1).below(head.offset.minus(target_offset).abs_spec()) {
                head_jumped(head, target_offset, FADE_FRAMES)
            } else {
                head
            },
            S::of_spec(0),
        ),
        DelayMode::Tape => (
            head,
            clamp_of(
                target_offset.minus(head.offset),
                ratio_of::<S>(5, 100).negated(),
                ratio_of(5, 100),
            ),
        ),
        DelayMode::Reverse => {
            let nearest = S::of_spec(MIN_READ_OFFSET as nat);
            (
                if nearest.plus(reverse_window(target_offset)).at_most(head.offset) {
                    head_jumped(head, nearest, FADE_FRAMES)
                } else {
                    head
                },
                S::of_spec(2),
            )
        },
    }
}

/// What one channel feeds back of itself and of the other.
pub open spec fn crossed<S: Sample>(own: S, other: S, cross: S) -> S {
    own.times(S::of_spec(1).minus(cross)).plus(other.times(cross))
}

/// A dry sample with some of the wet in its place.
pub open spec fn blended<S: Sample>(dry: S, wet: S, mix: S) -> S {
    dry.plus(wet.minus(dry).times(mix))
}

/// One frame: the delay after it, and what it puts out. The damping sits
/// inside the feedback loop, so each repeat is darker than the last.
pub open spec fn delay_frame<S: Sample>(d: Delaying<S>, l: S, r: S) -> (Delaying<S>, (S, S)) {
    let feedback = smoothed_next(d.feedback);
    let damp_coeff = smoothed_next(d.damp_coeff);
    let mix = smoothed_next(d.mix);
    let (head, drift) = head_stepped(d.params.mode, d.head, d.target_offset);
    let (wet_l, wet_r) = head_reads(head, d.line);
    let coeff = clamp_param_of(damp_coeff.value, S::of_spec(0), S::of_spec(1));
    let damped_l = leaked(d.damp_l.state, wet_l, coeff);
    let damped_r = leaked(d.damp_r.state, wet_r, coeff);
    let cross = d.params.cross;
    (
        Delaying {
            feedback,
            damp_coeff,
            mix,
            head: head_after(head, drift),
            line: taped(
                d.line,
                l.plus(crossed(damped_l, damped_r, cross).times(feedback.value)),
                r.plus(crossed(damped_r, damped_l, cross).times(feedback.value)),
            ),
            damp_l: OnePoleLp { state: damped_l, coeff },
            damp_r: OnePoleLp { state: damped_r, coeff },
            ..d
        },
        (blended(l, wet_l, mix.value), blended(r, wet_r, mix.value)),
    )
}

/// The delay as a step.
pub open spec fn delay_step<S: Sample>() -> spec_fn(Delaying<S>, S, S) -> Delaying<S> {
    |d: Delaying<S>, l: S, r: S| delay_frame(d, l, r).0
}

/// What the delay puts out at a step.
pub open spec fn delay_heard<S: Sample>() -> spec_fn(Delaying<S>, S, S) -> (S, S) {
    |d: Delaying<S>, l: S, r: S| delay_frame(d, l, r).1
}

/// The delay after a parameter was taken.
pub open spec fn delay_taking<S: Curves>(d: Delaying<S>, id: u32, value: S) -> Delaying<S> {
    let params = d.params;
    if id == DELAY_PARAM_TIME_MS {
        let time_ms = clamp_of(value, S::of_spec(0), d.max_time_ms);
        Delaying {
            params: DelayParams { time_ms, ..params },
            target_offset: offset_of(time_ms, d.sample_rate, d.line.l.len()),
            ..d
        }
    } else if id == DELAY_PARAM_FEEDBACK {
        let feedback = delay_feedback(value);
        Delaying {
            params: DelayParams { feedback, ..params },
            feedback: Smoothed { target: feedback, ..d.feedback },
            ..d
        }
    } else if id == DELAY_PARAM_MODE {
        let mode = DelayMode::at(value.round_spec().whole_spec());
        Delaying { params: DelayParams { mode, ..params }, ..d }
    } else if id == DELAY_PARAM_CROSS {
        Delaying { params: DelayParams { cross: delay_unit(value), ..params }, ..d }
    } else if id == DELAY_PARAM_TONE {
        let tone = delay_unit(value);
        Delaying {
            params: DelayParams { tone, ..params },
            damp_coeff: Smoothed {
                target: tone_coeff_of(tone, d.sample_rate),
                ..d.damp_coeff
            },
            ..d
        }
    } else if id == DELAY_PARAM_MIX {
        let mix = delay_unit(value);
        Delaying {
            params: DelayParams { mix, ..params },
            mix: Smoothed { target: mix, ..d.mix },
            ..d
        }
    } else {
        d
    }
}

/// The delay fitted to another rate. The line cannot be reallocated on the
/// audio thread, so only the time is resolved again.
pub open spec fn delay_refitted<S: Curves>(d: Delaying<S>, sample_rate: u32) -> Delaying<S> {
    if sample_rate == d.sample_rate {
        d
    } else {
        Delaying {
            sample_rate,
            target_offset: offset_of(d.params.time_ms, sample_rate, d.line.l.len()),
            feedback: Smoothed { coeff: glide_coeff_of(gain_time(), sample_rate), ..d.feedback },
            damp_coeff: Smoothed {
                coeff: glide_coeff_of(damp_time(), sample_rate),
                ..d.damp_coeff
            },
            mix: Smoothed { coeff: glide_coeff_of(gain_time(), sample_rate), ..d.mix },
            ..d
        }
    }
}

/// The delay with its repeats forgotten.
pub open spec fn delay_cleared<S: Sample>(d: Delaying<S>) -> Delaying<S> {
    Delaying {
        line: blank(d.line.l.len()),
        damp_l: OnePoleLp { state: S::of_spec(0), coeff: d.damp_l.coeff },
        damp_r: OnePoleLp { state: S::of_spec(0), coeff: d.damp_r.coeff },
        ..d
    }
}

/// The delay after the host skipped one frame.
pub open spec fn delay_skipped_once<S: Sample>(d: Delaying<S>) -> Delaying<S> {
    let (head, drift) = head_stepped(d.params.mode, d.head, d.target_offset);
    Delaying {
        head: head_after(head, drift),
        line: taped(d.line, S::of_spec(0), S::of_spec(0)),
        ..d
    }
}

/// The delay after the host skipped a number of frames.
pub open spec fn delay_skipped<S: Sample>(d: Delaying<S>, frames: nat) -> Delaying<S>
    decreases frames,
{
    if frames == 0 {
        d
    } else {
        delay_skipped_once(delay_skipped(d, (frames - 1) as nat))
    }
}

/// How long the delay goes on sounding: the feedback's decay over the longest
/// trip a head in this mode makes. A knob still travelling keeps it awake.
pub open spec fn delay_tail<S: Curves>(d: Delaying<S>) -> u32 {
    if !settled(d.feedback) || !settled(d.damp_coeff) || !settled(d.mix) {
        u32::MAX
    } else {
        let fade = S::of_spec(FADE_FRAMES as nat);
        feedback_tail_of(
            max_of(d.feedback.value, d.params.feedback),
            max_of(reverse_window(d.target_offset), d.head.offset).plus(fade),
        )
    }
}

/// The delay as it is made.
pub open spec fn delay_new<S: Curves>(
    params: DelayParams<S>,
    sample_rate: u32,
    max_time_ms: S,
) -> Delaying<S> {
    let wanted = ring_frames_of(max_time_ms, sample_rate);
    let frames = if wanted < MIN_LINE_FRAMES {
        MIN_LINE_FRAMES as nat
    } else {
        wanted as nat
    };
    let zero = S::of_spec(0);
    let feedback = delay_feedback(params.feedback);
    let damp = tone_coeff_of(params.tone, sample_rate);
    let mix = delay_unit(params.mix);
    let offset = offset_of(params.time_ms, sample_rate, frames);
    Delaying {
        params,
        sample_rate,
        max_time_ms,
        line: blank(frames),
        head: head_on(offset),
        target_offset: offset,
        damp_l: OnePoleLp { state: zero, coeff: zero },
        damp_r: OnePoleLp { state: zero, coeff: zero },
        feedback: Smoothed {
            value: feedback,
            target: feedback,
            coeff: glide_coeff_of(gain_time(), sample_rate),
        },
        damp_coeff: Smoothed {
            value: damp,
            target: damp,
            coeff: glide_coeff_of(damp_time(), sample_rate),
        },
        mix: Smoothed { value: mix, target: mix, coeff: glide_coeff_of(gain_time(), sample_rate) },
    }
}

impl<S: Curves> DelayEffect<S> {
    pub open spec fn well_formed(&self) -> bool {
        self.line.well_formed()
    }

    /// Allocates a line for times of up to `max_time_ms`.
    pub fn new(params: DelayParams<S>, sample_rate: u32, max_time_ms: S) -> (effect: Self)
        ensures
            effect.well_formed(),
            effect@ == delay_new(params, sample_rate, max_time_ms),
    {
        let line = DelayLine::with_capacity_frames(ring_frames(max_time_ms, sample_rate));
        let nearest: S = S::of(MIN_READ_OFFSET);
        let mut effect = DelayEffect {
            params,
            sample_rate,
            max_time_ms,
            line,
            head: ReadHead::new(nearest),
            target_offset: nearest,
            damp_l: OnePoleLp::new(),
            damp_r: OnePoleLp::new(),
            feedback: Smoothed::new(
                clamp(params.feedback, S::of(0), ratio(98, 100)),
                ratio(5, 1000),
                sample_rate,
            ),
            damp_coeff: Smoothed::new(
                tone_coeff(params.tone, sample_rate),
                ratio(1, 100),
                sample_rate,
            ),
            mix: Smoothed::new(
                clamp(params.mix, S::of(0), S::of(1)),
                ratio(5, 1000),
                sample_rate,
            ),
        };
        effect.target_offset = effect.resolve_offset();
        effect.head = ReadHead::new(effect.target_offset);
        effect
    }

    pub fn params(&self) -> (params: DelayParams<S>)
        ensures
            params == self@.params,
    {
        self.params
    }

    /// Replace the parameter set wholesale: jump straight to the new values,
    /// there is nothing to click coming from a fresh load.
    pub fn set_params(&mut self, params: DelayParams<S>)
        requires
            old(self).well_formed(),
        ensures
            final(self).well_formed(),
            ({
                let before = old(self)@;
                let offset = offset_of(params.time_ms, before.sample_rate, before.line.l.len());
                let feedback = delay_feedback(params.feedback);
                let damp = tone_coeff_of(params.tone, before.sample_rate);
                let mix = delay_unit(params.mix);
                final(self)@ == Delaying {
                    params,
                    target_offset: offset,
                    head: head_on(offset),
                    feedback: Smoothed { value: feedback, target: feedback, ..before.feedback },
                    damp_coeff: Smoothed { value: damp, target: damp, ..before.damp_coeff },
                    mix: Smoothed { value: mix, target: mix, ..before.mix },
                    ..before
                }
            }),
    {
        self.params = params;
        self.target_offset = self.resolve_offset();
        self.head = ReadHead::new(self.target_offset);
        self.feedback.reset_to(clamp(params.feedback, S::of(0), ratio(98, 100)));
        self.damp_coeff.reset_to(tone_coeff(params.tone, self.sample_rate));
        self.mix.reset_to(clamp(params.mix, S::of(0), S::of(1)));
    }

    /// Delay time in frames, clamped to what the line can actually serve.
    fn resolve_offset(&self) -> (offset: S)
        requires
            self.well_formed(),
        ensures
            offset == offset_of(self@.params.time_ms, self@.sample_rate, self@.line.l.len()),
    {
        let frames = max(self.params.time_ms, S::of(0)).div(S::of(1000)).mul(
            S::of(self.sample_rate as usize),
        );
        clamp(frames, S::of(MIN_READ_OFFSET), self.line.max_read_offset())
    }

    /// Make any jump the mode wants; how far the head drifts this frame.
    fn step_head(&mut self) -> (drift: S)
        requires
            old(self).well_formed(),
        ensures
            final(self).well_formed(),
            (final(self).head, drift) == head_stepped(
                old(self).params.mode,
                old(self).head,
                old(self).target_offset,
            ),
            final(self)@ == (Delaying { head: final(self).head, ..old(self)@ }),
    {
        match self.params.mode {
            DelayMode::Digital => {
                // Sub-frame differences are not worth a crossfade; anything
                // larger is a real time change and would click.
                if S::of(1).lt(self.head.offset().sub(self.target_offset).abs()) {
                    self.head.jump_to(self.target_offset, FADE_FRAMES);
                }
                S::of(0)
            },
            DelayMode::Tape => {
                // Gliding the offset is the repitch: the effective read rate
                // is one less the drift.
                let most = ratio::<S>(5, 100);
                clamp(self.target_offset.sub(self.head.offset()), most.neg(), most)
            },
            DelayMode::Reverse => {
                let nearest = S::of(MIN_READ_OFFSET);
                let window = max(
                    self.target_offset,
                    S::of(FADE_FRAMES as usize).mul(S::of(2)),
                );
                if nearest.add(window).le(self.head.offset()) {
                    self.head.jump_to(nearest, FADE_FRAMES);
                }
                S::of(2)
            },
        }
    }

    /// One frame: read, damp, feed back and blend.
    fn process_frame(&mut self, dry_l: S, dry_r: S) -> (out: (S, S))
        requires
            old(self).well_formed(),
        ensures
            final(self).well_formed(),
            (final(self)@, out) == delay_frame(old(self)@, dry_l, dry_r),
    {
        let feedback = self.feedback.advance();
        let damp_coeff = self.damp_coeff.advance();
        let mix = self.mix.advance();
        let drift = self.step_head();
        let (wet_l, wet_r) = self.head.read(&self.line);
        self.damp_l.set_coeff(damp_coeff);
        self.damp_r.set_coeff(damp_coeff);
        let damped_l = self.damp_l.next_sample(wet_l);
        let damped_r = self.damp_r.next_sample(wet_r);
        let cross = self.params.cross;
        let own = S::of(1).sub(cross);
        let fed_l = damped_l.mul(own).add(damped_r.mul(cross));
        let fed_r = damped_r.mul(own).add(damped_l.mul(cross));
        self.line.write(dry_l.add(fed_l.mul(feedback)), dry_r.add(fed_r.mul(feedback)));
        self.head.advance(drift);
        (
            dry_l.add(wet_l.sub(dry_l).mul(mix)),
            dry_r.add(wet_r.sub(dry_r).mul(mix)),
        )
    }

    /// Empty the line and the damping.
    fn clear_tail(&mut self)
        requires
            old(self).well_formed(),
        ensures
            final(self).well_formed(),
            final(self)@ == delay_cleared(old(self)@),
    {
        self.line.clear();
        self.damp_l.reset();
        self.damp_r.reset();
    }

    /// A seek empties the line: its repeats are of a part of the song the
    /// transport has left. A loop fold and a program change do not.
    pub fn on_discontinuity(&mut self, kind: Discontinuity)
        requires
            old(self).well_formed(),
        ensures
            final(self).well_formed(),
            final(self)@ == (if kind.leaves() {
                delay_cleared(old(self)@)
            } else {
                old(self)@
            }),
    {
        if kind.invalidates_tails() {
            self.clear_tail();
        }
    }

    pub fn tail_frames(&self) -> (frames: u32)
        ensures
            frames == delay_tail(self@),
    {
        if !self.feedback.is_settled() || !self.damp_coeff.is_settled()
            || !self.mix.is_settled() {
            return u32::MAX;
        }
        let fade = S::of(FADE_FRAMES as usize);
        let window = max(self.target_offset, fade.mul(S::of(2)));
        let trip = max(window, self.head.offset()).add(fade);
        feedback_tail_frames(max(self.feedback.value(), self.params.feedback), trip)
    }

    /// Keep the line's time and the head's with the wall's, for a block the
    /// host skipped.
    pub fn skip_block(&mut self, ctx: &ProcessContext)
        requires
            old(self).well_formed(),
        ensures
            final(self).well_formed(),
            final(self)@ == delay_skipped(old(self)@, ctx.frames as nat),
    {
        let mut frame: usize = 0;
        while frame < ctx.frames
            invariant
                frame <= ctx.frames,
                self.well_formed(),
                self@ == delay_skipped(old(self)@, frame as nat),
            decreases ctx.frames - frame,
        {
            let drift = self.step_head();
            self.line.write(S::of(0), S::of(0));
            self.head.advance(drift);
            frame = frame + 1;
        }
    }

    /// Fit the time and the lags to another rate.
    fn refit(&mut self, sample_rate: u32)
        requires
            old(self).well_formed(),
        ensures
            final(self).well_formed(),
            final(self)@ == delay_refitted(old(self)@, sample_rate),
    {
        if sample_rate != self.sample_rate {
            self.sample_rate = sample_rate;
            self.target_offset = self.resolve_offset();
            self.feedback.set_time(ratio(5, 1000), sample_rate);
            self.damp_coeff.set_time(ratio(1, 100), sample_rate);
            self.mix.set_time(ratio(5, 1000), sample_rate);
        }
    }

    /// Render a block: fit a changed rate, render between the parameter
    /// events, and put silence in place of what is not finite; if anything was
    /// not, the repeats start clean.
    pub fn process<B: Copy>(
        &mut self,
        ctx: &ProcessContext,
        bus: &mut StereoBus<S>,
        events_in: &EventList<S, B>,
    )
        requires
            old(self).well_formed(),
            old(bus).well_formed(),
        ensures
            final(self).well_formed(),
            final(bus).well_formed(),
            S::of_spec(0).finite_spec() ==> all_finite(
                final(bus).l@,
                fitting(ctx.frames as int, old(bus).l@.len() as int),
            ) && all_finite(
                final(bus).r@,
                fitting(ctx.frames as int, old(bus).l@.len() as int),
            ),
            exists|fitted: Self, split: Desk<Self, S>|
                fitted@ == delay_refitted(old(self)@, ctx.sample_rate)
                    && #[trigger] carried_out(
                    Desk { node: fitted, l: old(bus).l@, r: old(bus).r@ },
                    param_plan(
                        events_in@,
                        fitting(ctx.frames as int, old(bus).l@.len() as int),
                    ),
                    split,
                ) && delay_scrubbed(
                    split,
                    fitting(ctx.frames as int, old(bus).l@.len() as int),
                    *final(self),
                    final(bus).l@,
                    final(bus).r@,
                ),
    {
        self.refit(ctx.sample_rate);
        let ghost fitted = *self;
        let capacity: usize = bus.capacity();
        let frames: usize = if ctx.frames < capacity {
            ctx.frames
        } else {
            capacity
        };
        process_param_split(self, bus, events_in, frames);
        let ghost split = Desk { node: *self, l: bus.l@, r: bus.r@ };
        if scrub_non_finite(bus, frames) {
            self.clear_tail();
        }
        proof {
            if S::of_spec(0).finite_spec() {
                a_scrubbed_block_is_finite(split.l, frames as int);
                a_scrubbed_block_is_finite(split.r, frames as int);
            }
            assert(frames == fitting(ctx.frames as int, old(bus).l@.len() as int));
            assert(carried_out(
                Desk { node: fitted, l: old(bus).l@, r: old(bus).r@ },
                param_plan(events_in@, frames as int),
                split,
            ));
            assert(delay_scrubbed(split, frames as int, *self, bus.l@, bus.r@));
        }
    }
}

/// What is left of a rendered block once it has been scrubbed.
pub open spec fn delay_scrubbed<S: Sample>(
    split: Desk<DelayEffect<S>, S>,
    frames: int,
    after: DelayEffect<S>,
    l: Seq<S>,
    r: Seq<S>,
) -> bool {
    &&& l == scrubbed(split.l, frames)
    &&& r == scrubbed(split.r, frames)
    &&& after@ == (if all_finite(split.l, frames) && all_finite(split.r, frames) {
        split.node@
    } else {
        delay_cleared(split.node@)
    })
}

impl<S: Curves> RangeProcessor<S> for DelayEffect<S> {
    open spec fn ready(&self) -> bool {
        self.well_formed()
    }

    open spec fn renders(
        &self,
        l: Seq<S>,
        r: Seq<S>,
        start: int,
        end: int,
        after: &Self,
        new_l: Seq<S>,
        new_r: Seq<S>,
    ) -> bool {
        &&& after@ == after_frames(delay_step(), self@, l, r, start, end - start)
        &&& new_l == left_of(delay_step(), delay_heard(), self@, l, r, start, end)
        &&& new_r == right_of(delay_step(), delay_heard(), self@, l, r, start, end)
    }

    open spec fn takes(&self, id: u32, value: S, after: &Self) -> bool {
        after@ == delay_taking(self@, id, value)
    }

    fn process_range(&mut self, bus: &mut StereoBus<S>, start: usize, end: usize) {
        let ghost before = self@;
        let ghost l = bus.l@;
        let ghost r = bus.r@;
        proof {
            lemma_nothing_rendered(delay_step(), delay_heard(), before, l, r, start as int);
        }
        let mut i: usize = start;
        while i < end
            invariant
                start <= i <= end <= l.len(),
                l.len() == r.len(),
                bus.l@.len() == l.len(),
                bus.r@.len() == r.len(),
                self.well_formed(),
                self@ == after_frames(delay_step(), before, l, r, start as int, i - start),
                bus.l@ == left_of(
                    delay_step(),
                    delay_heard(),
                    before,
                    l,
                    r,
                    start as int,
                    i as int,
                ),
                bus.r@ == right_of(
                    delay_step(),
                    delay_heard(),
                    before,
                    l,
                    r,
                    start as int,
                    i as int,
                ),
            decreases end - i,
        {
            proof {
                lemma_frame_rendered(
                    delay_step(),
                    delay_heard(),
                    before,
                    l,
                    r,
                    start as int,
                    i as int,
                );
            }
            let ghost here = self@;
            let (out_l, out_r) = self.process_frame(bus.l[i], bus.r[i]);
            assert(self@ == delay_frame(here, l[i as int], r[i as int]).0);
            assert((out_l, out_r) == delay_frame(here, l[i as int], r[i as int]).1);
            bus.l[i] = out_l;
            bus.r[i] = out_r;
            i = i + 1;
        }
    }

    fn apply_param(&mut self, id: u32, value: S) {
        let unit = clamp(value, S::of(0), S::of(1));
        match id {
            DELAY_PARAM_TIME_MS => {
                self.params.time_ms = clamp(value, S::of(0), self.max_time_ms);
                self.target_offset = self.resolve_offset();
            },
            DELAY_PARAM_FEEDBACK => {
                self.params.feedback = clamp(value, S::of(0), ratio(98, 100));
                self.feedback.set_target(self.params.feedback);
            },
            DELAY_PARAM_MODE => {
                self.params.mode = DelayMode::from_index(value.round().whole());
            },
            DELAY_PARAM_CROSS => {
                self.params.cross = unit;
            },
            DELAY_PARAM_TONE => {
                self.params.tone = unit;
                self.damp_coeff.set_target(tone_coeff(unit, self.sample_rate));
            },
            DELAY_PARAM_MIX => {
                self.params.mix = unit;
                self.mix.set_target(unit);
            },
            _ => {},
        }
    }
}

/// A delay that slept comes back with its head where it would have been,
/// whatever had been rendered in the meantime.
pub proof fn the_head_runs_on_the_clock<S: Sample>(
    d: Delaying<S>,
    l: Seq<S>,
    r: Seq<S>,
    start: int,
    frames: nat,
)
    ensures
        ({
            let rendered = after_frames(delay_step(), d, l, r, start, frames as int);
            let skipped = delay_skipped(d, frames);
            &&& rendered.head == skipped.head
            &&& rendered.params == skipped.params
            &&& rendered.target_offset == skipped.target_offset
        }),
    decreases frames,
{
    if frames > 0 {
        the_head_runs_on_the_clock(d, l, r, start, (frames - 1) as nat);
        let here = after_frames(delay_step(), d, l, r, start, frames - 1);
        assert(after_frames(delay_step(), d, l, r, start, frames as int) == delay_frame(
            here,
            l[start + frames - 1],
            r[start + frames - 1],
        ).0);
    }
}

/// A tape's head never bends the pitch by more than a twentieth, and stops
/// where it was going.
pub proof fn a_tape_bends_by_a_twentieth_at_most(head: ReadHead<Fixed>, target_offset: Fixed)
    ensures
        ({
            let (after, drift) = head_stepped(DelayMode::Tape, head, target_offset);
            &&& after == head
            &&& within(drift, ratio_of::<Fixed>(5, 100).raw as int)
            &&& head.offset == target_offset ==> drift == Fixed::of_spec(0)
        }),
{
    a_share_is_a_gain(Fixed::of_spec(5), Fixed::of_spec(100));
}

/// A frame of silence.
#[verifier::opaque]
pub open spec fn silent_frame<S: Sample>(d: Delaying<S>) -> (Delaying<S>, (S, S)) {
    delay_frame(d, S::of_spec(0), S::of_spec(0))
}

/// A delay after some frames of silence.
pub open spec fn delay_silenced<S: Sample>(d: Delaying<S>, frames: nat) -> Delaying<S>
    decreases frames,
{
    if frames == 0 {
        d
    } else {
        silent_frame(delay_silenced(d, (frames - 1) as nat)).0
    }
}

/// Whether a delay stands still: every knob has arrived, its gains are gains,
/// and its head rests `whole` samples back.
pub open spec fn delay_still(d: Delaying<Fixed>, whole: int) -> bool {
    &&& settled(d.feedback) && settled(d.damp_coeff) && settled(d.mix)
    &&& is_gain(d.feedback.value) && is_gain(d.damp_coeff.value) && is_gain(d.mix.value)
    &&& is_gain(d.params.cross)
    &&& d.params.mode == DelayMode::Digital
    &&& d.head.offset == Fixed::of_spec(whole as nat)
    &&& d.head.fade_left == 0
    &&& d.head.offset.minus(d.target_offset).abs_spec().at_most(Fixed::of_spec(1))
    &&& MIN_LINE_FRAMES <= d.line.l.len() <= 0x4000_0000
    &&& d.line.r.len() == d.line.l.len()
    &&& 1 <= whole <= d.line.l.len() - 3
}

/// Whether what a delay can still hear, and what its damping keeps, lie within
/// two bounds.
pub open spec fn delay_within(d: Delaying<Fixed>, whole: int, heard: int, kept: int) -> bool {
    &&& newest_within(d.line.l, whole + 1, heard)
    &&& newest_within(d.line.r, whole + 1, heard)
    &&& within(d.damp_l.state, kept)
    &&& within(d.damp_r.state, kept)
}

/// What a delay's feedback leaves of a bound.
pub open spec fn repeat_of(d: Delaying<Fixed>, bound: int) -> int {
    bound * d.feedback.value.raw / (FRACTION as int)
}

proof fn lemma_delay_step(d: Delaying<Fixed>, whole: int, bound: int, kept: int, excess: int)
    requires
        delay_still(d, whole),
        0 <= kept,
        0 <= excess,
        kept + excess <= bound <= 0x1000_0000_0000_0000,
        delay_within(d, whole, kept, kept + excess),
    ensures
        ({
            let (after, out) = silent_frame(d);
            let left = excess - excess * d.damp_coeff.value.raw / (FRACTION as int);
            &&& delay_still(after, whole)
            &&& after.feedback == d.feedback
            &&& after.damp_coeff == d.damp_coeff
            &&& after.line.l.len() == d.line.l.len()
            &&& forall|i: int|
                0 < i < d.line.l.len() ==> #[trigger] after.line.l[i] == d.line.l[i - 1]
            &&& forall|i: int|
                0 < i < d.line.r.len() ==> #[trigger] after.line.r[i] == d.line.r[i - 1]
            &&& within(after.line.l[0], repeat_of(d, bound))
            &&& within(after.line.r[0], repeat_of(d, bound))
            &&& 0 <= left <= excess
            &&& within(after.damp_l.state, kept + left)
            &&& within(after.damp_r.state, kept + left)
            &&& within(out.0, kept)
            &&& within(out.1, kept)
        }),
{
    reveal(silent_frame);
    let zero = Fixed::of_spec(0);
    a_settled_lag_stays(d.feedback);
    a_settled_lag_stays(d.damp_coeff);
    a_settled_lag_stays(d.mix);
    a_whole_offset_reads_its_sample(d.line.l, whole);
    a_whole_offset_reads_its_sample(d.line.r, whole);
    let wet_l = d.line.l[whole];
    let wet_r = d.line.r[whole];
    assert(head_reads(d.head, d.line) == (wet_l, wet_r));
    assert(within(wet_l, kept) && within(wet_r, kept));
    let coeff = d.damp_coeff.value;
    assert(clamp_param_of(coeff, zero, Fixed::of_spec(1)) == coeff);
    a_lag_nears_its_input(d.damp_l.state, wet_l, coeff, kept, excess);
    a_lag_nears_its_input(d.damp_r.state, wet_r, coeff, kept, excess);
    let damped_l = leaked(d.damp_l.state, wet_l, coeff);
    let damped_r = leaked(d.damp_r.state, wet_r, coeff);
    a_blend_stays_within(damped_l, damped_r, d.params.cross, bound);
    a_blend_stays_within(damped_r, damped_l, d.params.cross, bound);
    let feedback = d.feedback.value;
    a_gain_scales_a_bound(crossed(damped_l, damped_r, d.params.cross), feedback, bound);
    a_gain_scales_a_bound(crossed(damped_r, damped_l, d.params.cross), feedback, bound);
    a_gain_scales_a_bound(wet_l, d.mix.value, kept);
    a_gain_scales_a_bound(wet_r, d.mix.value, kept);
}

proof fn lemma_delay_first_trip(d: Delaying<Fixed>, whole: int, frames: nat, bound: int)
    requires
        delay_still(d, whole),
        delay_within(d, whole, bound, bound),
        0 <= bound <= 0x1000_0000_0000_0000,
        frames <= whole + 1,
    ensures
        ({
            let here = delay_silenced(d, frames);
            &&& delay_still(here, whole)
            &&& delay_within(here, whole, bound, bound)
            &&& here.line.l.len() == d.line.l.len()
            &&& here.feedback == d.feedback
            &&& here.damp_coeff == d.damp_coeff
            &&& newest_within(here.line.l, frames as int, repeat_of(d, bound))
            &&& newest_within(here.line.r, frames as int, repeat_of(d, bound))
        }),
    decreases frames,
{
    if frames > 0 {
        lemma_delay_first_trip(d, whole, (frames - 1) as nat, bound);
        let before = delay_silenced(d, (frames - 1) as nat);
        lemma_delay_step(before, whole, bound, bound, 0);
        a_gain_scales_a_bound(Fixed::of_spec(0), d.feedback.value, bound);
        let here = delay_silenced(d, frames);
        assert forall|i: int| 0 <= i < whole + 1 implies within(#[trigger] here.line.l[i], bound)
            && (i < frames ==> within(here.line.l[i], repeat_of(d, bound))) by {
            if i > 0 {
                assert(here.line.l[i] == before.line.l[i - 1]);
            }
        }
        assert forall|i: int| 0 <= i < whole + 1 implies within(#[trigger] here.line.r[i], bound)
            && (i < frames ==> within(here.line.r[i], repeat_of(d, bound))) by {
            if i > 0 {
                assert(here.line.r[i] == before.line.r[i - 1]);
            }
        }
    }
}

proof fn lemma_delay_second_trip(d: Delaying<Fixed>, whole: int, frames: nat, bound: int)
    requires
        delay_still(d, whole),
        delay_within(d, whole, bound, bound),
        0 <= bound <= 0x1000_0000_0000_0000,
    ensures
        ({
            let kept = repeat_of(d, bound);
            let left = excess_left(bound - kept, d.damp_coeff.value, frames);
            let here = delay_silenced(d, (whole + 1 + frames) as nat);
            &&& delay_still(here, whole)
            &&& here.line.l.len() == d.line.l.len()
            &&& here.feedback == d.feedback
            &&& here.damp_coeff == d.damp_coeff
            &&& 0 <= kept <= bound
            &&& 0 <= left <= bound - kept
            &&& delay_within(here, whole, kept, kept + left)
        }),
    decreases frames,
{
    let kept = repeat_of(d, bound);
    a_gain_scales_a_bound(Fixed::of_spec(0), d.feedback.value, bound);
    if frames == 0 {
        lemma_delay_first_trip(d, whole, (whole + 1) as nat, bound);
    } else {
        lemma_delay_second_trip(d, whole, (frames - 1) as nat, bound);
        let before = delay_silenced(d, (whole + frames) as nat);
        let excess = excess_left(bound - kept, d.damp_coeff.value, (frames - 1) as nat);
        lemma_delay_step(before, whole, bound, kept, excess);
        let here = delay_silenced(d, (whole + 1 + frames) as nat);
        assert forall|i: int| 0 <= i < whole + 1 implies within(#[trigger] here.line.l[i], kept) by {
            if i > 0 {
                assert(here.line.l[i] == before.line.l[i - 1]);
            }
        }
        assert forall|i: int| 0 <= i < whole + 1 implies within(#[trigger] here.line.r[i], kept) by {
            if i > 0 {
                assert(here.line.r[i] == before.line.r[i - 1]);
            }
        }
    }
}

/// What some rounds of silence leave of a bound on a delay: on each, the
/// feedback's share, and what the damping has not yet let go of.
pub open spec fn delay_left(d: Delaying<Fixed>, bound: int, settle: nat, rounds: nat) -> int
    decreases rounds,
{
    if rounds == 0 {
        bound
    } else {
        let before = delay_left(d, bound, settle, (rounds - 1) as nat);
        let kept = repeat_of(d, before);
        kept + excess_left(before - kept, d.damp_coeff.value, settle)
    }
}

/// A delay's repeats die away. Whatever the line holds, after a round of
/// silence, which is one trip and some frames for the damping to settle, what
/// is left of it, and so what is heard of it, lies within the feedback's share
/// of what there was and the little the damping still keeps; and so on, round
/// by round.
pub proof fn the_repeats_die_away(
    d: Delaying<Fixed>,
    whole: int,
    bound: int,
    settle: nat,
    rounds: nat,
)
    requires
        delay_still(d, whole),
        delay_within(d, whole, bound, bound),
        0 <= bound <= 0x1000_0000_0000_0000,
    ensures
        ({
            let left = delay_left(d, bound, settle, rounds);
            let here = delay_silenced(d, rounds * ((whole + 1 + settle) as nat));
            let out = silent_frame(here).1;
            &&& 0 <= left <= bound
            &&& delay_still(here, whole)
            &&& delay_within(here, whole, left, left)
            &&& within(out.0, left)
            &&& within(out.1, left)
            &&& here.feedback == d.feedback
            &&& here.damp_coeff == d.damp_coeff
        }),
    decreases rounds,
{
    let round = (whole + 1 + settle) as nat;
    if rounds == 0 {
        assert(0 * round == 0) by (nonlinear_arith);
        lemma_delay_step(d, whole, bound, bound, 0);
    } else {
        let fewer = (rounds - 1) as nat;
        the_repeats_die_away(d, whole, bound, settle, fewer);
        let before = delay_silenced(d, fewer * round);
        let had = delay_left(d, bound, settle, fewer);
        lemma_delay_second_trip(before, whole, settle, had);
        assert(rounds * round == fewer * round + round) by (nonlinear_arith)
            requires
                rounds == fewer + 1,
        ;
        lemma_silence_adds_up(d, fewer * round, round);
        let here = delay_silenced(d, rounds * round);
        let left = delay_left(d, bound, settle, rounds);
        lemma_delay_step(here, whole, left, left, 0);
    }
}

proof fn lemma_silence_adds_up(d: Delaying<Fixed>, first: nat, more: nat)
    ensures
        delay_silenced(delay_silenced(d, first), more) == delay_silenced(d, first + more),
    decreases more,
{
    if more > 0 {
        lemma_silence_adds_up(d, first, (more - 1) as nat);
    }
}

proof fn lemma_silence_never_grows(d: Delaying<Fixed>, whole: int, frames: nat, bound: int)
    requires
        delay_still(d, whole),
        delay_within(d, whole, bound, bound),
        0 <= bound <= 0x1000_0000_0000_0000,
    ensures
        delay_still(delay_silenced(d, frames), whole),
        delay_within(delay_silenced(d, frames), whole, bound, bound),
        within(silent_frame(delay_silenced(d, frames)).1.0, bound),
        within(silent_frame(delay_silenced(d, frames)).1.1, bound),
    decreases frames,
{
    if frames > 0 {
        lemma_silence_never_grows(d, whole, (frames - 1) as nat, bound);
        let before = delay_silenced(d, (frames - 1) as nat);
        lemma_delay_step(before, whole, bound, bound, 0);
        a_gain_scales_a_bound(Fixed::of_spec(0), before.feedback.value, bound);
        let here = delay_silenced(d, frames);
        assert forall|i: int| 0 <= i < whole + 1 implies within(#[trigger] here.line.l[i], bound) by {
            if i > 0 {
                assert(here.line.l[i] == before.line.l[i - 1]);
            }
        }
        assert forall|i: int| 0 <= i < whole + 1 implies within(#[trigger] here.line.r[i], bound) by {
            if i > 0 {
                assert(here.line.r[i] == before.line.r[i - 1]);
            }
        }
    }
    lemma_delay_step(delay_silenced(d, frames), whole, bound, bound, 0);
}

proof fn lemma_open_damping(d: Delaying<Fixed>, bound: int, rounds: nat)
    requires
        d.damp_coeff.value == Fixed::of_spec(1),
        is_gain(d.feedback.value),
        0 <= bound,
    ensures
        delay_left(d, bound, (FADE_FRAMES - 1) as nat, rounds) == fallen(
            bound,
            d.feedback.value,
            rounds,
        ),
    decreases rounds,
{
    if rounds > 0 {
        lemma_open_damping(d, bound, (rounds - 1) as nat);
        let before = fallen(bound, d.feedback.value, (rounds - 1) as nat);
        lemma_nothing_in_excess(
            before - repeat_of(d, before),
            d.damp_coeff.value,
            (FADE_FRAMES - 1) as nat,
        );
    }
}

proof fn lemma_nothing_in_excess(excess: int, coeff: Fixed, frames: nat)
    requires
        coeff == Fixed::of_spec(1),
        0 < frames,
    ensures
        excess_left(excess, coeff, frames) == 0,
    decreases frames,
{
    let f = FRACTION as int;
    let before = excess_left(excess, coeff, (frames - 1) as nat);
    assert(before * f / f == before) by (nonlinear_arith)
        requires
            f == 0x1_0000_0000,
    ;
}

/// A delay is quiet after its tail. Once it has had the silence it asked for,
/// what comes out is within what the repeats of that time leave: the feedback's
/// share for every trip, and what the damping still keeps. Where the damping is
/// open, that is under a three millionth of what the line held.
pub proof fn a_delay_is_quiet_after_its_tail(
    d: Delaying<Fixed>,
    whole: int,
    bound: int,
    trips: nat,
    frames: nat,
)
    requires
        delay_still(d, whole),
        delay_within(d, whole, bound, bound),
        0 <= bound <= 0x1000_0000_0000_0000,
        d.params.feedback == d.feedback.value,
        FRACTION <= 1001 * d.feedback.value.raw,
        100 * d.feedback.value.raw <= 98 * FRACTION,
        0 <= trips_of(d.feedback.value).raw < 0x1000_0000_0000,
        (trips - 1) * FRACTION < trips_of(d.feedback.value).raw <= trips * FRACTION,
        trips * (whole + FADE_FRAMES) <= 0x7fff_ffff,
        whole + FADE_FRAMES <= 0x7fff_ffff,
        delay_tail(d) <= frames,
    ensures
        ({
            let left = delay_left(d, bound, (FADE_FRAMES - 1) as nat, trips);
            let out = silent_frame(delay_silenced(d, frames)).1;
            &&& 0 <= left <= bound
            &&& within(out.0, left)
            &&& within(out.1, left)
            &&& d.damp_coeff.value == Fixed::of_spec(1) ==> 3_800_000 * left <= bound
        }),
{
    let settle = (FADE_FRAMES - 1) as nat;
    let round = (whole + 1 + settle) as nat;
    let gain = d.feedback.value;
    let trip = max_of(reverse_window(d.target_offset), d.head.offset).plus(
        Fixed::of_spec(FADE_FRAMES as nat),
    );
    assert(round * FRACTION <= trip.raw);
    a_tail_covers_its_trips(gain, trip, round as int, trips);
    the_repeats_die_away(d, whole, bound, settle, trips);
    let left = delay_left(d, bound, settle, trips);
    let here = delay_silenced(d, trips * round);
    let rest = (frames - trips * round) as nat;
    lemma_silence_never_grows(here, whole, rest, left);
    lemma_silence_adds_up(d, trips * round, rest);
    if d.damp_coeff.value == Fixed::of_spec(1) {
        lemma_open_damping(d, bound, trips);
        the_trips_of_a_tail_are_enough(bound, gain, trips);
    }
}

/// A tape's head moves on its target by a twentieth of a sample each frame, and
/// onto it once it is nearer than that: whenever it is not there it gets nearer,
/// and never goes past.
pub proof fn a_tape_nears_its_time(d: Delaying<Fixed>, l: Fixed, r: Fixed)
    requires
        d.params.mode == DelayMode::Tape,
        within(d.head.offset, 0x1000_0000_0000_0000),
        within(d.target_offset, 0x1000_0000_0000_0000),
    ensures
        ({
            let after = delay_frame(d, l, r).0;
            let gap = d.head.offset.raw - d.target_offset.raw;
            let left = after.head.offset.raw - d.target_offset.raw;
            &&& gap != 0 ==> magnitude(left) < magnitude(gap)
            &&& magnitude(gap) <= 214_748_364 ==> left == 0
            &&& gap > 214_748_364 ==> left == gap - 214_748_364
            &&& gap < -214_748_364 ==> left == gap + 214_748_364
            &&& after.target_offset == d.target_offset
            &&& after.params == d.params
        }),
{
    a_ratio_is_exact_to_a_count(5, 100);
}

/// However far a tape's head is from its target, it stands on it after as many
/// frames as there are twentieths of a sample between them.
pub proof fn a_tape_arrives_at_its_time(
    d: Delaying<Fixed>,
    l: Seq<Fixed>,
    r: Seq<Fixed>,
    start: int,
    frames: nat,
)
    requires
        d.params.mode == DelayMode::Tape,
        within(d.head.offset, 0x1000_0000_0000_0000),
        within(d.target_offset, 0x1000_0000_0000_0000),
    ensures
        ({
            let after = after_frames(delay_step(), d, l, r, start, frames as int);
            &&& magnitude(d.head.offset.raw - d.target_offset.raw) <= frames * 214_748_364
                ==> after.head.offset == d.target_offset
            &&& after.head.offset == d.target_offset || magnitude(
                after.head.offset.raw - d.target_offset.raw,
            ) == magnitude(d.head.offset.raw - d.target_offset.raw) - frames * 214_748_364
            &&& after.target_offset == d.target_offset
            &&& after.params == d.params
            &&& magnitude(after.head.offset.raw - d.target_offset.raw) <= magnitude(
                d.head.offset.raw - d.target_offset.raw,
            )
        }),
    decreases frames,
{
    if frames > 0 {
        a_tape_arrives_at_its_time(d, l, r, start, (frames - 1) as nat);
        let here = after_frames(delay_step(), d, l, r, start, frames - 1);
        assert(within(here.head.offset, 0x3000_0000_0000_0000));
        lemma_tape_step(here, l[start + frames - 1], r[start + frames - 1]);
        assert(after_frames(delay_step(), d, l, r, start, frames as int) == delay_frame(
            here,
            l[start + frames - 1],
            r[start + frames - 1],
        ).0);
    }
}

proof fn lemma_tape_step(d: Delaying<Fixed>, l: Fixed, r: Fixed)
    requires
        d.params.mode == DelayMode::Tape,
        within(d.head.offset, 0x3000_0000_0000_0000),
        within(d.target_offset, 0x1000_0000_0000_0000),
    ensures
        ({
            let after = delay_frame(d, l, r).0;
            let gap = d.head.offset.raw - d.target_offset.raw;
            let left = after.head.offset.raw - d.target_offset.raw;
            &&& magnitude(gap) <= 214_748_364 ==> left == 0
            &&& gap > 214_748_364 ==> left == gap - 214_748_364
            &&& gap < -214_748_364 ==> left == gap + 214_748_364
            &&& after.target_offset == d.target_offset
            &&& after.params == d.params
        }),
{
    a_ratio_is_exact_to_a_count(5, 100);
}

/// A digital head follows its time at once where that has moved by more than a
/// sample, and begins a fade of 256 frames from where it was; otherwise it stays.
pub proof fn a_digital_head_jumps_to_its_time(d: Delaying<Fixed>, l: Fixed, r: Fixed)
    requires
        d.params.mode == DelayMode::Digital,
        within(d.head.offset, 0x1000_0000_0000_0000),
        within(d.target_offset, 0x1000_0000_0000_0000),
    ensures
        ({
            let after = delay_frame(d, l, r).0.head;
            let moved = magnitude(d.head.offset.raw - d.target_offset.raw) > FRACTION;
            &&& moved ==> after == (ReadHead {
                offset: d.target_offset,
                from: d.head.offset,
                fade_left: 255,
                fade_len: 256,
            })
            &&& !moved ==> after.offset == d.head.offset
            &&& !moved && d.head.fade_left > 0 ==> after.fade_left == d.head.fade_left - 1
            &&& !moved && d.head.fade_left == 0 ==> after.fade_left == 0
        }),
{
}

/// A reverse head runs backwards, two samples further back each frame, to the end
/// of its window, and from there back to the newest sample: the window is a delay
/// time, and at least 512 samples.
pub proof fn a_reverse_head_runs_backwards(d: Delaying<Fixed>, l: Fixed, r: Fixed)
    requires
        d.params.mode == DelayMode::Reverse,
        within(d.head.offset, 0x1000_0000_0000_0000),
        within(d.target_offset, 0x1000_0000_0000_0000),
    ensures
        ({
            let after = delay_frame(d, l, r).0.head;
            let window = if d.target_offset.raw < 512 * FRACTION {
                512 * FRACTION as int
            } else {
                d.target_offset.raw as int
            };
            let at = d.head.offset.raw;
            &&& at < FRACTION + window ==> after.offset.raw == at + 2 * FRACTION
            &&& at >= FRACTION + window ==> after.offset.raw == 3 * FRACTION && after.fade_left
                == 255 && after.fade_len == 256 && after.from.raw == at + 2 * FRACTION
        }),
{
    assert(Fixed::of_spec(256).times(Fixed::of_spec(2)) == Fixed::of_spec(512)) by {
        let f = FRACTION as int;
        assert(((256 * f) * (2 * f)) / f == 512 * f) by (nonlinear_arith)
            requires
                f == 0x1_0000_0000,
        ;
        assert((256 * f) * (2 * f) >= 0) by (nonlinear_arith)
            requires
                f == 0x1_0000_0000,
        ;
    }
}

/// What a standing delay does with a frame: it puts out the mix of the sample its
/// head stands on, each channel from its own line; its damping moves its share of
/// the way to that sample; and what it writes over the input is the feedback of
/// what the cross takes from each channel.
pub proof fn a_delay_repeats_after_its_time(d: Delaying<Fixed>, whole: int, l: Fixed, r: Fixed)
    requires
        delay_still(d, whole),
        delay_within(d, whole, 0x100_0000_0000_0000, 0x100_0000_0000_0000),
        within(l, 0x100_0000_0000_0000),
        within(r, 0x100_0000_0000_0000),
    ensures
        ({
            let (after, out) = delay_frame(d, l, r);
            let wet_l = d.line.l[whole].raw;
            let wet_r = d.line.r[whole].raw;
            let mix = d.mix.value.raw;
            let damp = d.damp_coeff.value.raw;
            let damped_l = after.damp_l.state.raw;
            let damped_r = after.damp_r.state.raw;
            &&& magnitude(FRACTION * (out.0.raw - l.raw) - (wet_l - l.raw) * mix) < FRACTION
            &&& magnitude(FRACTION * (out.1.raw - r.raw) - (wet_r - r.raw) * mix) < FRACTION
            &&& magnitude(
                FRACTION * (damped_l - d.damp_l.state.raw) - (wet_l - d.damp_l.state.raw) * damp,
            ) < FRACTION
            &&& magnitude(
                FRACTION * (damped_r - d.damp_r.state.raw) - (wet_r - d.damp_r.state.raw) * damp,
            ) < FRACTION
            &&& fed(
                after.line.l[0].raw - l.raw,
                damped_l as int,
                damped_r as int,
                d.params.cross,
                d.feedback.value,
            )
            &&& fed(
                after.line.r[0].raw - r.raw,
                damped_r as int,
                damped_l as int,
                d.params.cross,
                d.feedback.value,
            )
        }),
{
    a_settled_lag_stays(d.feedback);
    a_settled_lag_stays(d.damp_coeff);
    a_settled_lag_stays(d.mix);
    a_whole_offset_reads_its_sample(d.line.l, whole);
    a_whole_offset_reads_its_sample(d.line.r, whole);
    let wet_l = d.line.l[whole];
    let wet_r = d.line.r[whole];
    assert(head_reads(d.head, d.line) == (wet_l, wet_r));
    assert(within(wet_l, 0x100_0000_0000_0000) && within(wet_r, 0x100_0000_0000_0000));
    let coeff = d.damp_coeff.value;
    a_share_is_exact_to_a_count(wet_l.minus(l), d.mix.value);
    a_share_is_exact_to_a_count(wet_r.minus(r), d.mix.value);
    a_share_is_exact_to_a_count(wet_l.minus(d.damp_l.state), coeff);
    a_share_is_exact_to_a_count(wet_r.minus(d.damp_r.state), coeff);
    let after = delay_frame(d, l, r).0;
    let damped_l = after.damp_l.state;
    let damped_r = after.damp_r.state;
    assert(within(damped_l, 0x100_0000_0000_0000) && within(damped_r, 0x100_0000_0000_0000));
    lemma_fed(damped_l, damped_r, d.params.cross, d.feedback.value);
    lemma_fed(damped_r, damped_l, d.params.cross, d.feedback.value);
    a_blend_stays_within(damped_l, damped_r, d.params.cross, 0x100_0000_0000_0000);
    a_blend_stays_within(damped_r, damped_l, d.params.cross, 0x100_0000_0000_0000);
    a_share_is_exact_to_a_count(
        crossed(damped_l, damped_r, d.params.cross),
        d.feedback.value,
    );
    a_share_is_exact_to_a_count(
        crossed(damped_r, damped_l, d.params.cross),
        d.feedback.value,
    );
}

/// Whether what comes back is the feedback of a channel and what the cross brings
/// it from the other, to within four counts.
pub open spec fn fed(back: int, own: int, other: int, cross: Fixed, feedback: Fixed) -> bool {
    magnitude(
        FRACTION * FRACTION * back - feedback.raw * (own * (FRACTION - cross.raw) + other
            * cross.raw),
    ) <= 4 * FRACTION * FRACTION
}

proof fn lemma_fed(own: Fixed, other: Fixed, cross: Fixed, feedback: Fixed)
    requires
        is_gain(cross),
        is_gain(feedback),
        within(own, 0x100_0000_0000_0000),
        within(other, 0x100_0000_0000_0000),
    ensures
        fed(
            crossed(own, other, cross).times(feedback).raw as int,
            own.raw as int,
            other.raw as int,
            cross,
            feedback,
        ),
{
    let f = FRACTION as int;
    let rest = Fixed::of_spec(1).minus(cross);
    a_share_is_exact_to_a_count(own, rest);
    a_share_is_exact_to_a_count(other, cross);
    let sum = crossed(own, other, cross);
    a_share_is_exact_to_a_count(sum, feedback);
    let p = own.times(rest).raw as int;
    let q = other.times(cross).raw as int;
    let k = feedback.raw as int;
    let b = sum.times(feedback).raw as int;
    let w = own.raw * (f - cross.raw) + other.raw * cross.raw;
    let e = f * f * b - k * w;
    assert(-(4 * f * f) <= e <= 4 * f * f) by (nonlinear_arith)
        requires
            e == f * f * b - k * w,
            -f < f * b - (p + q) * k < f,
            -(2 * f) < f * (p + q) - w < 2 * f,
            0 <= k <= f,
            f == 0x1_0000_0000,
    {
        let x = f * b - (p + q) * k;
        let y = f * (p + q) - w;
        assert(e == f * x + k * y) by {
            assert(f * (f * b - (p + q) * k) == f * f * b - k * (f * (p + q)));
            assert(k * (f * (p + q) - w) == k * (f * (p + q)) - k * w);
        }
        assert(-(f * f) <= f * x <= f * f);
        assert(-(2 * f * f) <= k * y <= 2 * f * f);
    }
}

/// A time's offset is a thousandth of its milliseconds times the rate, held
/// between one sample and the line's reach.
pub proof fn a_time_is_its_milliseconds(time_ms: Fixed, sample_rate: u32, frames: nat)
    requires
        0 <= time_ms.raw <= 100_000 * FRACTION,
        sample_rate <= 0x4_0000,
        MIN_LINE_FRAMES <= frames <= 0x4000_0000,
    ensures
        ({
            let offset = offset_of(time_ms, sample_rate, frames).raw;
            let wanted = time_ms.raw * sample_rate;
            let most = (frames - 3) * FRACTION;
            &&& FRACTION <= offset <= most
            &&& offset < most ==> wanted <= 1_000 * (offset + sample_rate)
            &&& offset > FRACTION ==> 1_000 * offset <= wanted
        }),
{
    let f = FRACTION as int;
    let t = time_ms.raw as int;
    let n = sample_rate as int;
    let q = (t * f) / (1_000 * f);
    assert(1_000 * q <= t < 1_000 * q + 1_000 && 0 <= q && 0 <= t * f && q == t / 1_000)
        by (nonlinear_arith)
        requires
            q == (t * f) / (1_000 * f),
            0 <= t,
            f == 0x1_0000_0000,
    ;
    assert((q * (n * f)) / f == q * n && 0 <= q * (n * f) && 0 <= q * n <= 0x1000_0000_0000_0000)
        by (nonlinear_arith)
        requires
            0 <= q <= 100 * f,
            0 <= n <= 0x4_0000,
            f == 0x1_0000_0000,
    {
        assert(q * (n * f) == (q * n) * f);
    }
    assert(1_000 * (q * n) <= t * n <= 1_000 * (q * n + n)) by (nonlinear_arith)
        requires
            1_000 * q <= t < 1_000 * q + 1_000,
            0 <= n,
    ;
}

/// A division of a beat lasts its part of a minute over the tempo: twice the
/// beats are twice as long, and a faster tempo is never longer.
pub proof fn a_division_lasts_its_part_of_a_beat(
    division: DelayTimeDivision,
    bpm: Fixed,
    faster: Fixed,
)
    requires
        0 < division.of <= 1_000,
        division.beats <= 1_000,
        FRACTION <= bpm.raw <= faster.raw <= 1_000 * FRACTION,
    ensures
        ({
            let ms = division_ms(division, bpm).raw;
            let one = division_ms(DelayTimeDivision { beats: 1, of: 1 }, bpm).raw;
            &&& one * bpm.raw <= 60_000 * FRACTION * FRACTION < (one + 1) * bpm.raw
            &&& magnitude(division.of * ms - division.beats * one) <= division.of * 60_002
            &&& division_ms(division, faster).raw <= ms
        }),
{
    let f = FRACTION as int;
    let b = division.beats as int;
    let n = division.of as int;
    let t = bpm.raw as int;
    let minute = Fixed::of_spec(60_000);
    let one = minute.over(bpm);
    let u = (60_000 * f * f) / t;
    assert(u * t <= 60_000 * f * f < (u + 1) * t && 0 <= u <= 60_000 * f && 0 <= 60_000 * f * f)
        by (nonlinear_arith)
        requires
            u == (60_000 * f * f) / t,
            f <= t,
            f == 0x1_0000_0000,
    ;
    assert(one.raw == u);
    a_ratio_is_exact_to_a_count(1, 1);
    assert(ratio_of::<Fixed>(1, 1).raw == f);
    one_times(one);
    assert(ratio_of::<Fixed>(1, 1) == Fixed::of_spec(1));
    a_ratio_is_exact_to_a_count(b as nat, n as nat);
    let part = ratio_of::<Fixed>(b as nat, n as nat);
    let p = part.raw as int;
    assert(0 <= p <= 1_000 * f) by (nonlinear_arith)
        requires
            n * p <= b * f,
            0 <= p,
            0 < n,
            0 <= b <= 1_000,
            f == 0x1_0000_0000,
    {
        assert(p <= n * p);
    }
    assert(0 <= p * u <= 0x7fff_ffff_ffff_ffff * f) by (nonlinear_arith)
        requires
            0 <= p <= 1_000 * f,
            0 <= u <= 60_000 * f,
            f == 0x1_0000_0000,
    ;
    a_product_is_exact_to_a_count(part, one);
    let ms = part.times(one).raw as int;
    let e = n * ms - b * u;
    assert(-(n * 60_002) <= e <= n * 60_002) by (nonlinear_arith)
        requires
            e == n * ms - b * u,
            -f < f * ms - p * u < f,
            n * p <= b * f < n * p + n,
            0 <= u <= 60_000 * f,
            0 < n,
            f == 0x1_0000_0000,
    {
        let x = f * ms - p * u;
        let y = b * f - n * p;
        assert(f * e == n * x - u * y) by {
            assert(n * (f * ms - p * u) == n * (f * ms) - u * (n * p));
            assert(u * (b * f - n * p) == f * (b * u) - u * (n * p));
            assert(f * e == n * (f * ms) - f * (b * u));
        }
        assert(-(n * f) <= n * x <= n * f);
        assert(0 <= u * y <= (60_000 * f) * n);
        assert(-(f * (n * 60_001)) <= f * e <= f * (n * 60_001));
    }
    let v = (60_000 * f * f) / (faster.raw as int);
    assert(0 <= v <= u) by (nonlinear_arith)
        requires
            v == (60_000 * f * f) / (faster.raw as int),
            u == (60_000 * f * f) / t,
            0 < t <= faster.raw,
            f == 0x1_0000_0000,
    {
        assert(v * faster.raw <= 60_000 * f * f);
        assert(v * t <= v * faster.raw);
    }
    assert(minute.over(faster).raw == v);
    products_keep_order(minute.over(faster), one, part);
}

/// A control of the delay takes its value where that lies in its range, and the
/// nearer end where it does not. What is heard of it glides: the feedback, the
/// tone and the mix move their lags' targets alone. The time goes to the longest
/// the line was made for, the feedback to 98 hundredths, the others to one; the
/// mode is the nearest whole number's.
pub proof fn a_delay_takes_its_controls(d: Delaying<Fixed>, id: u32, value: Fixed)
    requires
        0 <= d.max_time_ms.raw,
    ensures
        ({
            let after = delay_taking(d, id, value);
            let was = d.params;
            let now = after.params;
            let v = value.raw as int;
            let f = FRACTION as int;
            &&& id == 0 ==> held(v, 0, d.max_time_ms.raw as int, now.time_ms) && after == (Delaying {
                params: DelayParams { time_ms: now.time_ms, ..was },
                target_offset: offset_of(now.time_ms, d.sample_rate, d.line.l.len()),
                ..d
            })
            &&& id == 1 ==> held(v, 0, 4_209_067_950, now.feedback) && after == (Delaying {
                params: DelayParams { feedback: now.feedback, ..was },
                feedback: Smoothed { target: now.feedback, ..d.feedback },
                ..d
            })
            &&& id == 2 && v < f / 2 ==> now.mode == DelayMode::Digital
            &&& id == 2 && f / 2 <= v < 3 * f / 2 ==> now.mode == DelayMode::Tape
            &&& id == 2 && 3 * f / 2 <= v ==> now.mode == DelayMode::Reverse
            &&& id == 2 ==> after == (Delaying {
                params: DelayParams { mode: now.mode, ..was },
                ..d
            })
            &&& id == 3 ==> held(v, 0, f, now.cross) && after == (Delaying {
                params: DelayParams { cross: now.cross, ..was },
                ..d
            })
            &&& id == 4 ==> held(v, 0, f, now.tone) && after == (Delaying {
                params: DelayParams { tone: now.tone, ..was },
                damp_coeff: Smoothed {
                    target: tone_coeff_of(now.tone, d.sample_rate),
                    ..d.damp_coeff
                },
                ..d
            })
            &&& id == 5 ==> held(v, 0, f, now.mix) && after == (Delaying {
                params: DelayParams { mix: now.mix, ..was },
                mix: Smoothed { target: now.mix, ..d.mix },
                ..d
            })
            &&& id > 5 ==> after == d
        }),
{
    a_ratio_is_exact_to_a_count(98, 100);
}

/// A head that jumped fades over evenly: of what it reads, as many parts in the
/// fade are of where it was as the fade has frames left, and the others of where
/// it is.
pub proof fn a_head_fades_over(head: ReadHead<Fixed>, tape: Tape<Fixed>)
    requires
        0 < head.fade_len <= 0x10_0000,
        head.fade_left <= head.fade_len,
        within(tape_at(tape, head.offset).0, 0x100_0000_0000_0000),
        within(tape_at(tape, head.offset).1, 0x100_0000_0000_0000),
        within(tape_at(tape, head.from).0, 0x100_0000_0000_0000),
        within(tape_at(tape, head.from).1, 0x100_0000_0000_0000),
    ensures
        fades(
            head,
            tape_at(tape, head.offset).0,
            tape_at(tape, head.from).0,
            head_reads(head, tape).0,
        ),
        fades(
            head,
            tape_at(tape, head.offset).1,
            tape_at(tape, head.from).1,
            head_reads(head, tape).1,
        ),
        head.fade_left == 0 ==> head_reads(head, tape) == tape_at(tape, head.offset),
{
    let (l, r) = tape_at(tape, head.offset);
    let (old_l, old_r) = tape_at(tape, head.from);
    if head.fade_left == 0 {
        let n = head.fade_len as int;
        lemma_unfaded(n, l.raw as int, old_l.raw as int);
        lemma_unfaded(n, r.raw as int, old_r.raw as int);
    } else {
        lemma_faded(head, l, old_l);
        lemma_faded(head, r, old_r);
    }
}

/// Whether a value is what a fade makes of two, to within rounding.
pub open spec fn fades(head: ReadHead<Fixed>, here: Fixed, there: Fixed, value: Fixed) -> bool {
    let n = head.fade_len as int;
    let left = head.fade_left as int;
    magnitude(
        FRACTION * (n * value.raw - ((n - left) * here.raw + left * there.raw)),
    ) <= n * (magnitude(here.raw - there.raw) + 2 * FRACTION)
}

proof fn lemma_unfaded(n: int, here: int, there: int)
    requires
        0 <= n,
    ensures
        FRACTION * (n * here - ((n - 0) * here + 0 * there)) == 0,
        0 <= n * (magnitude(here - there) + 2 * FRACTION),
{
    assert(n * here - ((n - 0) * here + 0 * there) == 0) by (nonlinear_arith);
    let m = magnitude(here - there) + 2 * FRACTION;
    assert(0 <= n * m) by (nonlinear_arith)
        requires
            0 <= n,
            0 <= m,
    ;
}

proof fn lemma_faded(head: ReadHead<Fixed>, here: Fixed, there: Fixed)
    requires
        0 < head.fade_left <= head.fade_len <= 0x10_0000,
        within(here, 0x100_0000_0000_0000),
        within(there, 0x100_0000_0000_0000),
    ensures
        ({
            let left = Fixed::of_spec(head.fade_left as nat).over(
                Fixed::of_spec(head.fade_len as nat),
            );
            fades(
                head,
                here,
                there,
                here.times(Fixed::of_spec(1).minus(left)).plus(there.times(left)),
            )
        }),
{
    let f = FRACTION as int;
    let n = head.fade_len as int;
    let k = head.fade_left as int;
    a_ratio_is_exact_to_a_count(k as nat, n as nat);
    let left = ratio_of::<Fixed>(k as nat, n as nat);
    let u = left.raw as int;
    assert(u <= f) by (nonlinear_arith)
        requires
            n * u <= k * f,
            k <= n,
            0 < n,
            f == 0x1_0000_0000,
    ;
    let done = Fixed::of_spec(1).minus(left);
    a_share_is_exact_to_a_count(here, done);
    a_share_is_exact_to_a_count(there, left);
    let x = here.raw as int;
    let y = there.raw as int;
    let p = here.times(done).raw as int;
    let q = there.times(left).raw as int;
    let d = magnitude(x - y);
    let value = p + q;
    let e = f * (n * value - ((n - k) * x + k * y));
    let bound = n * (d + 2 * f);
    assert(-bound <= e <= bound) by (nonlinear_arith)
        requires
            e == f * (n * value - ((n - k) * x + k * y)),
            bound == n * (d + 2 * f),
            value == p + q,
            -f < f * p - x * (f - u) < f,
            -f < f * q - y * u < f,
            n * u <= k * f < n * u + n,
            0 < n,
            d == (if x - y < 0 { -(x - y) } else { x - y }),
            f == 0x1_0000_0000,
    {
        let a = f * p - x * (f - u);
        let b = f * q - y * u;
        let c = k * f - n * u;
        assert(f * n * value == n * (x * (f - u)) + n * (y * u) + n * a + n * b) by {
            assert(f * (p + q) == x * (f - u) + y * u + a + b);
            assert(n * (f * (p + q)) == n * (x * (f - u) + y * u + a + b));
        }
        assert(n * (x * (f - u)) == x * (n * f - n * u));
        assert(n * (y * u) == y * (n * u));
        assert(x * (n * f - n * u) == x * ((n - k) * f + c));
        assert(y * (n * u) == y * (k * f - c));
        assert(e == n * a + n * b + c * (x - y)) by {
            assert(x * ((n - k) * f + c) == f * ((n - k) * x) + c * x);
            assert(y * (k * f - c) == f * (k * y) - c * y);
            assert(c * (x - y) == c * x - c * y);
            assert(e == f * n * value - f * ((n - k) * x) - f * (k * y));
        }
        assert(-(n * f) <= n * a <= n * f);
        assert(-(n * f) <= n * b <= n * f);
        assert(-(n * d) <= c * (x - y) <= n * d) by {
            assert(0 <= c < n);
            assert(c * d <= n * d);
            assert(c * (x - y) == c * d || c * (x - y) == -(c * d));
        }
    }
}


} // verus!
