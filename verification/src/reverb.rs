//! Feedback-delay-network hall reverb with in-loop diffusion.
//!
//! Input is summed to mono and passes a pre-delay, a low cut, and a chain of
//! Schroeder allpass diffusers before it reaches the network of
//! [`crate::hall`]; stereo comes out of two orthogonal taps across the delay
//! lines. Cost is a fixed handful of taps and multiplies per sample and does
//! not vary with the decay at all.
//!
//! The effect is stated one sample at a time: [`hall_next`] is the hall after
//! a sample and [`hall_out`] what is heard of it. The executable code runs each
//! stage across a whole chunk before the next, and skips glides that no longer
//! move; [`ReverbEffect::process_chunk`] is shown to come to the same.

use vstd::prelude::*;

use crate::bus::{
    a_scrubbed_block_is_finite, all_finite, fitting, scrub_non_finite, scrubbed, StereoBus,
};
use crate::curves::Curves;
use crate::event::EventList;
use crate::filter::{leaked, pole_decay, OnePoleLp};
use crate::hall::{
    diffuser_states, line_at_rest, line_cleared, line_skipped, line_states, lines_after,
    lines_formed, network_step, signed_sum, taps_of, Line, LineState, DIFFUSERS, LINES,
};
use crate::node::{Discontinuity, ProcessContext};
use crate::num::{clamp, clamp_of, max, max_of, min, min_of, ratio, ratio_of, Sample};
use crate::ring::{
    a_resting_diffuser_needs_no_glide, diffused, diffuser_after, diffuser_at_rest, diffuser_glided,
    forgotten, heard, reachable, remembered, Diffuser, DiffuserState, Ring,
};
use crate::smooth::{
    at_least_one, glide_coeff, glide_coeff_of, settled, smoothed_next, Smoothed,
};
use crate::split::{
    carried_out, param_plan, process_param_split, Desk, RangeProcessor,
};

verus! {

/// Frames [`ReverbEffect::process_chunk`] runs its input stage across before
/// the loop reads it. A longer range is taken in pieces.
pub const CHUNK: usize = 128;

pub const REVERB_PARAM_SIZE: u32 = 0;

pub const REVERB_PARAM_DECAY_S: u32 = 1;

pub const REVERB_PARAM_DAMPING: u32 = 2;

pub const REVERB_PARAM_PREDELAY_MS: u32 = 3;

pub const REVERB_PARAM_DIFFUSION: u32 = 4;

pub const REVERB_PARAM_WIDTH: u32 = 5;

pub const REVERB_PARAM_MODULATION: u32 = 6;

pub const REVERB_PARAM_LOW_CUT_HZ: u32 = 7;

/// The controls of the hall, in natural units.
#[derive(Clone, Copy, Debug)]
pub struct ReverbParams<S> {
    pub size: S,
    pub decay_s: S,
    pub damping: S,
    pub predelay_ms: S,
    pub diffusion: S,
    pub width: S,
    pub modulation: S,
    pub low_cut_hz: S,
}

/// The longer of a rate and one.
pub open spec fn rate_from<S: Sample>(sample_rate: u32) -> S {
    S::of_spec(if sample_rate < 1 { 1 } else { sample_rate as nat })
}

fn rate_at_least_one<S: Sample>(sample_rate: u32) -> (rate: S)
    ensures
        rate == rate_from::<S>(sample_rate),
{
    S::of(at_least_one(sample_rate) as usize)
}

/// A sum of lengths, as far as a length can go.
pub open spec fn length_sum(a: int, b: int) -> int {
    if a + b > usize::MAX {
        usize::MAX as int
    } else {
        a + b
    }
}

/// Delay lengths in samples at 48 kHz and `size` 0.5. Primes, so the lines'
/// echo trains stay out of phase with each other.
pub open spec fn line_tuning_of(line: int) -> nat {
    if line == 0 {
        1013
    } else if line == 1 {
        1201
    } else if line == 2 {
        1409
    } else if line == 3 {
        1601
    } else if line == 4 {
        1811
    } else if line == 5 {
        2003
    } else if line == 6 {
        2213
    } else {
        2411
    }
}

fn line_tuning(line: usize) -> (len: usize)
    ensures
        len == line_tuning_of(line as int),
{
    match line {
        0 => 1013,
        1 => 1201,
        2 => 1409,
        3 => 1601,
        4 => 1811,
        5 => 2003,
        6 => 2213,
        _ => 2411,
    }
}

/// Input diffuser lengths, ascending so each stage smears the previous one's
/// output across a longer window.
pub open spec fn diffuser_tuning_of(stage: int) -> nat {
    if stage == 0 {
        229
    } else if stage == 1 {
        331
    } else if stage == 2 {
        557
    } else {
        719
    }
}

fn diffuser_tuning(stage: usize) -> (len: usize)
    ensures
        len == diffuser_tuning_of(stage as int),
{
    match stage {
        0 => 229,
        1 => 331,
        2 => 557,
        _ => 719,
    }
}

/// In-loop allpass lengths, one per delay line, short and prime.
pub open spec fn loop_tuning_of(line: int) -> nat {
    if line == 0 {
        127
    } else if line == 1 {
        179
    } else if line == 2 {
        241
    } else if line == 3 {
        293
    } else if line == 4 {
        359
    } else if line == 5 {
        421
    } else if line == 6 {
        479
    } else {
        541
    }
}

fn loop_tuning(line: usize) -> (len: usize)
    ensures
        len == loop_tuning_of(line as int),
{
    match line {
        0 => 127,
        1 => 179,
        2 => 241,
        3 => 293,
        4 => 359,
        5 => 421,
        6 => 479,
        _ => 541,
    }
}

/// Modulation rates in thousandths of a Hz, mutually incommensurate so the
/// lines never sweep together and produce a single audible wobble.
pub open spec fn mod_rate_of(line: int) -> nat {
    if line == 0 {
        317
    } else if line == 1 {
        457
    } else if line == 2 {
        631
    } else if line == 3 {
        729
    } else if line == 4 {
        853
    } else if line == 5 {
        971
    } else if line == 6 {
        1093
    } else {
        1217
    }
}

fn mod_rate(line: usize) -> (millihertz: usize)
    ensures
        millihertz == mod_rate_of(line as int),
{
    match line {
        0 => 317,
        1 => 457,
        2 => 631,
        3 => 729,
        4 => 853,
        5 => 971,
        6 => 1093,
        _ => 1217,
    }
}

/// A line's modulation step, in turns per sample.
pub open spec fn mod_step_of<S: Sample>(line: int, sample_rate: u32) -> S {
    ratio_of::<S>(mod_rate_of(line), 1000).over(rate_from(sample_rate))
}

/// Length in samples of a base tuning value at a rate and a size multiplier.
pub open spec fn scaled_len_of<S: Sample>(base: nat, sample_rate: u32, multiplier: S) -> nat {
    let len = S::of_spec(base).times(multiplier).times(rate_from(sample_rate)).over(
        S::of_spec(48_000),
    ).round_spec().whole_spec();
    if len < 1 {
        1
    } else {
        len
    }
}

pub fn scaled_len<S: Sample>(base: usize, sample_rate: u32, multiplier: S) -> (len: usize)
    ensures
        len == scaled_len_of(base as nat, sample_rate, multiplier),
{
    let len: usize = S::of(base).mul(multiplier).mul(rate_at_least_one(sample_rate)).div(
        S::of(48_000),
    ).round().whole();
    if len < 1 {
        1
    } else {
        len
    }
}

/// Peak delay-line modulation in samples at full depth: `0.45` milliseconds.
pub open spec fn mod_depth_of<S: Sample>(sample_rate: u32) -> S {
    ratio_of::<S>(45, 100).times(ratio_of(1, 1000)).times(rate_from(sample_rate))
}

fn mod_depth_samples<S: Sample>(sample_rate: u32) -> (depth: S)
    ensures
        depth == mod_depth_of::<S>(sample_rate),
{
    ratio::<S>(45, 100).mul(ratio(1, 1000)).mul(rate_at_least_one(sample_rate))
}

/// The largest multiplier `size` maps to.
pub open spec fn size_ceiling<S: Sample>() -> S {
    ratio_of(25, 10)
}

/// The multiplier of a `size`: `0.4` to `2.5`, geometrically, so that the
/// middle lands on the tuning.
pub open spec fn size_multiplier_of<S: Curves>(size: S) -> S {
    ratio_of::<S>(4, 10).times(
        size_ceiling::<S>().over(ratio_of(4, 10)).powf_spec(
            clamp_of(size, S::of_spec(0), S::of_spec(1)),
        ),
    )
}

fn size_multiplier<S: Curves>(size: S) -> (multiplier: S)
    ensures
        multiplier == size_multiplier_of(size),
{
    let span = ratio::<S>(25, 10).div(ratio(4, 10));
    ratio::<S>(4, 10).mul(span.powf(clamp(size, S::of(0), S::of(1))))
}

/// A pre-delay in samples: one to two hundred milliseconds, and no less than a
/// sample.
pub open spec fn predelay_of<S: Sample>(predelay_ms: S, sample_rate: u32) -> S {
    max_of(
        clamp_of(predelay_ms, S::of_spec(1), S::of_spec(200)).times(ratio_of(1, 1000)).times(
            rate_from(sample_rate),
        ),
        S::of_spec(1),
    )
}

fn predelay_samples<S: Sample>(predelay_ms: S, sample_rate: u32) -> (samples: S)
    ensures
        samples == predelay_of(predelay_ms, sample_rate),
{
    let ms = clamp(predelay_ms, S::of(1), S::of(200));
    max(ms.mul(ratio(1, 1000)).mul(rate_at_least_one(sample_rate)), S::of(1))
}

/// The frames a pre-delay ring needs: two hundred milliseconds and four.
pub open spec fn predelay_capacity_of<S: Sample>(sample_rate: u32) -> int {
    length_sum(
        ratio_of::<S>(2, 10).times(rate_from(sample_rate)).ceil_spec().whole_spec() as int,
        4,
    )
}

pub fn predelay_capacity<S: Sample>(sample_rate: u32) -> (frames: usize)
    ensures
        frames == predelay_capacity_of::<S>(sample_rate),
{
    let frames: usize = ratio::<S>(2, 10).mul(rate_at_least_one(sample_rate)).ceil().whole();
    frames.saturating_add(4)
}

/// The ring a diffuser needs for the longest size.
pub open spec fn diffuser_capacity<S: Sample>(base: nat, sample_rate: u32) -> int {
    length_sum(scaled_len_of::<S>(base, sample_rate, size_ceiling()) as int, 4)
}

/// A ring of at least four frames.
pub open spec fn ring_of(frames: int) -> nat {
    if frames < 4 {
        4
    } else {
        frames as nat
    }
}

/// A diffuser as it is made.
pub open spec fn diffuser_new<S: Sample>(base: nat, sample_rate: u32) -> DiffuserState<S> {
    let capacity = diffuser_capacity::<S>(base, sample_rate);
    let len = S::of_spec(capacity as nat).minus(S::of_spec(4));
    DiffuserState { past: forgotten::<S>(ring_of(capacity)), len, target_len: len }
}

impl<S: Sample> Diffuser<S> {
    /// A diffuser with room for the longest size.
    pub fn new(base_len: usize, sample_rate: u32) -> (diffuser: Self)
        ensures
            diffuser.well_formed(),
            diffuser@ == diffuser_new::<S>(base_len as nat, sample_rate),
    {
        let longest: usize = scaled_len::<S>(base_len, sample_rate, ratio(25, 10));
        Diffuser::with_capacity(longest.saturating_add(4))
    }
}

/// The ring a line needs: the longest size, the modulation's excursion and the
/// interpolator's reach.
pub open spec fn line_capacity<S: Sample>(line: int, sample_rate: u32) -> int {
    length_sum(
        length_sum(
            scaled_len_of::<S>(line_tuning_of(line), sample_rate, size_ceiling()) as int,
            mod_depth_of::<S>(sample_rate).whole_spec() as int,
        ),
        8,
    )
}

/// A line as it is made. The starting phases are spread evenly, so that the
/// lines do not all begin at the same excursion.
pub open spec fn line_new<S: Sample>(line: int, sample_rate: u32) -> LineState<S> {
    let len = S::of_spec(scaled_len_of::<S>(line_tuning_of(line), sample_rate, S::of_spec(1)));
    LineState {
        past: forgotten::<S>(ring_of(line_capacity::<S>(line, sample_rate))),
        len,
        target_len: len,
        mod_depth: S::of_spec(0),
        mod_step: mod_step_of(line, sample_rate),
        phase: S::of_spec(line as nat).over(S::of_spec(8)),
        damp: OnePoleLp {
            state: S::of_spec(0),
            coeff: crate::num::clamp_param_of(S::of_spec(1), S::of_spec(0), S::of_spec(1)),
        },
        feedback: S::of_spec(0),
        loop_ap: diffuser_new(loop_tuning_of(line), sample_rate),
    }
}

impl<S: Sample> Line<S> {
    /// The line of an index, with room for the longest size, so that `size`
    /// never has to reallocate.
    pub fn new(sample_rate: u32, index: usize) -> (line: Self)
        ensures
            line.well_formed(),
            line@ == line_new::<S>(index as int, sample_rate),
    {
        let base: usize = line_tuning(index);
        let longest: usize = scaled_len::<S>(base, sample_rate, ratio(25, 10));
        let depth: usize = mod_depth_samples::<S>(sample_rate).whole();
        let capacity: usize = longest.saturating_add(depth).saturating_add(8);
        let mut damp = OnePoleLp::new();
        damp.set_coeff(S::of(1));
        let len: S = S::of(scaled_len::<S>(base, sample_rate, S::of(1)));
        Line {
            ring: Ring::with_capacity(capacity),
            len,
            target_len: len,
            mod_depth: S::of(0),
            mod_step: ratio::<S>(mod_rate(index), 1000).div(rate_at_least_one(sample_rate)),
            phase: S::of(index).div(S::of(8)),
            damp,
            feedback: S::of(0),
            loop_ap: Diffuser::new(loop_tuning(index), sample_rate),
        }
    }
}

/// The hall reverb.
pub struct ReverbEffect<S> {
    pub params: ReverbParams<S>,
    pub sample_rate: u32,
    pub predelay: Ring<S>,
    pub predelay_samples: Smoothed<S>,
    /// The `low_cut` control's one-pole, subtracted from its own input to
    /// make a highpass. On the input and not in the feedback loop, where it
    /// would compound once per trip.
    pub low_cut: OnePoleLp<S>,
    pub diffusers: Vec<Diffuser<S>>,
    pub lines: Vec<Line<S>>,
    pub diffusion: Smoothed<S>,
    pub width: Smoothed<S>,
    /// One-pole coefficient the delay lengths glide with.
    pub size_glide: S,
    /// What a parameter marked since the last range, resolved lazily so that
    /// several changes in one control tick cost one rebuild each.
    pub size_dirty: bool,
    pub feedback_dirty: bool,
    pub damping_dirty: bool,
    pub modulation_dirty: bool,
}

/// What the hall is, apart from where its samples lie.
pub struct Hall<S> {
    pub params: ReverbParams<S>,
    pub sample_rate: u32,
    pub predelay: Seq<S>,
    pub predelay_samples: Smoothed<S>,
    pub low_cut: OnePoleLp<S>,
    pub diffusers: Seq<DiffuserState<S>>,
    pub lines: Seq<LineState<S>>,
    pub diffusion: Smoothed<S>,
    pub width: Smoothed<S>,
    pub size_glide: S,
    pub size_dirty: bool,
    pub feedback_dirty: bool,
    pub damping_dirty: bool,
    pub modulation_dirty: bool,
}

impl<S> View for ReverbEffect<S> {
    type V = Hall<S>;

    closed spec fn view(&self) -> Hall<S> {
        Hall {
            params: self.params,
            sample_rate: self.sample_rate,
            predelay: self.predelay@,
            predelay_samples: self.predelay_samples,
            low_cut: self.low_cut,
            diffusers: diffuser_states(self.diffusers@),
            lines: line_states(self.lines@),
            diffusion: self.diffusion,
            width: self.width,
            size_glide: self.size_glide,
            size_dirty: self.size_dirty,
            feedback_dirty: self.feedback_dirty,
            damping_dirty: self.damping_dirty,
            modulation_dirty: self.modulation_dirty,
        }
    }
}

/// What a frame sends into the pre-delay: its two channels' mean.
pub open spec fn hall_dry<S: Sample>(l: S, r: S) -> S {
    l.plus(r).times(ratio_of(1, 2))
}

/// What comes out of the pre-delay.
pub open spec fn hall_delayed<S: Sample>(hall: Hall<S>, l: S, r: S) -> S {
    heard(
        remembered(hall.predelay, hall_dry(l, r)),
        smoothed_next(hall.predelay_samples).value,
    )
}

/// What comes out of the low cut.
pub open spec fn hall_cut<S: Sample>(hall: Hall<S>, l: S, r: S) -> S {
    let delayed = hall_delayed(hall, l, r);
    delayed.minus(leaked(hall.low_cut.state, delayed, hall.low_cut.coeff))
}

/// What comes out of the first `count` diffusers.
pub open spec fn hall_diffused<S: Sample>(hall: Hall<S>, l: S, r: S, count: int) -> S
    decreases count,
{
    if count <= 0 {
        hall_cut(hall, l, r)
    } else {
        diffused(
            hall.diffusers[count - 1],
            hall_diffused(hall, l, r, count - 1),
            smoothed_next(hall.diffusion).value,
            hall.size_glide,
        )
    }
}

/// The hall after one frame.
pub open spec fn hall_next<S: Sample>(hall: Hall<S>, l: S, r: S) -> Hall<S> {
    Hall {
        predelay: remembered(hall.predelay, hall_dry(l, r)),
        predelay_samples: smoothed_next(hall.predelay_samples),
        low_cut: OnePoleLp {
            state: leaked(hall.low_cut.state, hall_delayed(hall, l, r), hall.low_cut.coeff),
            coeff: hall.low_cut.coeff,
        },
        diffusers: Seq::new(
            hall.diffusers.len(),
            |i: int|
                diffuser_after(
                    hall.diffusers[i],
                    hall_diffused(hall, l, r, i),
                    smoothed_next(hall.diffusion).value,
                    hall.size_glide,
                ),
        ),
        lines: lines_after(
            hall.lines,
            hall_diffused(hall, l, r, DIFFUSERS as int),
            hall.size_glide,
        ),
        diffusion: smoothed_next(hall.diffusion),
        width: smoothed_next(hall.width),
        ..hall
    }
}

/// The absolute output reference, which pins sustained material within a
/// couple of decibels of the dry path it is blended against.
pub open spec fn hall_level<S: Sample>() -> S {
    ratio_of(185, 1000)
}

/// What is heard of one frame: the two taps, as far apart as the width says.
pub open spec fn hall_out<S: Sample>(hall: Hall<S>) -> (S, S) {
    let taps = taps_of(hall.lines, hall.size_glide);
    let wet_l = signed_sum(taps, true, LINES as int);
    let wet_r = signed_sum(taps, false, LINES as int);
    let mid = wet_l.plus(wet_r).times(ratio_of(1, 2));
    let side = wet_l.minus(wet_r).times(ratio_of(1, 2)).times(smoothed_next(hall.width).value);
    (mid.plus(side).times(hall_level()), mid.minus(side).times(hall_level()))
}

/// The hall after `count` frames of `l` and `r` from `start` on.
pub open spec fn hall_after<S: Sample>(
    hall: Hall<S>,
    l: Seq<S>,
    r: Seq<S>,
    start: int,
    count: int,
) -> Hall<S>
    decreases count,
{
    if count <= 0 {
        hall
    } else {
        hall_next(
            hall_after(hall, l, r, start, count - 1),
            l[start + count - 1],
            r[start + count - 1],
        )
    }
}

/// The left channel with `start..end` rendered.
pub open spec fn hall_left<S: Sample>(
    hall: Hall<S>,
    l: Seq<S>,
    r: Seq<S>,
    start: int,
    end: int,
) -> Seq<S> {
    Seq::new(
        l.len(),
        |i: int|
            if start <= i < end {
                hall_out(hall_after(hall, l, r, start, i - start)).0
            } else {
                l[i]
            },
    )
}

/// The right channel with `start..end` rendered.
pub open spec fn hall_right<S: Sample>(
    hall: Hall<S>,
    l: Seq<S>,
    r: Seq<S>,
    start: int,
    end: int,
) -> Seq<S> {
    Seq::new(
        r.len(),
        |i: int|
            if start <= i < end {
                hall_out(hall_after(hall, l, r, start, i - start)).1
            } else {
                r[i]
            },
    )
}

/// What no frame changes: the controls, how many stages there are, and what
/// their lengths glide to.
proof fn lemma_hall_keeps<S: Sample>(hall: Hall<S>, l: Seq<S>, r: Seq<S>, start: int, count: int)
    requires
        0 <= count,
    ensures
        ({
            let after = hall_after(hall, l, r, start, count);
            &&& after.params == hall.params
            &&& after.sample_rate == hall.sample_rate
            &&& after.size_glide == hall.size_glide
            &&& after.size_dirty == hall.size_dirty
            &&& after.feedback_dirty == hall.feedback_dirty
            &&& after.damping_dirty == hall.damping_dirty
            &&& after.modulation_dirty == hall.modulation_dirty
            &&& after.diffusers.len() == hall.diffusers.len()
            &&& after.lines.len() == hall.lines.len()
        }),
    decreases count,
{
    if count > 0 {
        lemma_hall_keeps(hall, l, r, start, count - 1);
    }
}

/// The hall reads only the frames it renders.
proof fn lemma_hall_reads_its_frames<S: Sample>(
    hall: Hall<S>,
    l: Seq<S>,
    r: Seq<S>,
    other_l: Seq<S>,
    other_r: Seq<S>,
    start: int,
    count: int,
)
    requires
        0 <= count,
        forall|i: int| start <= i < start + count ==> #[trigger] l[i] == other_l[i],
        forall|i: int| start <= i < start + count ==> #[trigger] r[i] == other_r[i],
    ensures
        hall_after(hall, l, r, start, count) == hall_after(hall, other_l, other_r, start, count),
    decreases count,
{
    if count > 0 {
        lemma_hall_reads_its_frames(hall, l, r, other_l, other_r, start, count - 1);
        assert(l[start + count - 1] == other_l[start + count - 1]);
        assert(r[start + count - 1] == other_r[start + count - 1]);
    }
}

/// However a block is cut, the hall ends it in the same state: rendering does
/// not depend on the host's block size.
pub proof fn rendering_in_pieces_is_rendering<S: Sample>(
    hall: Hall<S>,
    l: Seq<S>,
    r: Seq<S>,
    start: int,
    first: int,
    second: int,
)
    requires
        0 <= first,
        0 <= second,
    ensures
        hall_after(hall, l, r, start, first + second) == hall_after(
            hall_after(hall, l, r, start, first),
            l,
            r,
            start + first,
            second,
        ),
    decreases second,
{
    if second > 0 {
        rendering_in_pieces_is_rendering(hall, l, r, start, first, second - 1);
    }
}

impl<S: Sample> ReverbEffect<S> {
    pub closed spec fn well_formed(&self) -> bool {
        &&& self.predelay.well_formed()
        &&& self.diffusers@.len() == DIFFUSERS
        &&& forall|i: int| 0 <= i < DIFFUSERS ==> (#[trigger] self.diffusers[i]).well_formed()
        &&& lines_formed(self.lines@)
    }

    /// Up to [`CHUNK`] frames of the network, in two stages.
    ///
    /// The input stage, one step at a time across the chunk: the pre-delay and
    /// low cut into a scratch row, then each diffuser over the whole row in
    /// turn. Then the loop, one sample at a time. A glide that has stalled is
    /// skipped for the chunk. None of this can be told from running every
    /// stage for one sample before the next.
    pub fn process_chunk(&mut self, bus: &mut StereoBus<S>, start: usize, end: usize)
        requires
            old(self).well_formed(),
            old(bus).well_formed(),
            start <= end <= old(bus).l@.len(),
            end - start <= CHUNK,
        ensures
            final(self).well_formed(),
            final(bus).well_formed(),
            final(self)@ == hall_after(
                old(self)@,
                old(bus).l@,
                old(bus).r@,
                start as int,
                end - start,
            ),
            final(bus).l@ == hall_left(
                old(self)@,
                old(bus).l@,
                old(bus).r@,
                start as int,
                end as int,
            ),
            final(bus).r@ == hall_right(
                old(self)@,
                old(bus).l@,
                old(bus).r@,
                start as int,
                end as int,
            ),
    {
        let ghost hall = self@;
        let ghost l = bus.l@;
        let ghost r = bus.r@;
        let frames: usize = end - start;
        let glide = self.size_glide;
        let mut diffused = [S::of(0); CHUNK];
        let mut k: usize = 0;
        while k < frames
            invariant
                k <= frames <= CHUNK,
                frames == end - start,
                end <= l.len(),
                l.len() == r.len(),
                bus.l@ == l,
                bus.r@ == r,
                hall == old(self)@,
                self.predelay.well_formed(),
                self.predelay@ == hall_after(hall, l, r, start as int, k as int).predelay,
                self.predelay_samples == hall_after(
                    hall,
                    l,
                    r,
                    start as int,
                    k as int,
                ).predelay_samples,
                self.low_cut == hall_after(hall, l, r, start as int, k as int).low_cut,
                self.params == hall.params,
                self.sample_rate == hall.sample_rate,
                self.diffusers == old(self).diffusers,
                self.lines == old(self).lines,
                self.diffusion == hall.diffusion,
                self.width == hall.width,
                self.size_glide == hall.size_glide,
                self.size_dirty == hall.size_dirty,
                self.feedback_dirty == hall.feedback_dirty,
                self.damping_dirty == hall.damping_dirty,
                self.modulation_dirty == hall.modulation_dirty,
                forall|i: int|
                    0 <= i < k ==> #[trigger] diffused[i] == hall_cut(
                        hall_after(hall, l, r, start as int, i),
                        l[start + i],
                        r[start + i],
                    ),
            decreases frames - k,
        {
            let dry = bus.l[start + k].add(bus.r[start + k]).mul(ratio(1, 2));
            self.predelay.write(dry);
            let delay = self.predelay_samples.advance();
            let delayed = self.predelay.read(delay);
            diffused[k] = delayed.sub(self.low_cut.next_sample(delayed));
            k = k + 1;
        }
        let mut gains = [S::of(0); CHUNK];
        k = 0;
        while k < frames
            invariant
                k <= frames <= CHUNK,
                hall == old(self)@,
                self.predelay.well_formed(),
                self.predelay@ == hall_after(hall, l, r, start as int, frames as int).predelay,
                self.predelay_samples == hall_after(
                    hall,
                    l,
                    r,
                    start as int,
                    frames as int,
                ).predelay_samples,
                self.low_cut == hall_after(hall, l, r, start as int, frames as int).low_cut,
                self.params == hall.params,
                self.sample_rate == hall.sample_rate,
                self.diffusers == old(self).diffusers,
                self.lines == old(self).lines,
                self.diffusion == hall_after(hall, l, r, start as int, k as int).diffusion,
                self.width == hall.width,
                self.size_glide == hall.size_glide,
                self.size_dirty == hall.size_dirty,
                self.feedback_dirty == hall.feedback_dirty,
                self.damping_dirty == hall.damping_dirty,
                self.modulation_dirty == hall.modulation_dirty,
                forall|i: int|
                    0 <= i < k ==> #[trigger] gains[i] == smoothed_next(
                        hall_after(hall, l, r, start as int, i).diffusion,
                    ).value,
            decreases frames - k,
        {
            gains[k] = self.diffusion.advance();
            k = k + 1;
        }
        let mut stage: usize = 0;
        while stage < DIFFUSERS
            invariant
                stage <= DIFFUSERS,
                frames <= CHUNK,
                glide == hall.size_glide,
                hall == old(self)@,
                hall.diffusers.len() == DIFFUSERS,
                self.diffusers@.len() == DIFFUSERS,
                forall|i: int|
                    0 <= i < DIFFUSERS ==> (#[trigger] self.diffusers[i]).well_formed(),
                forall|i: int|
                    0 <= i < stage ==> (#[trigger] self.diffusers[i])@ == hall_after(
                        hall,
                        l,
                        r,
                        start as int,
                        frames as int,
                    ).diffusers[i],
                forall|i: int|
                    stage <= i < DIFFUSERS ==> (#[trigger] self.diffusers[i])@
                        == hall.diffusers[i],
                forall|i: int|
                    0 <= i < frames ==> #[trigger] diffused[i] == hall_diffused(
                        hall_after(hall, l, r, start as int, i),
                        l[start + i],
                        r[start + i],
                        stage as int,
                    ),
                forall|i: int|
                    0 <= i < frames ==> #[trigger] gains[i] == smoothed_next(
                        hall_after(hall, l, r, start as int, i).diffusion,
                    ).value,
                self.predelay.well_formed(),
                self.predelay@ == hall_after(hall, l, r, start as int, frames as int).predelay,
                self.predelay_samples == hall_after(
                    hall,
                    l,
                    r,
                    start as int,
                    frames as int,
                ).predelay_samples,
                self.low_cut == hall_after(hall, l, r, start as int, frames as int).low_cut,
                self.params == hall.params,
                self.sample_rate == hall.sample_rate,
                self.lines == old(self).lines,
                self.diffusion == hall_after(hall, l, r, start as int, frames as int).diffusion,
                self.width == hall.width,
                self.size_glide == hall.size_glide,
                self.size_dirty == hall.size_dirty,
                self.feedback_dirty == hall.feedback_dirty,
                self.damping_dirty == hall.damping_dirty,
                self.modulation_dirty == hall.modulation_dirty,
            decreases DIFFUSERS - stage,
        {
            Self::diffuse_row(
                &mut self.diffusers[stage],
                &mut diffused,
                &gains,
                frames,
                glide,
                Ghost(hall),
                Ghost(l),
                Ghost(r),
                Ghost(start as int),
                Ghost(stage as int),
            );
            stage = stage + 1;
        }
        let gliding = !self.all_lines_at_rest();
        k = 0;
        while k < frames
            invariant
                k <= frames <= CHUNK,
                frames == end - start,
                end <= l.len(),
                l.len() == r.len(),
                bus.l@.len() == l.len(),
                bus.r@.len() == r.len(),
                glide == hall.size_glide,
                hall == old(self)@,
                lines_formed(self.lines@),
                line_states(self.lines@) == hall_after(
                    hall,
                    l,
                    r,
                    start as int,
                    k as int,
                ).lines,
                self.width == hall_after(hall, l, r, start as int, k as int).width,
                !gliding ==> forall|i: int|
                    0 <= i < LINES ==> line_at_rest((#[trigger] self.lines[i])@, glide),
                forall|i: int|
                    0 <= i < frames ==> #[trigger] diffused[i] == hall_diffused(
                        hall_after(hall, l, r, start as int, i),
                        l[start + i],
                        r[start + i],
                        DIFFUSERS as int,
                    ),
                forall|i: int|
                    0 <= i < l.len() ==> #[trigger] bus.l[i] == (if start <= i < start + k {
                        hall_out(hall_after(hall, l, r, start as int, i - start)).0
                    } else {
                        l[i]
                    }),
                forall|i: int|
                    0 <= i < r.len() ==> #[trigger] bus.r[i] == (if start <= i < start + k {
                        hall_out(hall_after(hall, l, r, start as int, i - start)).1
                    } else {
                        r[i]
                    }),
                self.diffusers@.len() == DIFFUSERS,
                forall|i: int|
                    0 <= i < DIFFUSERS ==> (#[trigger] self.diffusers[i]).well_formed(),
                forall|i: int|
                    0 <= i < DIFFUSERS ==> (#[trigger] self.diffusers[i])@ == hall_after(
                        hall,
                        l,
                        r,
                        start as int,
                        frames as int,
                    ).diffusers[i],
                self.predelay.well_formed(),
                self.predelay@ == hall_after(hall, l, r, start as int, frames as int).predelay,
                self.predelay_samples == hall_after(
                    hall,
                    l,
                    r,
                    start as int,
                    frames as int,
                ).predelay_samples,
                self.low_cut == hall_after(hall, l, r, start as int, frames as int).low_cut,
                self.params == hall.params,
                self.sample_rate == hall.sample_rate,
                self.diffusion == hall_after(hall, l, r, start as int, frames as int).diffusion,
                self.size_glide == hall.size_glide,
                self.size_dirty == hall.size_dirty,
                self.feedback_dirty == hall.feedback_dirty,
                self.damping_dirty == hall.damping_dirty,
                self.modulation_dirty == hall.modulation_dirty,
            decreases frames - k,
        {
            let ghost here = hall_after(hall, l, r, start as int, k as int);
            proof {
                lemma_hall_keeps(hall, l, r, start as int, k as int);
                if !gliding {
                    lemma_lines_stay_at_rest(here.lines, diffused[k as int], glide);
                }
            }
            let (wet_l, wet_r) = network_step(&mut self.lines, diffused[k], glide, gliding);
            let width = self.width.advance();
            let mid = wet_l.add(wet_r).mul(ratio(1, 2));
            let side = wet_l.sub(wet_r).mul(ratio(1, 2)).mul(width);
            bus.l[start + k] = mid.add(side).mul(ratio(185, 1000));
            bus.r[start + k] = mid.sub(side).mul(ratio(185, 1000));
            proof {
                assert forall|i: int| !gliding && 0 <= i < LINES implies line_at_rest(
                    (#[trigger] self.lines[i])@,
                    glide,
                ) by {
                    assert(self.lines[i]@ == line_states(self.lines@)[i]);
                }
            }
            k = k + 1;
        }
        proof {
            let after = hall_after(hall, l, r, start as int, frames as int);
            lemma_hall_keeps(hall, l, r, start as int, frames as int);
            assert(self@.diffusers =~= after.diffusers);
            assert(bus.l@ =~= hall_left(hall, l, r, start as int, end as int));
            assert(bus.r@ =~= hall_right(hall, l, r, start as int, end as int));
        }
    }

    /// Run one diffuser over a row.
    fn diffuse_row(
        diffuser: &mut Diffuser<S>,
        row: &mut [S; CHUNK],
        gains: &[S; CHUNK],
        frames: usize,
        glide: S,
        hall: Ghost<Hall<S>>,
        l: Ghost<Seq<S>>,
        r: Ghost<Seq<S>>,
        start: Ghost<int>,
        stage: Ghost<int>,
    )
        requires
            old(diffuser).well_formed(),
            frames <= CHUNK,
            glide == hall@.size_glide,
            hall@.diffusers.len() == DIFFUSERS,
            0 <= stage@ < DIFFUSERS,
            old(diffuser)@ == hall@.diffusers[stage@],
            forall|i: int|
                0 <= i < frames ==> #[trigger] old(row)[i] == hall_diffused(
                    hall_after(hall@, l@, r@, start@, i),
                    l@[start@ + i],
                    r@[start@ + i],
                    stage@,
                ),
            forall|i: int|
                0 <= i < frames ==> #[trigger] gains[i] == smoothed_next(
                    hall_after(hall@, l@, r@, start@, i).diffusion,
                ).value,
        ensures
            final(diffuser).well_formed(),
            final(diffuser)@ == hall_after(
                hall@,
                l@,
                r@,
                start@,
                frames as int,
            ).diffusers[stage@],
            forall|i: int|
                0 <= i < frames ==> #[trigger] final(row)[i] == hall_diffused(
                    hall_after(hall@, l@, r@, start@, i),
                    l@[start@ + i],
                    r@[start@ + i],
                    stage@ + 1,
                ),
    {
        let resting = diffuser.at_rest(glide);
        let mut k: usize = 0;
        while k < frames
            invariant
                k <= frames <= CHUNK,
                diffuser.well_formed(),
                glide == hall@.size_glide,
                hall@.diffusers.len() == DIFFUSERS,
                0 <= stage@ < DIFFUSERS,
                diffuser@ == hall_after(hall@, l@, r@, start@, k as int).diffusers[stage@],
                resting ==> diffuser_at_rest(diffuser@, glide),
                forall|i: int|
                    0 <= i < k ==> #[trigger] row[i] == hall_diffused(
                        hall_after(hall@, l@, r@, start@, i),
                        l@[start@ + i],
                        r@[start@ + i],
                        stage@ + 1,
                    ),
                forall|i: int|
                    k <= i < frames ==> #[trigger] row[i] == hall_diffused(
                        hall_after(hall@, l@, r@, start@, i),
                        l@[start@ + i],
                        r@[start@ + i],
                        stage@,
                    ),
                forall|i: int|
                    0 <= i < frames ==> #[trigger] gains[i] == smoothed_next(
                        hall_after(hall@, l@, r@, start@, i).diffusion,
                    ).value,
            decreases frames - k,
        {
            proof {
                lemma_hall_keeps(hall@, l@, r@, start@, k as int);
                if resting {
                    a_resting_diffuser_needs_no_glide(
                        diffuser@,
                        row[k as int],
                        gains[k as int],
                        glide,
                    );
                }
            }
            row[k] = if resting {
                diffuser.process_at_rest(row[k], gains[k])
            } else {
                diffuser.process(row[k], gains[k], glide)
            };
            k = k + 1;
        }
    }

    fn all_lines_at_rest(&self) -> (answer: bool)
        requires
            lines_formed(self.lines@),
        ensures
            answer == forall|i: int|
                0 <= i < LINES ==> line_at_rest((#[trigger] self.lines[i])@, self.size_glide),
    {
        let mut j: usize = 0;
        while j < LINES
            invariant
                j <= LINES,
                lines_formed(self.lines@),
                forall|i: int|
                    0 <= i < j ==> line_at_rest((#[trigger] self.lines[i])@, self.size_glide),
            decreases LINES - j,
        {
            if !self.lines[j].at_rest(self.size_glide) {
                return false;
            }
            j = j + 1;
        }
        true
    }
}

/// A row of lines at rest stays at rest, whatever it is fed.
proof fn lemma_lines_stay_at_rest<S: Sample>(lines: Seq<LineState<S>>, input: S, glide: S)
    requires
        forall|i: int| 0 <= i < lines.len() ==> line_at_rest(#[trigger] lines[i], glide),
    ensures
        forall|i: int|
            0 <= i < lines.len() ==> line_at_rest(
                #[trigger] lines_after(lines, input, glide)[i],
                glide,
            ),
{
}

/// Where a `size` asks a line to end up: no further than its ring allows with
/// the modulation at full depth.
pub open spec fn line_target<S: Curves>(line: int, past: nat, size: S, sample_rate: u32) -> S {
    min_of(
        S::of_spec(
            scaled_len_of(line_tuning_of(line), sample_rate, size_multiplier_of(size)),
        ),
        max_of(
            S::of_spec(past).minus(mod_depth_of(sample_rate)).minus(S::of_spec(4)),
            S::of_spec(1),
        ),
    )
}

/// Where a `size` asks a diffuser to end up.
pub open spec fn diffuser_target<S: Curves>(base: nat, past: nat, size: S, sample_rate: u32) -> S {
    reachable(past, S::of_spec(scaled_len_of(base, sample_rate, size_multiplier_of(size))))
}

/// The hall with every length asked to go where the `size` says. These are
/// targets: the lengths themselves glide, because moving a read head straight
/// to a new offset is a click.
pub open spec fn hall_resized<S: Curves>(hall: Hall<S>) -> Hall<S> {
    Hall {
        lines: Seq::new(
            hall.lines.len(),
            |i: int|
                LineState {
                    target_len: line_target(
                        i,
                        hall.lines[i].past.len(),
                        hall.params.size,
                        hall.sample_rate,
                    ),
                    loop_ap: DiffuserState {
                        target_len: diffuser_target(
                            loop_tuning_of(i),
                            hall.lines[i].loop_ap.past.len(),
                            hall.params.size,
                            hall.sample_rate,
                        ),
                        ..hall.lines[i].loop_ap
                    },
                    ..hall.lines[i]
                },
        ),
        diffusers: Seq::new(
            hall.diffusers.len(),
            |i: int|
                DiffuserState {
                    target_len: diffuser_target(
                        diffuser_tuning_of(i),
                        hall.diffusers[i].past.len(),
                        hall.params.size,
                        hall.sample_rate,
                    ),
                    ..hall.diffusers[i]
                },
        ),
        ..hall
    }
}

/// A line's feedback gain for a decay. A signal circulating the line loses
/// the gain every trip, so to fall 60 dB in `decay_s` it needs
/// `10^(-3 trip / decay)`; the trip is the line and its allpass. At most
/// `0.9995`, so that nothing rings for good.
pub open spec fn feedback_of<S: Curves>(line: LineState<S>, decay_s: S, sample_rate: u32) -> S {
    let seconds = line.target_len.plus(line.loop_ap.target_len).over(
        S::of_spec(sample_rate as nat),
    );
    clamp_of(
        S::of_spec(10).powf_spec(
            S::of_spec(3).negated().times(seconds).over(max_of(decay_s, ratio_of(5, 100))),
        ),
        S::of_spec(0),
        ratio_of(9_995, 10_000),
    )
}

/// The hall with every line's gain solved for the decay.
pub open spec fn hall_fed<S: Curves>(hall: Hall<S>) -> Hall<S> {
    Hall {
        lines: hall.lines.map_values(
            |line: LineState<S>|
                LineState {
                    feedback: feedback_of(line, hall.params.decay_s, hall.sample_rate),
                    ..line
                },
        ),
        ..hall
    }
}

/// The coefficient of a damping: one at none, which passes everything, and
/// `0.45` less at full.
pub open spec fn damping_coeff<S: Sample>(damping: S) -> S {
    crate::num::clamp_param_of(
        S::of_spec(1).minus(
            clamp_of(damping, S::of_spec(0), S::of_spec(1)).times(ratio_of(45, 100)),
        ),
        S::of_spec(0),
        S::of_spec(1),
    )
}

/// The hall with every line damped as the control says.
pub open spec fn hall_damped<S: Sample>(hall: Hall<S>) -> Hall<S> {
    Hall {
        lines: hall.lines.map_values(
            |line: LineState<S>|
                LineState {
                    damp: OnePoleLp {
                        state: line.damp.state,
                        coeff: damping_coeff(hall.params.damping),
                    },
                    ..line
                },
        ),
        ..hall
    }
}

/// The hall with every line modulated as deep as the control says.
pub open spec fn hall_modulated<S: Sample>(hall: Hall<S>) -> Hall<S> {
    Hall {
        lines: hall.lines.map_values(
            |line: LineState<S>|
                LineState {
                    mod_depth: mod_depth_of::<S>(hall.sample_rate).times(
                        clamp_of(hall.params.modulation, S::of_spec(0), S::of_spec(1)),
                    ),
                    ..line
                },
        ),
        ..hall
    }
}

/// The hall with everything resolved that was marked: the size first, because
/// it moves the lengths that the gains are solved for.
pub open spec fn hall_resolved<S: Curves>(hall: Hall<S>) -> Hall<S> {
    let sized = if hall.size_dirty {
        Hall { size_dirty: false, ..hall_resized(hall) }
    } else {
        hall
    };
    let fed = if hall.feedback_dirty {
        Hall { feedback_dirty: false, ..hall_fed(sized) }
    } else {
        sized
    };
    let damped = if hall.damping_dirty {
        Hall { damping_dirty: false, ..hall_damped(fed) }
    } else {
        fed
    };
    if hall.modulation_dirty {
        Hall { modulation_dirty: false, ..hall_modulated(damped) }
    } else {
        damped
    }
}

/// The low cut's coefficient for a corner between 20 and 500 Hz.
pub open spec fn low_cut_coeff<S: Curves>(low_cut_hz: S, sample_rate: u32) -> S {
    S::of_spec(1).minus(
        pole_decay(clamp_of(low_cut_hz, S::of_spec(20), S::of_spec(500)), sample_rate),
    )
}

/// The hall as it is made, before what it was made with is resolved.
pub open spec fn hall_new<S: Curves>(params: ReverbParams<S>, sample_rate: u32) -> Hall<S> {
    let zero = S::of_spec(0);
    let one = S::of_spec(1);
    let diffusion = clamp_of(params.diffusion, zero, one).times(ratio_of(72, 100));
    let width = clamp_of(params.width, zero, one);
    let predelay = predelay_of(params.predelay_ms, sample_rate);
    Hall {
        params,
        sample_rate,
        predelay: forgotten::<S>(ring_of(predelay_capacity_of::<S>(sample_rate))),
        predelay_samples: Smoothed {
            value: predelay,
            target: predelay,
            coeff: glide_coeff_of(ratio_of(12, 100), sample_rate),
        },
        low_cut: OnePoleLp { state: zero, coeff: low_cut_coeff(params.low_cut_hz, sample_rate) },
        diffusers: Seq::new(
            DIFFUSERS as nat,
            |i: int| diffuser_new(diffuser_tuning_of(i), sample_rate),
        ),
        lines: Seq::new(LINES as nat, |i: int| line_new(i, sample_rate)),
        diffusion: Smoothed {
            value: diffusion,
            target: diffusion,
            coeff: glide_coeff_of(ratio_of(2, 100), sample_rate),
        },
        width: Smoothed {
            value: width,
            target: width,
            coeff: glide_coeff_of(ratio_of(2, 100), sample_rate),
        },
        size_glide: glide_coeff_of(ratio_of(5, 100), sample_rate),
        size_dirty: true,
        feedback_dirty: true,
        damping_dirty: true,
        modulation_dirty: true,
    }
}

/// The hall after a parameter was taken.
pub open spec fn hall_taking<S: Curves>(hall: Hall<S>, id: u32, value: S) -> Hall<S> {
    let params = hall.params;
    let unit = clamp_of(value, S::of_spec(0), S::of_spec(1));
    if id == REVERB_PARAM_SIZE {
        // The gains are solved for the lengths a size moves.
        Hall {
            params: ReverbParams { size: unit, ..params },
            size_dirty: true,
            feedback_dirty: true,
            ..hall
        }
    } else if id == REVERB_PARAM_DECAY_S {
        let decay_s = clamp_of(value, ratio_of(2, 10), S::of_spec(20));
        Hall { params: ReverbParams { decay_s, ..params }, feedback_dirty: true, ..hall }
    } else if id == REVERB_PARAM_DAMPING {
        Hall { params: ReverbParams { damping: unit, ..params }, damping_dirty: true, ..hall }
    } else if id == REVERB_PARAM_PREDELAY_MS {
        let predelay_ms = clamp_of(value, S::of_spec(1), S::of_spec(200));
        Hall {
            params: ReverbParams { predelay_ms, ..params },
            predelay_samples: Smoothed {
                target: predelay_of(predelay_ms, hall.sample_rate),
                ..hall.predelay_samples
            },
            ..hall
        }
    } else if id == REVERB_PARAM_DIFFUSION {
        Hall {
            params: ReverbParams { diffusion: unit, ..params },
            diffusion: Smoothed { target: unit.times(ratio_of(72, 100)), ..hall.diffusion },
            ..hall
        }
    } else if id == REVERB_PARAM_WIDTH {
        Hall {
            params: ReverbParams { width: unit, ..params },
            width: Smoothed { target: unit, ..hall.width },
            ..hall
        }
    } else if id == REVERB_PARAM_MODULATION {
        Hall {
            params: ReverbParams { modulation: unit, ..params },
            modulation_dirty: true,
            ..hall
        }
    } else if id == REVERB_PARAM_LOW_CUT_HZ {
        let low_cut_hz = clamp_of(value, S::of_spec(20), S::of_spec(500));
        Hall {
            params: ReverbParams { low_cut_hz, ..params },
            low_cut: OnePoleLp {
                state: hall.low_cut.state,
                coeff: S::of_spec(1).minus(pole_decay(low_cut_hz, hall.sample_rate)),
            },
            ..hall
        }
    } else {
        hall
    }
}

/// The hall with its tail forgotten. The lines' modulation phases, every
/// length and every gain are kept.
pub open spec fn hall_cleared<S: Sample>(hall: Hall<S>) -> Hall<S> {
    Hall {
        predelay: forgotten::<S>(hall.predelay.len()),
        low_cut: OnePoleLp { state: S::of_spec(0), coeff: hall.low_cut.coeff },
        diffusers: hall.diffusers.map_values(
            |d: DiffuserState<S>| DiffuserState { past: forgotten::<S>(d.past.len()), ..d },
        ),
        lines: hall.lines.map_values(|line: LineState<S>| line_cleared(line)),
        ..hall
    }
}

/// The hall after the host skipped one frame.
pub open spec fn hall_skipped_once<S: Sample>(hall: Hall<S>) -> Hall<S> {
    Hall {
        diffusers: hall.diffusers.map_values(
            |d: DiffuserState<S>| diffuser_glided(d, hall.size_glide),
        ),
        lines: hall.lines.map_values(|line: LineState<S>| line_skipped(line, hall.size_glide)),
        ..hall
    }
}

/// The hall after the host skipped a number of frames.
pub open spec fn hall_skipped<S: Sample>(hall: Hall<S>, frames: nat) -> Hall<S>
    decreases frames,
{
    if frames == 0 {
        hall
    } else {
        hall_skipped_once(hall_skipped(hall, (frames - 1) as nat))
    }
}

/// The hall at another rate. The rings cannot be reallocated on the audio
/// thread and stay as they are; everything else is fitted.
pub open spec fn hall_refitted<S: Curves>(hall: Hall<S>, sample_rate: u32) -> Hall<S> {
    if sample_rate == hall.sample_rate {
        hall
    } else {
        let rate: u32 = if sample_rate < 1 {
            1
        } else {
            sample_rate
        };
        let moved = Hall {
            sample_rate: rate,
            lines: Seq::new(
                hall.lines.len(),
                |i: int| LineState { mod_step: mod_step_of(i, rate), ..hall.lines[i] },
            ),
            low_cut: OnePoleLp {
                state: hall.low_cut.state,
                coeff: low_cut_coeff(hall.params.low_cut_hz, rate),
            },
            ..hall
        };
        Hall {
            predelay_samples: Smoothed {
                value: hall.predelay_samples.value,
                target: predelay_of(hall.params.predelay_ms, rate),
                coeff: glide_coeff_of(ratio_of(12, 100), rate),
            },
            diffusion: Smoothed {
                coeff: glide_coeff_of(ratio_of(2, 100), rate),
                ..hall.diffusion
            },
            width: Smoothed { coeff: glide_coeff_of(ratio_of(2, 100), rate), ..hall.width },
            size_glide: glide_coeff_of(ratio_of(5, 100), rate),
            ..hall_modulated(hall_damped(hall_fed(hall_resized(moved))))
        }
    }
}

impl<S: Curves> ReverbEffect<S> {
    /// Allocates the network's rings; call from the control side.
    pub fn new(params: ReverbParams<S>, sample_rate: u32) -> (effect: Self)
        ensures
            effect.well_formed(),
            effect@ == hall_resolved(
                hall_new(params, if sample_rate < 1 { 1 } else { sample_rate }),
            ),
    {
        let sample_rate = at_least_one(sample_rate);
        let mut low_cut = OnePoleLp::new();
        low_cut.set_cutoff(clamp(params.low_cut_hz, S::of(20), S::of(500)), sample_rate);
        let mut diffusers: Vec<Diffuser<S>> = Vec::new();
        let mut stage: usize = 0;
        while stage < DIFFUSERS
            invariant
                stage <= DIFFUSERS,
                diffusers@.len() == stage,
                forall|i: int|
                    0 <= i < stage ==> (#[trigger] diffusers[i]).well_formed() && diffusers[i]@
                        == diffuser_new::<S>(diffuser_tuning_of(i), sample_rate),
            decreases DIFFUSERS - stage,
        {
            diffusers.push(Diffuser::new(diffuser_tuning(stage), sample_rate));
            stage = stage + 1;
        }
        let mut lines: Vec<Line<S>> = Vec::new();
        let mut index: usize = 0;
        while index < LINES
            invariant
                index <= LINES,
                lines@.len() == index,
                forall|i: int|
                    0 <= i < index ==> (#[trigger] lines[i]).well_formed() && lines[i]@
                        == line_new::<S>(i, sample_rate),
            decreases LINES - index,
        {
            lines.push(Line::new(sample_rate, index));
            index = index + 1;
        }
        let mut effect = ReverbEffect {
            params,
            sample_rate,
            predelay: Ring::with_capacity(predelay_capacity::<S>(sample_rate)),
            predelay_samples: Smoothed::new(
                predelay_samples(params.predelay_ms, sample_rate),
                ratio(12, 100),
                sample_rate,
            ),
            low_cut,
            diffusers,
            lines,
            diffusion: Smoothed::new(
                clamp(params.diffusion, S::of(0), S::of(1)).mul(ratio(72, 100)),
                ratio(2, 100),
                sample_rate,
            ),
            width: Smoothed::new(
                clamp(params.width, S::of(0), S::of(1)),
                ratio(2, 100),
                sample_rate,
            ),
            size_glide: glide_coeff(ratio(5, 100), sample_rate),
            size_dirty: true,
            feedback_dirty: true,
            damping_dirty: true,
            modulation_dirty: true,
        };
        proof {
            let fresh = hall_new(params, sample_rate);
            assert(effect@.diffusers =~= fresh.diffusers);
            assert(effect@.lines =~= fresh.lines);
        }
        effect.resolve_dirty();
        effect
    }

    /// The controls as they were last set.
    pub fn params(&self) -> (params: ReverbParams<S>)
        ensures
            params == self@.params,
    {
        self.params
    }

    /// Resolve whatever was marked since the last call, each once.
    pub fn resolve_dirty(&mut self)
        requires
            old(self).well_formed(),
        ensures
            final(self).well_formed(),
            final(self)@ == hall_resolved(old(self)@),
    {
        if self.size_dirty {
            self.do_resize();
            self.size_dirty = false;
        }
        if self.feedback_dirty {
            self.do_rebuild_feedback();
            self.feedback_dirty = false;
        }
        if self.damping_dirty {
            self.do_rebuild_damping();
            self.damping_dirty = false;
        }
        if self.modulation_dirty {
            self.do_rebuild_modulation();
            self.modulation_dirty = false;
        }
    }

    fn do_resize(&mut self)
        requires
            old(self).well_formed(),
        ensures
            final(self).well_formed(),
            final(self)@ == hall_resized(old(self)@),
    {
        let ghost before = self@;
        let ghost after = hall_resized(before);
        let multiplier = size_multiplier(self.params.size);
        let sample_rate = self.sample_rate;
        let mut i: usize = 0;
        while i < LINES
            invariant
                i <= LINES,
                before == old(self)@,
                after == hall_resized(before),
                multiplier == size_multiplier_of(before.params.size),
                sample_rate == before.sample_rate,
                self.well_formed(),
                self@ == (Hall { lines: self@.lines, ..before }),
                before.lines.len() == LINES,
                forall|j: int| 0 <= j < i ==> (#[trigger] self.lines[j])@ == after.lines[j],
                forall|j: int| i <= j < LINES ==> (#[trigger] self.lines[j])@ == before.lines[j],
            decreases LINES - i,
        {
            let line = &mut self.lines[i];
            let ceiling = S::of(line.ring.capacity()).sub(mod_depth_samples(sample_rate)).sub(
                S::of(4),
            );
            line.target_len = min(
                S::of(scaled_len(line_tuning(i), sample_rate, multiplier)),
                max(ceiling, S::of(1)),
            );
            line.loop_ap.set_len(S::of(scaled_len(loop_tuning(i), sample_rate, multiplier)));
            i = i + 1;
        }
        assert(self@.lines =~= after.lines);
        i = 0;
        while i < DIFFUSERS
            invariant
                i <= DIFFUSERS,
                before == old(self)@,
                after == hall_resized(before),
                multiplier == size_multiplier_of(before.params.size),
                sample_rate == before.sample_rate,
                self.well_formed(),
                self@ == (Hall {
                    lines: after.lines,
                    diffusers: self@.diffusers,
                    ..before
                }),
                before.diffusers.len() == DIFFUSERS,
                forall|j: int|
                    0 <= j < i ==> (#[trigger] self.diffusers[j])@ == after.diffusers[j],
                forall|j: int|
                    i <= j < DIFFUSERS ==> (#[trigger] self.diffusers[j])@
                        == before.diffusers[j],
            decreases DIFFUSERS - i,
        {
            let len: S = S::of(scaled_len(diffuser_tuning(i), sample_rate, multiplier));
            let diffuser = &mut self.diffusers[i];
            diffuser.set_len(len);
            i = i + 1;
        }
        assert(self@.diffusers =~= after.diffusers);
    }

    fn do_rebuild_feedback(&mut self)
        requires
            old(self).well_formed(),
        ensures
            final(self).well_formed(),
            final(self)@ == hall_fed(old(self)@),
    {
        let ghost before = self@;
        let ghost after = hall_fed(before);
        let decay_s = max(self.params.decay_s, ratio(5, 100));
        let sample_rate: S = S::of(self.sample_rate as usize);
        let mut i: usize = 0;
        while i < LINES
            invariant
                i <= LINES,
                before == old(self)@,
                after == hall_fed(before),
                decay_s == max_of(before.params.decay_s, ratio_of(5, 100)),
                sample_rate == S::of_spec(before.sample_rate as nat),
                self.well_formed(),
                self@ == (Hall { lines: self@.lines, ..before }),
                before.lines.len() == LINES,
                forall|j: int| 0 <= j < i ==> (#[trigger] self.lines[j])@ == after.lines[j],
                forall|j: int| i <= j < LINES ==> (#[trigger] self.lines[j])@ == before.lines[j],
            decreases LINES - i,
        {
            let line = &mut self.lines[i];
            let seconds = line.target_len.add(line.loop_ap.target_len).div(sample_rate);
            line.feedback = clamp(
                S::of(10).powf(S::of(3).neg().mul(seconds).div(decay_s)),
                S::of(0),
                ratio(9_995, 10_000),
            );
            i = i + 1;
        }
        assert(self@.lines =~= after.lines);
    }

    fn do_rebuild_damping(&mut self)
        requires
            old(self).well_formed(),
        ensures
            final(self).well_formed(),
            final(self)@ == hall_damped(old(self)@),
    {
        let ghost before = self@;
        let ghost after = hall_damped(before);
        let loss = clamp(self.params.damping, S::of(0), S::of(1)).mul(ratio(45, 100));
        let coeff = S::of(1).sub(loss);
        let mut i: usize = 0;
        while i < LINES
            invariant
                i <= LINES,
                before == old(self)@,
                after == hall_damped(before),
                coeff == S::of_spec(1).minus(
                    clamp_of(before.params.damping, S::of_spec(0), S::of_spec(1)).times(
                        ratio_of(45, 100),
                    ),
                ),
                self.well_formed(),
                self@ == (Hall { lines: self@.lines, ..before }),
                before.lines.len() == LINES,
                forall|j: int| 0 <= j < i ==> (#[trigger] self.lines[j])@ == after.lines[j],
                forall|j: int| i <= j < LINES ==> (#[trigger] self.lines[j])@ == before.lines[j],
            decreases LINES - i,
        {
            let line = &mut self.lines[i];
            line.damp.set_coeff(coeff);
            i = i + 1;
        }
        assert(self@.lines =~= after.lines);
    }

    fn do_rebuild_modulation(&mut self)
        requires
            old(self).well_formed(),
        ensures
            final(self).well_formed(),
            final(self)@ == hall_modulated(old(self)@),
    {
        let ghost before = self@;
        let ghost after = hall_modulated(before);
        let depth = mod_depth_samples::<S>(self.sample_rate).mul(
            clamp(self.params.modulation, S::of(0), S::of(1)),
        );
        let mut i: usize = 0;
        while i < LINES
            invariant
                i <= LINES,
                before == old(self)@,
                after == hall_modulated(before),
                depth == mod_depth_of::<S>(before.sample_rate).times(
                    clamp_of(before.params.modulation, S::of_spec(0), S::of_spec(1)),
                ),
                self.well_formed(),
                self@ == (Hall { lines: self@.lines, ..before }),
                before.lines.len() == LINES,
                forall|j: int| 0 <= j < i ==> (#[trigger] self.lines[j])@ == after.lines[j],
                forall|j: int| i <= j < LINES ==> (#[trigger] self.lines[j])@ == before.lines[j],
            decreases LINES - i,
        {
            let line = &mut self.lines[i];
            line.mod_depth = depth;
            i = i + 1;
        }
        assert(self@.lines =~= after.lines);
    }

    /// Empty the network: the pre-delay, the input filter, the diffusers and
    /// the lines.
    pub fn clear_tail(&mut self)
        requires
            old(self).well_formed(),
        ensures
            final(self).well_formed(),
            final(self)@ == hall_cleared(old(self)@),
    {
        let ghost before = self@;
        let ghost after = hall_cleared(before);
        self.predelay.clear();
        self.low_cut.reset();
        let ghost emptied = Hall { predelay: after.predelay, low_cut: after.low_cut, ..before };
        assert(self@ == emptied);
        let mut i: usize = 0;
        while i < DIFFUSERS
            invariant
                i <= DIFFUSERS,
                before == old(self)@,
                after == hall_cleared(before),
                emptied == (Hall {
                    predelay: after.predelay,
                    low_cut: after.low_cut,
                    ..before
                }),
                self.well_formed(),
                self@ == (Hall { diffusers: self@.diffusers, ..emptied }),
                before.diffusers.len() == DIFFUSERS,
                forall|j: int|
                    0 <= j < i ==> (#[trigger] self.diffusers[j])@ == after.diffusers[j],
                forall|j: int|
                    i <= j < DIFFUSERS ==> (#[trigger] self.diffusers[j])@
                        == before.diffusers[j],
            decreases DIFFUSERS - i,
        {
            let diffuser = &mut self.diffusers[i];
            diffuser.clear();
            i = i + 1;
        }
        assert(self@.diffusers =~= after.diffusers);
        i = 0;
        while i < LINES
            invariant
                i <= LINES,
                before == old(self)@,
                after == hall_cleared(before),
                self.well_formed(),
                self@ == (Hall { lines: self@.lines, ..after }),
                before.lines.len() == LINES,
                forall|j: int| 0 <= j < i ==> (#[trigger] self.lines[j])@ == after.lines[j],
                forall|j: int| i <= j < LINES ==> (#[trigger] self.lines[j])@ == before.lines[j],
            decreases LINES - i,
        {
            let line = &mut self.lines[i];
            line.clear();
            i = i + 1;
        }
        assert(self@.lines =~= after.lines);
    }

    /// A seek invalidates every sample in the tail: it is the sound of a part
    /// of the song the transport has left. A program change and a loop fold
    /// do not.
    pub fn on_discontinuity(&mut self, kind: Discontinuity)
        requires
            old(self).well_formed(),
        ensures
            final(self).well_formed(),
            final(self)@ == (if kind.leaves() {
                hall_cleared(old(self)@)
            } else {
                old(self)@
            }),
    {
        if !kind.invalidates_tails() {
            return;
        }
        self.clear_tail();
    }

    /// No lookahead and no partition window: nothing for a host to align.
    pub fn latency_frames(&self) -> (frames: u32)
        ensures
            frames == 0,
    {
        0
    }

    /// How long the hall goes on sounding: three times its decay and a quarter
    /// second for the pre-delay. A knob still travelling is a reason to keep
    /// running, whatever the decay says.
    pub fn tail_frames(&self) -> (frames: u32)
        ensures
            frames == hall_tail(self@),
    {
        if !self.predelay_samples.is_settled() || !self.diffusion.is_settled()
            || !self.width.is_settled() {
            return u32::MAX;
        }
        let decay = clamp(self.params.decay_s, ratio(2, 10), S::of(20));
        let seconds = S::of(3).mul(decay).add(ratio(1, 4));
        let frames = seconds.mul(rate_at_least_one(self.sample_rate));
        let whole: usize = min(frames.ceil(), S::of(0xffff_ffff)).whole();
        if whole > 0xffff_ffff {
            u32::MAX
        } else {
            whole as u32
        }
    }

    /// The eight lines' modulation never stops, and neither do the glides
    /// underneath it. Both are advanced here exactly as the sample loop would
    /// have.
    pub fn skip_block(&mut self, ctx: &ProcessContext)
        requires
            old(self).well_formed(),
        ensures
            final(self).well_formed(),
            final(self)@ == hall_skipped(old(self)@, ctx.frames as nat),
    {
        let mut frame: usize = 0;
        while frame < ctx.frames
            invariant
                frame <= ctx.frames,
                self.well_formed(),
                self@ == hall_skipped(old(self)@, frame as nat),
            decreases ctx.frames - frame,
        {
            self.skip_frame();
            frame = frame + 1;
        }
    }

    fn skip_frame(&mut self)
        requires
            old(self).well_formed(),
        ensures
            final(self).well_formed(),
            final(self)@ == hall_skipped_once(old(self)@),
    {
        let ghost before = self@;
        let ghost after = hall_skipped_once(before);
        let glide = self.size_glide;
        let mut i: usize = 0;
        while i < DIFFUSERS
            invariant
                i <= DIFFUSERS,
                glide == before.size_glide,
                before == old(self)@,
                after == hall_skipped_once(before),
                self.well_formed(),
                self@ == (Hall { diffusers: self@.diffusers, ..before }),
                before.diffusers.len() == DIFFUSERS,
                forall|j: int|
                    0 <= j < i ==> (#[trigger] self.diffusers[j])@ == after.diffusers[j],
                forall|j: int|
                    i <= j < DIFFUSERS ==> (#[trigger] self.diffusers[j])@
                        == before.diffusers[j],
            decreases DIFFUSERS - i,
        {
            let diffuser = &mut self.diffusers[i];
            diffuser.step_silent(glide);
            i = i + 1;
        }
        assert(self@.diffusers =~= after.diffusers);
        i = 0;
        while i < LINES
            invariant
                i <= LINES,
                glide == before.size_glide,
                before == old(self)@,
                after == hall_skipped_once(before),
                self.well_formed(),
                self@ == (Hall { lines: self@.lines, ..after }),
                before.lines.len() == LINES,
                forall|j: int| 0 <= j < i ==> (#[trigger] self.lines[j])@ == after.lines[j],
                forall|j: int| i <= j < LINES ==> (#[trigger] self.lines[j])@ == before.lines[j],
            decreases LINES - i,
        {
            let line = &mut self.lines[i];
            line.step_silent(glide);
            i = i + 1;
        }
        assert(self@.lines =~= after.lines);
    }

    /// Fit everything that needs no allocation to another rate.
    fn refit(&mut self, sample_rate: u32)
        requires
            old(self).well_formed(),
        ensures
            final(self).well_formed(),
            final(self)@ == hall_refitted(old(self)@, sample_rate),
    {
        if sample_rate == self.sample_rate {
            return;
        }
        let rate = at_least_one(sample_rate);
        let ghost before = Hall { sample_rate: rate, ..self@ };
        let ghost moved = Seq::new(
            LINES as nat,
            |j: int| LineState { mod_step: mod_step_of(j, rate), ..before.lines[j] },
        );
        self.sample_rate = rate;
        let mut i: usize = 0;
        while i < LINES
            invariant
                i <= LINES,
                rate >= 1,
                self.well_formed(),
                self@ == (Hall { lines: self@.lines, ..before }),
                before.lines.len() == LINES,
                moved == Seq::new(
                    LINES as nat,
                    |j: int| LineState { mod_step: mod_step_of(j, rate), ..before.lines[j] },
                ),
                forall|j: int| 0 <= j < i ==> (#[trigger] self.lines[j])@ == moved[j],
                forall|j: int| i <= j < LINES ==> (#[trigger] self.lines[j])@ == before.lines[j],
            decreases LINES - i,
        {
            let line = &mut self.lines[i];
            line.mod_step = ratio::<S>(mod_rate(i), 1000).div(rate_at_least_one(rate));
            i = i + 1;
        }
        assert(self@.lines =~= moved);
        self.low_cut.set_cutoff(clamp(self.params.low_cut_hz, S::of(20), S::of(500)), rate);
        self.do_resize();
        self.do_rebuild_feedback();
        self.do_rebuild_damping();
        self.do_rebuild_modulation();
        self.predelay_samples.set_time(ratio(12, 100), rate);
        self.predelay_samples.set_target(predelay_samples(self.params.predelay_ms, rate));
        self.diffusion.set_time(ratio(2, 100), rate);
        self.width.set_time(ratio(2, 100), rate);
        self.size_glide = glide_coeff(ratio(5, 100), rate);
    }

    /// Render a block: fit a changed rate, render between the parameter
    /// events, and put silence in place of what is not finite. A value that is
    /// not finite would otherwise stay in the network for good, so the tail
    /// then starts clean.
    pub fn process<B: Copy>(
        &mut self,
        ctx: &ProcessContext,
        bus: &mut StereoBus<S>,
        events_in: &EventList<S, B>,
    )
        requires
            old(self).well_formed(),
            old(bus).well_formed(),
        ensures
            final(self).well_formed(),
            final(bus).well_formed(),
            S::of_spec(0).finite_spec() ==> all_finite(
                final(bus).l@,
                fitting(ctx.frames as int, old(bus).l@.len() as int),
            ) && all_finite(
                final(bus).r@,
                fitting(ctx.frames as int, old(bus).l@.len() as int),
            ),
            exists|fitted: Self, split: Desk<Self, S>|
                fitted@ == hall_refitted(old(self)@, ctx.sample_rate)
                    && #[trigger] carried_out(
                    Desk { node: fitted, l: old(bus).l@, r: old(bus).r@ },
                    param_plan(
                        events_in@,
                        fitting(ctx.frames as int, old(bus).l@.len() as int),
                    ),
                    split,
                ) && hall_scrubbed(
                    split,
                    fitting(ctx.frames as int, old(bus).l@.len() as int),
                    *final(self),
                    final(bus).l@,
                    final(bus).r@,
                ),
    {
        self.refit(ctx.sample_rate);
        let ghost fitted = *self;
        let capacity: usize = bus.capacity();
        let frames: usize = if ctx.frames < capacity {
            ctx.frames
        } else {
            capacity
        };
        process_param_split(self, bus, events_in, frames);
        let ghost split = Desk { node: *self, l: bus.l@, r: bus.r@ };
        if scrub_non_finite(bus, frames) {
            self.clear_tail();
        }
        proof {
            if S::of_spec(0).finite_spec() {
                a_scrubbed_block_is_finite(split.l, frames as int);
                a_scrubbed_block_is_finite(split.r, frames as int);
            }
            assert(frames == fitting(ctx.frames as int, old(bus).l@.len() as int));
            assert(carried_out(
                Desk { node: fitted, l: old(bus).l@, r: old(bus).r@ },
                param_plan(events_in@, frames as int),
                split,
            ));
            assert(hall_scrubbed(split, frames as int, *self, bus.l@, bus.r@));
        }
    }
}

/// What is left of a rendered block once it has been scrubbed: what is not
/// finite is silence, and if anything was not, the tail is forgotten.
pub open spec fn hall_scrubbed<S: Sample>(
    split: Desk<ReverbEffect<S>, S>,
    frames: int,
    after: ReverbEffect<S>,
    l: Seq<S>,
    r: Seq<S>,
) -> bool {
    &&& l == scrubbed(split.l, frames)
    &&& r == scrubbed(split.r, frames)
    &&& after@ == (if all_finite(split.l, frames) && all_finite(split.r, frames) {
        split.node@
    } else {
        hall_cleared(split.node@)
    })
}

/// How long a hall goes on sounding.
pub open spec fn hall_tail<S: Sample>(hall: Hall<S>) -> u32 {
    if !settled(hall.predelay_samples) || !settled(hall.diffusion) || !settled(hall.width) {
        u32::MAX
    } else {
        let decay = clamp_of(hall.params.decay_s, ratio_of(2, 10), S::of_spec(20));
        let seconds = S::of_spec(3).times(decay).plus(ratio_of(1, 4));
        let frames = seconds.times(rate_from(hall.sample_rate));
        let whole = min_of(frames.ceil_spec(), S::of_spec(0xffff_ffff)).whole_spec();
        if whole > 0xffff_ffff {
            u32::MAX
        } else {
            whole as u32
        }
    }
}

impl<S: Curves> RangeProcessor<S> for ReverbEffect<S> {
    open spec fn ready(&self) -> bool {
        self.well_formed()
    }

    open spec fn renders(
        &self,
        l: Seq<S>,
        r: Seq<S>,
        start: int,
        end: int,
        after: &Self,
        new_l: Seq<S>,
        new_r: Seq<S>,
    ) -> bool {
        let hall = hall_resolved(self@);
        &&& after@ == hall_after(hall, l, r, start, end - start)
        &&& new_l == hall_left(hall, l, r, start, end)
        &&& new_r == hall_right(hall, l, r, start, end)
    }

    open spec fn takes(&self, id: u32, value: S, after: &Self) -> bool {
        after@ == hall_taking(self@, id, value)
    }

    fn process_range(&mut self, bus: &mut StereoBus<S>, start: usize, end: usize) {
        self.resolve_dirty();
        let ghost hall = self@;
        let ghost l = bus.l@;
        let ghost r = bus.r@;
        let mut at: usize = start;
        assert(bus.l@ =~= hall_left(hall, l, r, start as int, start as int));
        assert(bus.r@ =~= hall_right(hall, l, r, start as int, start as int));
        while at < end
            invariant
                start <= at <= end <= l.len(),
                l.len() == r.len(),
                self.well_formed(),
                bus.well_formed(),
                self@ == hall_after(hall, l, r, start as int, at - start),
                bus.l@ == hall_left(hall, l, r, start as int, at as int),
                bus.r@ == hall_right(hall, l, r, start as int, at as int),
            decreases end - at,
        {
            let next: usize = if end - at > CHUNK {
                at + CHUNK
            } else {
                end
            };
            let ghost here = self@;
            let ghost here_l = bus.l@;
            let ghost here_r = bus.r@;
            self.process_chunk(bus, at, next);
            proof {
                let first = at - start;
                assert forall|count: int| 0 <= count <= next - at implies #[trigger] hall_after(
                    here,
                    here_l,
                    here_r,
                    at as int,
                    count,
                ) == hall_after(hall, l, r, start as int, first + count) by {
                    lemma_hall_reads_its_frames(here, here_l, here_r, l, r, at as int, count);
                    rendering_in_pieces_is_rendering(hall, l, r, start as int, first, count);
                }
                assert(bus.l@ =~= hall_left(hall, l, r, start as int, next as int));
                assert(bus.r@ =~= hall_right(hall, l, r, start as int, next as int));
            }
            at = next;
        }
    }

    fn apply_param(&mut self, id: u32, value: S) {
        let unit = clamp(value, S::of(0), S::of(1));
        match id {
            REVERB_PARAM_SIZE => {
                self.params.size = unit;
                self.size_dirty = true;
                self.feedback_dirty = true;
            },
            REVERB_PARAM_DECAY_S => {
                self.params.decay_s = clamp(value, ratio(2, 10), S::of(20));
                self.feedback_dirty = true;
            },
            REVERB_PARAM_DAMPING => {
                self.params.damping = unit;
                self.damping_dirty = true;
            },
            REVERB_PARAM_PREDELAY_MS => {
                self.params.predelay_ms = clamp(value, S::of(1), S::of(200));
                let samples = predelay_samples(self.params.predelay_ms, self.sample_rate);
                self.predelay_samples.set_target(samples);
            },
            REVERB_PARAM_DIFFUSION => {
                self.params.diffusion = unit;
                self.diffusion.set_target(unit.mul(ratio(72, 100)));
            },
            REVERB_PARAM_WIDTH => {
                self.params.width = unit;
                self.width.set_target(unit);
            },
            REVERB_PARAM_MODULATION => {
                self.params.modulation = unit;
                self.modulation_dirty = true;
            },
            REVERB_PARAM_LOW_CUT_HZ => {
                self.params.low_cut_hz = clamp(value, S::of(20), S::of(500));
                self.low_cut.set_cutoff(self.params.low_cut_hz, self.sample_rate);
            },
            _ => {},
        }
    }
}

/// A hall that slept comes back where it would have been: every length and
/// every modulation phase is what rendering any audio would have made it.
pub proof fn skipping_keeps_the_clock<S: Sample>(
    hall: Hall<S>,
    l: Seq<S>,
    r: Seq<S>,
    start: int,
    frames: nat,
    index: int,
)
    requires
        0 <= index,
    ensures
        ({
            let rendered = hall_after(hall, l, r, start, frames as int);
            let skipped = hall_skipped(hall, frames);
            &&& rendered.lines.len() == skipped.lines.len() == hall.lines.len()
            &&& rendered.diffusers.len() == skipped.diffusers.len() == hall.diffusers.len()
            &&& index < hall.lines.len() ==> {
                &&& skipped.lines[index].phase == rendered.lines[index].phase
                &&& skipped.lines[index].len == rendered.lines[index].len
                &&& skipped.lines[index].loop_ap.len == rendered.lines[index].loop_ap.len
            }
            &&& index < hall.diffusers.len() ==> skipped.diffusers[index].len
                == rendered.diffusers[index].len
        }),
    decreases frames,
{
    lemma_clock_parts(hall, l, r, start, frames, index);
}

proof fn lemma_clock_parts<S: Sample>(
    hall: Hall<S>,
    l: Seq<S>,
    r: Seq<S>,
    start: int,
    frames: nat,
    index: int,
)
    requires
        0 <= index,
    ensures
        ({
            let rendered = hall_after(hall, l, r, start, frames as int);
            let skipped = hall_skipped(hall, frames);
            &&& rendered.size_glide == skipped.size_glide
            &&& rendered.lines.len() == skipped.lines.len() == hall.lines.len()
            &&& rendered.diffusers.len() == skipped.diffusers.len() == hall.diffusers.len()
            &&& index < hall.lines.len() ==> {
                let a = rendered.lines[index];
                let b = skipped.lines[index];
                &&& a.phase == b.phase
                &&& a.mod_step == b.mod_step
                &&& a.len == b.len
                &&& a.target_len == b.target_len
                &&& a.loop_ap.len == b.loop_ap.len
                &&& a.loop_ap.target_len == b.loop_ap.target_len
            }
            &&& index < hall.diffusers.len() ==> {
                let a = rendered.diffusers[index];
                let b = skipped.diffusers[index];
                &&& a.len == b.len
                &&& a.target_len == b.target_len
            }
        }),
    decreases frames,
{
    if frames > 0 {
        lemma_clock_parts(hall, l, r, start, (frames - 1) as nat, index);
    }
}

/// Forgetting the tail leaves the clock alone: every length, target and
/// modulation phase stays, and so does every control and every feedback gain.
pub proof fn clearing_keeps_the_clock<S: Sample>(hall: Hall<S>, index: int)
    requires
        0 <= index,
    ensures
        ({
            let cleared = hall_cleared(hall);
            &&& cleared.params == hall.params
            &&& cleared.lines.len() == hall.lines.len()
            &&& cleared.diffusers.len() == hall.diffusers.len()
            &&& index < hall.lines.len() ==> {
                &&& cleared.lines[index].phase == hall.lines[index].phase
                &&& cleared.lines[index].len == hall.lines[index].len
                &&& cleared.lines[index].target_len == hall.lines[index].target_len
                &&& cleared.lines[index].loop_ap.len == hall.lines[index].loop_ap.len
                &&& cleared.lines[index].feedback == hall.lines[index].feedback
            }
            &&& index < hall.diffusers.len() ==> cleared.diffusers[index].len
                == hall.diffusers[index].len
        }),
{
}

/// A resolved hall has nothing left to resolve, so resolving again before the
/// next parameter changes nothing.
pub proof fn resolving_twice_is_resolving<S: Curves>(hall: Hall<S>)
    ensures
        hall_resolved(hall_resolved(hall)) == hall_resolved(hall),
{
}

/// Whether a hall has room in every ring.
pub open spec fn hall_roomy<S: Sample>(hall: Hall<S>) -> bool {
    &&& hall.predelay.len() > 0
    &&& forall|i: int|
        0 <= i < hall.diffusers.len() ==> (#[trigger] hall.diffusers[i]).past.len() > 0
    &&& forall|i: int|
        0 <= i < hall.lines.len() ==> (#[trigger] hall.lines[i]).past.len() > 0
            && hall.lines[i].loop_ap.past.len() > 0
}

/// Whether none of a hall's knobs is travelling.
pub open spec fn hall_still<S: Sample>(hall: Hall<S>) -> bool {
    &&& smoothed_next(hall.predelay_samples) == hall.predelay_samples
    &&& smoothed_next(hall.diffusion) == hall.diffusion
    &&& smoothed_next(hall.width) == hall.width
}

/// Forgetting what a frame left behind is what sleeping through it would have
/// come to.
proof fn lemma_clearing_a_frame<S: Sample>(hall: Hall<S>, l: S, r: S)
    requires
        hall_roomy(hall),
        hall_still(hall),
    ensures
        hall_cleared(hall_next(hall, l, r)) == hall_skipped_once(hall_cleared(hall)),
        hall_roomy(hall_next(hall, l, r)),
        hall_still(hall_next(hall, l, r)),
{
    let after = hall_next(hall, l, r);
    let cleared = hall_cleared(after);
    let skipped = hall_skipped_once(hall_cleared(hall));
    assert(cleared.predelay =~= skipped.predelay);
    assert forall|i: int| 0 <= i < hall.diffusers.len() implies (
    #[trigger] after.diffusers[i]).past.len() == hall.diffusers[i].past.len() by {}
    assert forall|i: int| 0 <= i < hall.lines.len() implies (#[trigger] after.lines[i]).past.len()
        == hall.lines[i].past.len() && after.lines[i].loop_ap.past.len()
        == hall.lines[i].loop_ap.past.len() by {}
    assert(cleared.diffusers =~= skipped.diffusers);
    assert(cleared.lines =~= skipped.lines);
}

/// A seek leaves nothing but the clock: whatever was played, the hall is where
/// an empty one would be that had slept as long.
pub proof fn a_seek_leaves_nothing_but_the_clock<S: Sample>(
    hall: Hall<S>,
    l: Seq<S>,
    r: Seq<S>,
    start: int,
    frames: nat,
)
    requires
        hall_roomy(hall),
        hall_still(hall),
    ensures
        hall_cleared(hall_after(hall, l, r, start, frames as int)) == hall_skipped(
            hall_cleared(hall),
            frames,
        ),
        hall_roomy(hall_after(hall, l, r, start, frames as int)),
        hall_still(hall_after(hall, l, r, start, frames as int)),
    decreases frames,
{
    if frames > 0 {
        a_seek_leaves_nothing_but_the_clock(hall, l, r, start, (frames - 1) as nat);
        let before = hall_after(hall, l, r, start, frames - 1);
        lemma_clearing_a_frame(before, l[start + frames - 1], r[start + frames - 1]);
    }
}

/// A hall as it is made remembers nothing.
pub proof fn a_fresh_hall_remembers_nothing<S: Curves>(params: ReverbParams<S>, sample_rate: u32)
    ensures
        ({
            let fresh = hall_resolved(hall_new(params, sample_rate));
            hall_cleared(fresh) == fresh && hall_roomy(fresh)
        }),
{
    let made = hall_new(params, sample_rate);
    let fresh = hall_resolved(made);
    let cleared = hall_cleared(fresh);
    assert(cleared.predelay =~= fresh.predelay);
    assert forall|i: int| 0 <= i < DIFFUSERS implies #[trigger] cleared.diffusers[i]
        == fresh.diffusers[i] && fresh.diffusers[i].past.len() > 0 by {
        assert(fresh.diffusers[i].past == made.diffusers[i].past);
        assert(cleared.diffusers[i].past =~= fresh.diffusers[i].past);
    }
    assert forall|i: int| 0 <= i < LINES implies #[trigger] cleared.lines[i] == fresh.lines[i]
        && fresh.lines[i].past.len() > 0 && fresh.lines[i].loop_ap.past.len() > 0 by {
        assert(fresh.lines[i].past == made.lines[i].past);
        assert(fresh.lines[i].loop_ap.past == made.lines[i].loop_ap.past);
        assert(cleared.lines[i].past =~= fresh.lines[i].past);
        assert(cleared.lines[i].loop_ap.past =~= fresh.lines[i].loop_ap.past);
    }
    assert(cleared.diffusers =~= fresh.diffusers);
    assert(cleared.lines =~= fresh.lines);
}

/// After a seek a hall answers as a fresh one does: whatever was played before,
/// what it makes of what follows is, sample for sample, what a fresh hall makes
/// of it that slept until then. No part of its decay is lost.
pub proof fn a_hall_after_a_seek_answers_as_a_fresh_one<S: Curves>(
    params: ReverbParams<S>,
    sample_rate: u32,
    played_l: Seq<S>,
    played_r: Seq<S>,
    start: int,
    frames: nat,
    l: Seq<S>,
    r: Seq<S>,
    from: int,
    to: int,
)
    requires
        hall_still(hall_resolved(hall_new(params, sample_rate))),
    ensures
        ({
            let fresh = hall_resolved(hall_new(params, sample_rate));
            let played = hall_after(fresh, played_l, played_r, start, frames as int);
            let sought = hall_cleared(played);
            let slept = hall_skipped(fresh, frames);
            &&& hall_left(sought, l, r, from, to) == hall_left(slept, l, r, from, to)
            &&& hall_right(sought, l, r, from, to) == hall_right(slept, l, r, from, to)
        }),
{
    let fresh = hall_resolved(hall_new(params, sample_rate));
    a_fresh_hall_remembers_nothing(params, sample_rate);
    a_seek_leaves_nothing_but_the_clock(fresh, played_l, played_r, start, frames);
}

} // verus!
