//! Stereo state-variable filter effect with low-, band-, and high-pass modes.

use vstd::prelude::*;

use crate::bus::{
    a_scrubbed_block_is_finite, all_finite, fitting, scrub_non_finite, scrubbed, StereoBus,
};
use crate::curves::{tanh_of_nothing_is_nothing, Curves};
use crate::eq::CONTROL_RATE_FRAMES;
use crate::event::EventList;
use crate::filter::{
    apply_drive, at_rest, damping_of, drive_gain, drive_makeup, driven, nothing_leaves_the_ceiling,
    prewarped, soft_ceiling, svf_coeffs, svf_lerped, svf_outputs, svf_silent, svf_stepped,
    svf_tuned, under_ceiling, Svf, SvfCoeffs,
};
use crate::node::ProcessContext;
use crate::num::{
    clamp, clamp_of, max, max_of, nothing_times, products_commute, ratio, ratio_of, Fixed, Sample,
};
use crate::smooth::{
    a_settled_lag_stays, advancing_in_pieces_is_advancing, glide_coeff_of, settled, smoothed_after,
    smoothed_next, Smoothed,
};
use crate::split::{carried_out, param_plan, process_param_split, Desk, RangeProcessor};

verus! {

pub const FILTER_PARAM_CUTOFF_HZ: u32 = 0;

pub const FILTER_PARAM_RESONANCE: u32 = 1;

pub const FILTER_PARAM_MODE: u32 = 2;

pub const FILTER_PARAM_SLOPE: u32 = 3;

pub const FILTER_PARAM_DRIVE: u32 = 4;

#[derive(Clone, Copy, Debug, PartialEq, Eq, Structural)]
pub enum FilterMode {
    LowPass,
    BandPass,
    HighPass,
}

#[derive(Clone, Copy, Debug, PartialEq, Eq, Structural)]
pub enum FilterSlope {
    Db12,
    Db24,
}

impl FilterMode {
    pub open spec fn at(index: nat) -> Self {
        if index == 0 {
            FilterMode::LowPass
        } else if index == 1 {
            FilterMode::BandPass
        } else {
            FilterMode::HighPass
        }
    }

    /// The mode at an index, the last one for what is past it.
    pub fn from_index(index: usize) -> (mode: Self)
        ensures
            mode == Self::at(index as nat),
    {
        match index {
            0 => FilterMode::LowPass,
            1 => FilterMode::BandPass,
            _ => FilterMode::HighPass,
        }
    }
}

impl FilterSlope {
    pub open spec fn at(index: nat) -> Self {
        if index == 0 {
            FilterSlope::Db12
        } else {
            FilterSlope::Db24
        }
    }

    /// The slope at an index, the last one for what is past it.
    pub fn from_index(index: usize) -> (slope: Self)
        ensures
            slope == Self::at(index as nat),
    {
        match index {
            0 => FilterSlope::Db12,
            _ => FilterSlope::Db24,
        }
    }
}

/// The controls of the filter.
#[derive(Clone, Copy, Debug)]
pub struct FilterParams<S> {
    pub cutoff_hz: S,
    pub resonance: S,
    pub mode: FilterMode,
    pub slope: FilterSlope,
    pub drive: S,
}

/// Two state-variable stages: 12 dB an octave uses the first and 24 dB both.
#[derive(Clone, Copy, Debug)]
pub struct SvfCascade<S> {
    pub first: Svf<S>,
    pub second: Svf<S>,
}

/// The coefficients of each stage. Two stages in a row multiply their peaks,
/// so each of them is damped by the root: the peak stays a single stage's.
pub open spec fn cascade_coeffs<S: Curves>(
    slope: FilterSlope,
    cutoff_hz: S,
    resonance: S,
    sample_rate: u32,
) -> SvfCoeffs<S> {
    match slope {
        FilterSlope::Db12 => svf_tuned(cutoff_hz, resonance, sample_rate),
        FilterSlope::Db24 => svf_coeffs(
            prewarped(cutoff_hz, sample_rate),
            damping_of(resonance).sqrt_spec(),
        ),
    }
}

/// The output a mode takes of a stage.
pub open spec fn picked<S>(outputs: (S, S, S), mode: FilterMode) -> S {
    match mode {
        FilterMode::LowPass => outputs.0,
        FilterMode::BandPass => outputs.1,
        FilterMode::HighPass => outputs.2,
    }
}

fn pick<S: Sample>(outputs: (S, S, S), mode: FilterMode) -> (out: S)
    ensures
        out == picked(outputs, mode),
{
    match mode {
        FilterMode::LowPass => outputs.0,
        FilterMode::BandPass => outputs.1,
        FilterMode::HighPass => outputs.2,
    }
}

/// The cascade after a sample, and what it makes of it.
pub open spec fn cascade_ticked<S: Sample>(
    cascade: SvfCascade<S>,
    input: S,
    coeffs: SvfCoeffs<S>,
    mode: FilterMode,
    slope: FilterSlope,
) -> (SvfCascade<S>, S) {
    let once = picked(svf_outputs(cascade.first, input, coeffs), mode);
    let first = svf_stepped(cascade.first, input, coeffs);
    match slope {
        FilterSlope::Db12 => (SvfCascade { first, ..cascade }, once),
        FilterSlope::Db24 => (
            SvfCascade { first, second: svf_stepped(cascade.second, once, coeffs) },
            picked(svf_outputs(cascade.second, once, coeffs), mode),
        ),
    }
}

impl<S: Curves> SvfCascade<S> {
    pub fn new() -> (cascade: Self)
        ensures
            cascade == (SvfCascade { first: svf_silent::<S>(), second: svf_silent() }),
    {
        SvfCascade { first: Svf::new(), second: Svf::new() }
    }

    /// The coefficients for an output of a cascade. A state-variable stage has
    /// all of its outputs at once, so they share one set, and which of them is
    /// heard does not move it.
    pub fn coeffs(
        _output: FilterMode,
        slope: FilterSlope,
        cutoff_hz: S,
        resonance: S,
        sample_rate: u32,
    ) -> (coeffs: SvfCoeffs<S>)
        ensures
            coeffs == cascade_coeffs(slope, cutoff_hz, resonance, sample_rate),
    {
        let single = SvfCoeffs::for_cutoff(cutoff_hz, resonance, sample_rate);
        match slope {
            FilterSlope::Db12 => single,
            FilterSlope::Db24 => {
                let damping = single.damping.sqrt();
                let g = single.g;
                let a1 = S::of(1).div(S::of(1).add(g.mul(g.add(damping))));
                let a2 = g.mul(a1);
                SvfCoeffs { g, a1, a2, a3: g.mul(a2), damping }
            },
        }
    }

    pub fn tick_with(
        &mut self,
        input: S,
        coeffs: &SvfCoeffs<S>,
        mode: FilterMode,
        slope: FilterSlope,
    ) -> (out: S)
        ensures
            (*final(self), out) == cascade_ticked(*old(self), input, *coeffs, mode, slope),
    {
        let once = pick(self.first.tick_with(input, coeffs), mode);
        match slope {
            FilterSlope::Db12 => once,
            FilterSlope::Db24 => pick(self.second.tick_with(once, coeffs), mode),
        }
    }

    pub fn is_at_rest(&self, epsilon: S) -> (answer: bool)
        ensures
            answer == cascade_resting(*self, epsilon),
    {
        self.first.is_at_rest(epsilon) && self.second.is_at_rest(epsilon)
    }
}

/// Whether what a cascade has stored is inaudible.
pub open spec fn cascade_resting<S: Sample>(cascade: SvfCascade<S>, epsilon: S) -> bool {
    &&& at_rest(cascade.first.low, epsilon)
    &&& at_rest(cascade.first.band, epsilon)
    &&& at_rest(cascade.second.low, epsilon)
    &&& at_rest(cascade.second.band, epsilon)
}

/// A stereo state-variable filter.
#[derive(Clone, Copy, Debug)]
pub struct FilterEffect<S> {
    pub left: SvfCascade<S>,
    pub right: SvfCascade<S>,
    pub params: FilterParams<S>,
    pub sample_rate: u32,
    /// The level the drive is anchored at.
    pub reference: S,
    pub cutoff: Smoothed<S>,
    pub resonance: Smoothed<S>,
    pub drive: Smoothed<S>,
}

/// One channel of a frame: driven, filtered, and under the voice ceiling, so
/// that a resonant peak on a hot input bends.
pub open spec fn channel_of<S: Curves>(
    f: FilterEffect<S>,
    cascade: SvfCascade<S>,
    input: S,
    drive: S,
    coeffs: SvfCoeffs<S>,
) -> (SvfCascade<S>, S) {
    let (after, out) = cascade_ticked(
        cascade,
        driven(input, drive, drive_makeup(drive, f.reference)),
        coeffs,
        f.params.mode,
        f.params.slope,
    );
    (after, under_ceiling(out))
}

/// One frame at a coefficient set.
pub open spec fn filter_frame<S: Curves>(
    f: FilterEffect<S>,
    coeffs: SvfCoeffs<S>,
    l: S,
    r: S,
) -> (FilterEffect<S>, (S, S)) {
    let drive = smoothed_next(f.drive);
    let (left, out_l) = channel_of(f, f.left, l, drive.value, coeffs);
    let (right, out_r) = channel_of(f, f.right, r, drive.value, coeffs);
    (FilterEffect { left, right, drive, ..f }, (out_l, out_r))
}

/// The coefficients at the smoothers' present values.
pub open spec fn coeffs_now<S: Curves>(f: FilterEffect<S>) -> SvfCoeffs<S> {
    cascade_coeffs(f.params.slope, f.cutoff.value, f.resonance.value, f.sample_rate)
}

/// The effect with its smoothers moved to the end of a chunk.
pub open spec fn chunk_opened<S: Sample>(f: FilterEffect<S>, count: nat) -> FilterEffect<S> {
    FilterEffect {
        cutoff: smoothed_after(f.cutoff, count),
        resonance: smoothed_after(f.resonance, count),
        ..f
    }
}

/// How far along a chunk a frame is: nothing at its first, one at its last.
pub open spec fn chunk_share<S: Sample>(n: nat, count: nat) -> S {
    if count > 1 {
        S::of_spec(n).over(S::of_spec((count - 1) as nat))
    } else {
        S::of_spec(1)
    }
}

/// A frame of a chunk: the coefficients run in a line from those at the
/// chunk's start to those at its end.
pub open spec fn chunk_coeffs<S: Curves>(f: FilterEffect<S>, n: nat, count: nat) -> SvfCoeffs<S> {
    svf_lerped(coeffs_now(f), coeffs_now(chunk_opened(f, count)), chunk_share(n, count))
}

/// The effect after the first `n` frames of a chunk of `count`.
pub open spec fn chunk_after<S: Curves>(
    f: FilterEffect<S>,
    l: Seq<S>,
    r: Seq<S>,
    pos: int,
    count: nat,
    n: nat,
) -> FilterEffect<S>
    decreases n,
{
    if n == 0 {
        chunk_opened(f, count)
    } else {
        filter_frame(
            chunk_after(f, l, r, pos, count, (n - 1) as nat),
            chunk_coeffs(f, (n - 1) as nat, count),
            l[pos + n - 1],
            r[pos + n - 1],
        ).0
    }
}

/// What a chunk puts out at its frame `n`.
pub open spec fn chunk_out<S: Curves>(
    f: FilterEffect<S>,
    l: Seq<S>,
    r: Seq<S>,
    pos: int,
    count: nat,
    n: nat,
) -> (S, S) {
    filter_frame(
        chunk_after(f, l, r, pos, count, n),
        chunk_coeffs(f, n, count),
        l[pos + n],
        r[pos + n],
    ).1
}

/// The frames of the chunk at a place: one control tick, or what is left.
pub open spec fn chunk_len(pos: int, end: int) -> nat {
    if end - pos > CONTROL_RATE_FRAMES {
        CONTROL_RATE_FRAMES as nat
    } else {
        (end - pos) as nat
    }
}

/// The effect after a range, taken in chunks.
pub open spec fn filter_after<S: Curves>(
    f: FilterEffect<S>,
    l: Seq<S>,
    r: Seq<S>,
    pos: int,
    end: int,
) -> FilterEffect<S>
    decreases end - pos,
{
    if pos >= end {
        f
    } else {
        let count = chunk_len(pos, end);
        filter_after(chunk_after(f, l, r, pos, count, count), l, r, pos + count, end)
    }
}

/// What a range puts out at a place.
pub open spec fn filter_out<S: Curves>(
    f: FilterEffect<S>,
    l: Seq<S>,
    r: Seq<S>,
    pos: int,
    end: int,
    at: int,
) -> (S, S)
    decreases end - pos,
{
    if pos >= end {
        (l[at], r[at])
    } else {
        let count = chunk_len(pos, end);
        if at < pos + count {
            chunk_out(f, l, r, pos, count, (at - pos) as nat)
        } else {
            filter_out(
                chunk_after(f, l, r, pos, count, count),
                l,
                r,
                pos + count,
                end,
                at,
            )
        }
    }
}

/// The left channel with a range rendered.
pub open spec fn filter_left<S: Curves>(
    f: FilterEffect<S>,
    l: Seq<S>,
    r: Seq<S>,
    start: int,
    end: int,
) -> Seq<S> {
    Seq::new(
        l.len(),
        |i: int|
            if start <= i < end {
                filter_out(f, l, r, start, end, i).0
            } else {
                l[i]
            },
    )
}

/// The right channel with a range rendered.
pub open spec fn filter_right<S: Curves>(
    f: FilterEffect<S>,
    l: Seq<S>,
    r: Seq<S>,
    start: int,
    end: int,
) -> Seq<S> {
    Seq::new(
        r.len(),
        |i: int|
            if start <= i < end {
                filter_out(f, l, r, start, end, i).1
            } else {
                r[i]
            },
    )
}

/// The effect after a parameter was taken.
pub open spec fn filter_taking<S: Sample>(f: FilterEffect<S>, id: u32, value: S) -> FilterEffect<
    S,
> {
    let params = f.params;
    let unit = clamp_of(value, S::of_spec(0), S::of_spec(1));
    if id == FILTER_PARAM_CUTOFF_HZ {
        let cutoff_hz = max_of(value, S::of_spec(0));
        FilterEffect {
            params: FilterParams { cutoff_hz, ..params },
            cutoff: Smoothed { target: cutoff_hz, ..f.cutoff },
            ..f
        }
    } else if id == FILTER_PARAM_RESONANCE {
        FilterEffect {
            params: FilterParams { resonance: unit, ..params },
            resonance: Smoothed { target: unit, ..f.resonance },
            ..f
        }
    } else if id == FILTER_PARAM_MODE {
        let mode = FilterMode::at(value.round_spec().whole_spec());
        FilterEffect { params: FilterParams { mode, ..params }, ..f }
    } else if id == FILTER_PARAM_SLOPE {
        let slope = FilterSlope::at(value.round_spec().whole_spec());
        FilterEffect { params: FilterParams { slope, ..params }, ..f }
    } else if id == FILTER_PARAM_DRIVE {
        FilterEffect {
            params: FilterParams { drive: unit, ..params },
            drive: Smoothed { target: unit, ..f.drive },
            ..f
        }
    } else {
        f
    }
}

/// A lag at rest on a value.
pub open spec fn resting_on<S: Curves>(value: S, time_s: S, sample_rate: u32) -> Smoothed<S> {
    Smoothed { value, target: value, coeff: glide_coeff_of(time_s, sample_rate) }
}

/// A filter as it is made, its lags where its controls are.
pub open spec fn filter_new<S: Curves>(
    params: FilterParams<S>,
    sample_rate: u32,
    reference: S,
) -> FilterEffect<S> {
    FilterEffect {
        left: SvfCascade { first: svf_silent(), second: svf_silent() },
        right: SvfCascade { first: svf_silent(), second: svf_silent() },
        params,
        sample_rate,
        reference,
        cutoff: resting_on(
            max_of(params.cutoff_hz, S::of_spec(0)),
            ratio_of(3, 1000),
            sample_rate,
        ),
        resonance: resting_on(
            clamp_of(params.resonance, S::of_spec(0), S::of_spec(1)),
            ratio_of(1, 100),
            sample_rate,
        ),
        drive: resting_on(
            clamp_of(params.drive, S::of_spec(0), S::of_spec(1)),
            ratio_of(5, 1000),
            sample_rate,
        ),
    }
}

impl<S: Curves> FilterEffect<S> {
    /// A filter whose drive is anchored at the `reference` level.
    pub fn new(params: FilterParams<S>, sample_rate: u32, reference: S) -> (effect: Self)
        ensures
            effect == filter_new(params, sample_rate, reference),
    {
        FilterEffect {
            left: SvfCascade::new(),
            right: SvfCascade::new(),
            params,
            sample_rate,
            reference,
            cutoff: Smoothed::new(
                max(params.cutoff_hz, S::of(0)),
                ratio(3, 1000),
                sample_rate,
            ),
            resonance: Smoothed::new(
                clamp(params.resonance, S::of(0), S::of(1)),
                ratio(1, 100),
                sample_rate,
            ),
            drive: Smoothed::new(
                clamp(params.drive, S::of(0), S::of(1)),
                ratio(5, 1000),
                sample_rate,
            ),
        }
    }

    pub fn params(&self) -> (params: FilterParams<S>)
        ensures
            params == self.params,
    {
        self.params
    }

    /// Replace the parameter set: jump straight to the new values, there is
    /// nothing to click coming from a fresh load.
    pub fn set_params(&mut self, params: FilterParams<S>)
        ensures
            ({
                let cutoff = max_of(params.cutoff_hz, S::of_spec(0));
                let resonance = clamp_of(params.resonance, S::of_spec(0), S::of_spec(1));
                let drive = clamp_of(params.drive, S::of_spec(0), S::of_spec(1));
                *final(self) == FilterEffect {
                    params,
                    cutoff: Smoothed { value: cutoff, target: cutoff, ..old(self).cutoff },
                    resonance: Smoothed {
                        value: resonance,
                        target: resonance,
                        ..old(self).resonance
                    },
                    drive: Smoothed { value: drive, target: drive, ..old(self).drive },
                    ..*old(self)
                }
            }),
    {
        self.params = params;
        self.cutoff.reset_to(max(params.cutoff_hz, S::of(0)));
        self.resonance.reset_to(clamp(params.resonance, S::of(0), S::of(1)));
        self.drive.reset_to(clamp(params.drive, S::of(0), S::of(1)));
    }

    /// Rest is decided from the cascades' own state, because the settling time
    /// of a state-variable filter runs from a few samples to effectively
    /// forever.
    pub fn is_at_rest(&self, epsilon: S) -> (answer: bool)
        ensures
            answer == (settled(self.cutoff) && settled(self.resonance) && settled(self.drive)
                && cascade_resting(self.left, epsilon) && cascade_resting(self.right, epsilon)),
    {
        self.cutoff.is_settled() && self.resonance.is_settled() && self.drive.is_settled()
            && self.left.is_at_rest(epsilon) && self.right.is_at_rest(epsilon)
    }

    /// One frame at a coefficient set.
    fn process_frame(&mut self, coeffs: &SvfCoeffs<S>, l: S, r: S) -> (out: (S, S))
        ensures
            (*final(self), out) == filter_frame(*old(self), *coeffs, l, r),
    {
        let drive = self.drive.advance();
        let mode = self.params.mode;
        let slope = self.params.slope;
        let in_l = apply_drive(l, drive, self.reference);
        let in_r = apply_drive(r, drive, self.reference);
        let out_l = soft_ceiling(self.left.tick_with(in_l, coeffs, mode, slope));
        let out_r = soft_ceiling(self.right.tick_with(in_r, coeffs, mode, slope));
        (out_l, out_r)
    }

    /// One chunk of a range, its coefficients derived once at either end.
    fn process_chunk(&mut self, bus: &mut StereoBus<S>, pos: usize, count: usize)
        requires
            old(bus).well_formed(),
            pos + count <= old(bus).l@.len(),
        ensures
            final(bus).well_formed(),
            final(bus).l@.len() == old(bus).l@.len(),
            *final(self) == chunk_after(
                *old(self),
                old(bus).l@,
                old(bus).r@,
                pos as int,
                count as nat,
                count as nat,
            ),
            forall|i: int|
                0 <= i < old(bus).l@.len() ==> (#[trigger] final(bus).l@[i]) == (if pos <= i
                    < pos + count {
                    chunk_out(
                        *old(self),
                        old(bus).l@,
                        old(bus).r@,
                        pos as int,
                        count as nat,
                        (i - pos) as nat,
                    ).0
                } else {
                    old(bus).l@[i]
                }),
            forall|i: int|
                0 <= i < old(bus).l@.len() ==> (#[trigger] final(bus).r@[i]) == (if pos <= i
                    < pos + count {
                    chunk_out(
                        *old(self),
                        old(bus).l@,
                        old(bus).r@,
                        pos as int,
                        count as nat,
                        (i - pos) as nat,
                    ).1
                } else {
                    old(bus).r@[i]
                }),
    {
        let ghost before = *self;
        let ghost l = bus.l@;
        let ghost r = bus.r@;
        let slope = self.params.slope;
        let capacity: usize = bus.capacity();
        let output = self.params.mode;
        let start_coeffs = SvfCascade::coeffs(
            output,
            slope,
            self.cutoff.value(),
            self.resonance.value(),
            self.sample_rate,
        );
        let cutoff_end = self.cutoff.advance_by(count);
        let resonance_end = self.resonance.advance_by(count);
        let end_coeffs = SvfCascade::coeffs(
            output,
            slope,
            cutoff_end,
            resonance_end,
            self.sample_rate,
        );
        let mut n: usize = 0;
        while n < count
            invariant
                n <= count,
                pos + count <= capacity == l.len(),
                l.len() == r.len(),
                bus.l@.len() == l.len(),
                bus.r@.len() == r.len(),
                start_coeffs == coeffs_now(before),
                end_coeffs == coeffs_now(chunk_opened(before, count as nat)),
                *self == chunk_after(before, l, r, pos as int, count as nat, n as nat),
                forall|i: int|
                    0 <= i < l.len() ==> (#[trigger] bus.l@[i]) == (if pos <= i < pos + n {
                        chunk_out(before, l, r, pos as int, count as nat, (i - pos) as nat).0
                    } else {
                        l[i]
                    }),
                forall|i: int|
                    0 <= i < r.len() ==> (#[trigger] bus.r@[i]) == (if pos <= i < pos + n {
                        chunk_out(before, l, r, pos as int, count as nat, (i - pos) as nat).1
                    } else {
                        r[i]
                    }),
            decreases count - n,
        {
            let t = if count > 1 {
                S::of(n).div(S::of(count - 1))
            } else {
                S::of(1)
            };
            let coeffs = start_coeffs.lerp(&end_coeffs, t);
            let at: usize = pos + n;
            let ghost here = *self;
            let (out_l, out_r) = self.process_frame(&coeffs, bus.l[at], bus.r[at]);
            proof {
                let frame = filter_frame(here, coeffs, l[at as int], r[at as int]);
                assert(coeffs == chunk_coeffs(before, n as nat, count as nat));
                assert(*self == frame.0);
                assert((out_l, out_r) == frame.1);
                assert(frame.1 == chunk_out(
                    before,
                    l,
                    r,
                    pos as int,
                    count as nat,
                    n as nat,
                ));
            }
            bus.l[at] = out_l;
            bus.r[at] = out_r;
            n = n + 1;
        }
    }

    /// Render a block between the parameter events, and put silence in place
    /// of what is not finite; if anything was not, the filters start empty.
    pub fn process<B: Copy>(
        &mut self,
        ctx: &ProcessContext,
        bus: &mut StereoBus<S>,
        events_in: &EventList<S, B>,
    )
        requires
            old(bus).well_formed(),
        ensures
            final(bus).well_formed(),
            S::of_spec(0).finite_spec() ==> all_finite(
                final(bus).l@,
                fitting(ctx.frames as int, old(bus).l@.len() as int),
            ) && all_finite(
                final(bus).r@,
                fitting(ctx.frames as int, old(bus).l@.len() as int),
            ),
            exists|split: Desk<Self, S>| #[trigger]
                carried_out(
                    Desk { node: *old(self), l: old(bus).l@, r: old(bus).r@ },
                    param_plan(
                        events_in@,
                        fitting(ctx.frames as int, old(bus).l@.len() as int),
                    ),
                    split,
                ) && filter_scrubbed(
                    split,
                    fitting(ctx.frames as int, old(bus).l@.len() as int),
                    *final(self),
                    final(bus).l@,
                    final(bus).r@,
                ),
    {
        let capacity: usize = bus.capacity();
        let frames: usize = if ctx.frames < capacity {
            ctx.frames
        } else {
            capacity
        };
        process_param_split(self, bus, events_in, frames);
        let ghost split = Desk { node: *self, l: bus.l@, r: bus.r@ };
        if scrub_non_finite(bus, frames) {
            self.left = SvfCascade::new();
            self.right = SvfCascade::new();
        }
        proof {
            if S::of_spec(0).finite_spec() {
                a_scrubbed_block_is_finite(split.l, frames as int);
                a_scrubbed_block_is_finite(split.r, frames as int);
            }
            assert(frames == fitting(ctx.frames as int, old(bus).l@.len() as int));
            assert(carried_out(
                Desk { node: *old(self), l: old(bus).l@, r: old(bus).r@ },
                param_plan(events_in@, frames as int),
                split,
            ));
            assert(filter_scrubbed(split, frames as int, *self, bus.l@, bus.r@));
        }
    }
}

/// What is left of a rendered block once it has been scrubbed.
pub open spec fn filter_scrubbed<S: Sample>(
    split: Desk<FilterEffect<S>, S>,
    frames: int,
    after: FilterEffect<S>,
    l: Seq<S>,
    r: Seq<S>,
) -> bool {
    &&& l == scrubbed(split.l, frames)
    &&& r == scrubbed(split.r, frames)
    &&& after == (if all_finite(split.l, frames) && all_finite(split.r, frames) {
        split.node
    } else {
        FilterEffect {
            left: SvfCascade { first: svf_silent(), second: svf_silent() },
            right: SvfCascade { first: svf_silent(), second: svf_silent() },
            ..split.node
        }
    })
}

/// A chunk reads only its own frames.
proof fn lemma_chunk_reads_its_frames<S: Curves>(
    f: FilterEffect<S>,
    l: Seq<S>,
    r: Seq<S>,
    other_l: Seq<S>,
    other_r: Seq<S>,
    pos: int,
    count: nat,
    n: nat,
)
    requires
        n <= count,
        forall|i: int| pos <= i < pos + count ==> #[trigger] l[i] == other_l[i],
        forall|i: int| pos <= i < pos + count ==> #[trigger] r[i] == other_r[i],
    ensures
        chunk_after(f, l, r, pos, count, n) == chunk_after(f, other_l, other_r, pos, count, n),
    decreases n,
{
    if n > 0 {
        lemma_chunk_reads_its_frames(f, l, r, other_l, other_r, pos, count, (n - 1) as nat);
        assert(l[pos + n - 1] == other_l[pos + n - 1]);
        assert(r[pos + n - 1] == other_r[pos + n - 1]);
    }
}

impl<S: Curves> RangeProcessor<S> for FilterEffect<S> {
    open spec fn ready(&self) -> bool {
        true
    }

    open spec fn renders(
        &self,
        l: Seq<S>,
        r: Seq<S>,
        start: int,
        end: int,
        after: &Self,
        new_l: Seq<S>,
        new_r: Seq<S>,
    ) -> bool {
        &&& *after == filter_after(*self, l, r, start, end)
        &&& new_l == filter_left(*self, l, r, start, end)
        &&& new_r == filter_right(*self, l, r, start, end)
    }

    open spec fn takes(&self, id: u32, value: S, after: &Self) -> bool {
        *after == filter_taking(*self, id, value)
    }

    /// Walks the range in control ticks, deriving the coefficients once at
    /// each chunk's start and once at its end, and running in a line between
    /// the two.
    fn process_range(&mut self, bus: &mut StereoBus<S>, start: usize, end: usize) {
        let ghost before = *self;
        let ghost l = bus.l@;
        let ghost r = bus.r@;
        let mut pos: usize = start;
        while pos < end
            invariant
                start <= pos <= end <= l.len(),
                l.len() == r.len(),
                bus.well_formed(),
                bus.l@.len() == l.len(),
                filter_after(*self, l, r, pos as int, end as int) == filter_after(
                    before,
                    l,
                    r,
                    start as int,
                    end as int,
                ),
                forall|i: int|
                    pos <= i < end ==> #[trigger] filter_out(
                        *self,
                        l,
                        r,
                        pos as int,
                        end as int,
                        i,
                    ) == filter_out(before, l, r, start as int, end as int, i),
                forall|i: int|
                    0 <= i < l.len() ==> (#[trigger] bus.l@[i]) == (if start <= i < pos {
                        filter_out(before, l, r, start as int, end as int, i).0
                    } else {
                        l[i]
                    }),
                forall|i: int|
                    0 <= i < r.len() ==> (#[trigger] bus.r@[i]) == (if start <= i < pos {
                        filter_out(before, l, r, start as int, end as int, i).1
                    } else {
                        r[i]
                    }),
            decreases end - pos,
        {
            let count: usize = if end - pos > CONTROL_RATE_FRAMES {
                CONTROL_RATE_FRAMES
            } else {
                end - pos
            };
            let ghost here = *self;
            let ghost here_l = bus.l@;
            let ghost here_r = bus.r@;
            self.process_chunk(bus, pos, count);
            proof {
                let chunk = count as nat;
                assert(chunk == chunk_len(pos as int, end as int));
                assert forall|n: nat| n <= chunk implies #[trigger] chunk_after(
                    here,
                    here_l,
                    here_r,
                    pos as int,
                    chunk,
                    n,
                ) == chunk_after(here, l, r, pos as int, chunk, n) by {
                    lemma_chunk_reads_its_frames(
                        here,
                        here_l,
                        here_r,
                        l,
                        r,
                        pos as int,
                        chunk,
                        n,
                    );
                }
                assert forall|i: int| pos <= i < pos + count implies chunk_out(
                    here,
                    here_l,
                    here_r,
                    pos as int,
                    chunk,
                    (i - pos) as nat,
                ) == #[trigger] filter_out(here, l, r, pos as int, end as int, i) by {
                    let n = (i - pos) as nat;
                    assert(chunk_after(here, here_l, here_r, pos as int, chunk, n)
                        == chunk_after(here, l, r, pos as int, chunk, n));
                    assert(here_l[i] == l[i]);
                    assert(here_r[i] == r[i]);
                }
                assert forall|i: int| 0 <= i < l.len() implies (#[trigger] bus.l@[i]) == (if start
                    <= i < pos + count {
                    filter_out(before, l, r, start as int, end as int, i).0
                } else {
                    l[i]
                }) by {
                    if pos <= i < pos + count {
                        assert(filter_out(here, l, r, pos as int, end as int, i) == filter_out(
                            before,
                            l,
                            r,
                            start as int,
                            end as int,
                            i,
                        ));
                    } else {
                        assert(bus.l@[i] == here_l[i]);
                    }
                }
                assert forall|i: int| 0 <= i < r.len() implies (#[trigger] bus.r@[i]) == (if start
                    <= i < pos + count {
                    filter_out(before, l, r, start as int, end as int, i).1
                } else {
                    r[i]
                }) by {
                    if pos <= i < pos + count {
                        assert(filter_out(here, l, r, pos as int, end as int, i) == filter_out(
                            before,
                            l,
                            r,
                            start as int,
                            end as int,
                            i,
                        ));
                    } else {
                        assert(bus.r@[i] == here_r[i]);
                    }
                }
                assert forall|i: int| pos + count <= i < end implies #[trigger] filter_out(
                    *self,
                    l,
                    r,
                    pos + count,
                    end as int,
                    i,
                ) == filter_out(before, l, r, start as int, end as int, i) by {
                    assert(filter_out(here, l, r, pos as int, end as int, i) == filter_out(
                        before,
                        l,
                        r,
                        start as int,
                        end as int,
                        i,
                    ));
                }
            }
            pos = pos + count;
        }
        assert(bus.l@ =~= filter_left(before, l, r, start as int, end as int));
        assert(bus.r@ =~= filter_right(before, l, r, start as int, end as int));
    }

    fn apply_param(&mut self, id: u32, value: S) {
        let unit = clamp(value, S::of(0), S::of(1));
        match id {
            FILTER_PARAM_CUTOFF_HZ => {
                self.params.cutoff_hz = max(value, S::of(0));
                self.cutoff.set_target(self.params.cutoff_hz);
            },
            FILTER_PARAM_RESONANCE => {
                self.params.resonance = unit;
                self.resonance.set_target(unit);
            },
            FILTER_PARAM_MODE => {
                self.params.mode = FilterMode::from_index(value.round().whole());
            },
            FILTER_PARAM_SLOPE => {
                self.params.slope = FilterSlope::from_index(value.round().whole());
            },
            FILTER_PARAM_DRIVE => {
                self.params.drive = unit;
                self.drive.set_target(unit);
            },
            _ => {},
        }
    }
}

/// However long a range is, its smoothers end it exactly where that many
/// single steps would have taken them: a knob's settle time is its own, not
/// the block's.
pub proof fn a_range_moves_the_smoothers_by_its_frames<S: Curves>(
    f: FilterEffect<S>,
    l: Seq<S>,
    r: Seq<S>,
    pos: int,
    end: int,
)
    requires
        pos <= end,
    ensures
        filter_after(f, l, r, pos, end).cutoff == smoothed_after(f.cutoff, (end - pos) as nat),
        filter_after(f, l, r, pos, end).resonance == smoothed_after(
            f.resonance,
            (end - pos) as nat,
        ),
        filter_after(f, l, r, pos, end).drive == smoothed_after(f.drive, (end - pos) as nat),
    decreases end - pos,
{
    if pos < end {
        let count = chunk_len(pos, end);
        let next = chunk_after(f, l, r, pos, count, count);
        lemma_chunk_moves_the_smoothers(f, l, r, pos, count, count);
        a_range_moves_the_smoothers_by_its_frames(next, l, r, pos + count, end);
        let rest = (end - pos - count) as nat;
        advancing_in_pieces_is_advancing(f.cutoff, count, rest);
        advancing_in_pieces_is_advancing(f.resonance, count, rest);
        advancing_in_pieces_is_advancing(f.drive, count, rest);
    }
}

proof fn lemma_chunk_moves_the_smoothers<S: Curves>(
    f: FilterEffect<S>,
    l: Seq<S>,
    r: Seq<S>,
    pos: int,
    count: nat,
    n: nat,
)
    ensures
        ({
            let after = chunk_after(f, l, r, pos, count, n);
            &&& after.cutoff == smoothed_after(f.cutoff, count)
            &&& after.resonance == smoothed_after(f.resonance, count)
            &&& after.drive == smoothed_after(f.drive, n)
        }),
    decreases n,
{
    if n > 0 {
        lemma_chunk_moves_the_smoothers(f, l, r, pos, count, (n - 1) as nat);
    }
}

proof fn lemma_silent_cascade(
    cascade: SvfCascade<Fixed>,
    coeffs: SvfCoeffs<Fixed>,
    mode: FilterMode,
    slope: FilterSlope,
)
    requires
        cascade_resting(cascade, Fixed::of_spec(0)),
    ensures
        cascade_ticked(cascade, Fixed::of_spec(0), coeffs, mode, slope) == (
            cascade,
            Fixed::of_spec(0),
        ),
{
    let zero = Fixed::of_spec(0);
    assert forall|c: Fixed| #[trigger] c.times(zero) == zero by {
        nothing_times(c);
        products_commute(c, zero);
    }
    assert(svf_outputs(cascade.first, zero, coeffs) == (zero, zero, zero));
    assert(svf_stepped(cascade.first, zero, coeffs) == cascade.first);
    assert(svf_outputs(cascade.second, zero, coeffs) == (zero, zero, zero));
    assert(svf_stepped(cascade.second, zero, coeffs) == cascade.second);
}

/// A filter that has nothing stored and may be left alone stays silent,
/// whatever it is tuned to: a silent frame comes out silent, and changes
/// nothing.
pub proof fn a_resting_filter_stays_silent(f: FilterEffect<Fixed>, coeffs: SvfCoeffs<Fixed>)
    requires
        settled(f.drive),
        cascade_resting(f.left, Fixed::of_spec(0)),
        cascade_resting(f.right, Fixed::of_spec(0)),
    ensures
        filter_frame(f, coeffs, Fixed::of_spec(0), Fixed::of_spec(0)) == (
            f,
            (Fixed::of_spec(0), Fixed::of_spec(0)),
        ),
{
    let zero = Fixed::of_spec(0);
    let drive = f.drive.value;
    a_settled_lag_stays(f.drive);
    nothing_times(drive_gain(drive));
    tanh_of_nothing_is_nothing();
    nothing_times(drive_makeup(drive, f.reference));
    assert(driven(zero, drive, drive_makeup(drive, f.reference)) == zero);
    lemma_silent_cascade(f.left, coeffs, f.params.mode, f.params.slope);
    lemma_silent_cascade(f.right, coeffs, f.params.mode, f.params.slope);
    nothing_leaves_the_ceiling(zero);
}

} // verus!
