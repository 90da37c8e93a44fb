//! A plate reverb: eight damped feedback combs in parallel for each channel,
//! then four Schroeder allpasses in series.

use vstd::prelude::*;

use crate::bus::{
    a_scrubbed_block_is_finite, all_finite, fitting, scrub_non_finite, scrubbed, StereoBus,
};
use crate::curves::Curves;
use crate::event::EventList;
use crate::filter::{leaked, pole_decay, OnePoleLp};
use crate::fold::{
    after_frames, left_of, lemma_frame_rendered, lemma_nothing_rendered, right_of,
};
use crate::node::{Discontinuity, ProcessContext};
use crate::num::{
    a_gain_scales_a_bound, clamp, clamp_of, is_gain, magnitude, max, max_of, min, min_of,
    nothing_times, products_commute, ratio, ratio_of, times_one, within, Fixed, Sample, FRACTION,
};
use crate::reverb::{length_sum, rate_from, ring_of};
use crate::ring::{
    a_lag_nears_its_input, a_reading_stays_within, excess_left, forgotten, heard, newest_within,
    reachable, remembered, samples_back, Ring,
};
use crate::smooth::{
    at_least_one, glide_coeff, glide_coeff_of, glided, settled, smoothed_next, Smoothed,
};
use crate::split::{carried_out, param_plan, process_param_split, Desk, RangeProcessor};

verus! {

pub const NUM_COMBS: usize = 8;

pub const NUM_ALLPASS: usize = 4;

/// How much longer the right channel's taps are than the left's.
pub const STEREO_SPREAD: usize = 23;

pub const PLATE_PARAM_SIZE: u32 = 0;

pub const PLATE_PARAM_DECAY_S: u32 = 1;

pub const PLATE_PARAM_DAMPING: u32 = 2;

pub const PLATE_PARAM_WIDTH: u32 = 3;

pub const PLATE_PARAM_PREDELAY_MS: u32 = 4;

/// The controls of the plate.
#[derive(Clone, Copy, Debug)]
pub struct PlateParams<S> {
    pub size: S,
    pub decay_s: S,
    pub damping: S,
    pub width: S,
    pub predelay_ms: S,
}

/// Comb lengths in samples at 44.1 kHz, for the left channel.
pub open spec fn comb_tuning_of(index: int) -> nat {
    if index == 0 {
        1116
    } else if index == 1 {
        1188
    } else if index == 2 {
        1277
    } else if index == 3 {
        1356
    } else if index == 4 {
        1422
    } else if index == 5 {
        1491
    } else if index == 6 {
        1557
    } else {
        1617
    }
}

pub fn comb_tuning(index: usize) -> (len: usize)
    ensures
        len == comb_tuning_of(index as int),
{
    match index {
        0 => 1116,
        1 => 1188,
        2 => 1277,
        3 => 1356,
        4 => 1422,
        5 => 1491,
        6 => 1557,
        _ => 1617,
    }
}

/// Allpass lengths in samples at 44.1 kHz, for the left channel.
pub open spec fn allpass_tuning_of(index: int) -> nat {
    if index == 0 {
        556
    } else if index == 1 {
        441
    } else if index == 2 {
        341
    } else {
        225
    }
}

fn allpass_tuning(index: usize) -> (len: usize)
    ensures
        len == allpass_tuning_of(index as int),
{
    match index {
        0 => 556,
        1 => 441,
        2 => 341,
        _ => 225,
    }
}

/// The multiplier of a `size`: half to one and a half, evenly, so that the
/// middle lands on the tuning.
pub open spec fn plate_multiplier_of<S: Sample>(size: S) -> S {
    ratio_of::<S>(1, 2).plus(
        clamp_of(size, S::of_spec(0), S::of_spec(1)).times(
            ratio_of::<S>(3, 2).minus(ratio_of(1, 2)),
        ),
    )
}

fn plate_multiplier<S: Sample>(size: S) -> (multiplier: S)
    ensures
        multiplier == plate_multiplier_of(size),
{
    ratio::<S>(1, 2).add(
        clamp(size, S::of(0), S::of(1)).mul(ratio::<S>(3, 2).sub(ratio(1, 2))),
    )
}

/// Samples of a base tap length at a rate and a multiplier.
pub open spec fn scale_len_of<S: Sample>(base: nat, sample_rate: u32, multiplier: S) -> nat {
    let len = S::of_spec(base).times(multiplier).times(S::of_spec(sample_rate as nat)).over(
        S::of_spec(44_100),
    ).round_spec().whole_spec();
    if len < 1 {
        1
    } else {
        len
    }
}

pub fn scale_len<S: Sample>(base: usize, sample_rate: u32, multiplier: S) -> (len: usize)
    ensures
        len == scale_len_of(base as nat, sample_rate, multiplier),
{
    let len: usize = S::of(base).mul(multiplier).mul(S::of(sample_rate as usize)).div(
        S::of(44_100),
    ).round().whole();
    if len < 1 {
        1
    } else {
        len
    }
}

/// The ring a tap needs for the largest size.
pub open spec fn tap_capacity<S: Sample>(base: nat, sample_rate: u32) -> int {
    length_sum(scale_len_of::<S>(base, sample_rate, ratio_of(3, 2)) as int, 2)
}

/// Where a size asks a tap to end up.
pub open spec fn tap_target<S: Sample>(base: nat, past: nat, sample_rate: u32, size: S) -> S {
    min_of(
        S::of_spec(scale_len_of(base, sample_rate, plate_multiplier_of(size))),
        S::of_spec(past).minus(S::of_spec(2)),
    )
}

/// One feedback comb: a delay tap with damped feedback. Its ring is sized once
/// for the largest `size` can ask for; the active read length glides.
pub struct Comb<S> {
    pub base_len: usize,
    pub ring: Ring<S>,
    pub len: S,
    pub target_len: S,
    pub feedback: S,
    pub damp: OnePoleLp<S>,
}

/// What a comb is, apart from where its samples lie.
pub struct CombState<S> {
    pub base_len: usize,
    pub past: Seq<S>,
    pub len: S,
    pub target_len: S,
    pub feedback: S,
    pub damp: OnePoleLp<S>,
}

impl<S> View for Comb<S> {
    type V = CombState<S>;

    open spec fn view(&self) -> CombState<S> {
        CombState {
            base_len: self.base_len,
            past: self.ring@,
            len: self.len,
            target_len: self.target_len,
            feedback: self.feedback,
            damp: self.damp,
        }
    }
}

/// A comb as it is made.
pub open spec fn comb_new<S: Sample>(base_len: usize, sample_rate: u32) -> CombState<S> {
    let len = S::of_spec(scale_len_of::<S>(base_len as nat, sample_rate, S::of_spec(1)));
    CombState {
        base_len,
        past: forgotten(ring_of(tap_capacity::<S>(base_len as nat, sample_rate))),
        len,
        target_len: len,
        feedback: S::of_spec(0),
        damp: OnePoleLp { state: S::of_spec(0), coeff: S::of_spec(0) },
    }
}

/// A comb asked to a size.
pub open spec fn comb_sized<S: Sample>(c: CombState<S>, sample_rate: u32, size: S) -> CombState<S> {
    CombState {
        target_len: tap_target(c.base_len as nat, c.past.len(), sample_rate, size),
        ..c
    }
}

/// A comb with its gain solved for a decay: at most `0.97`, so that it never
/// rings for good.
pub open spec fn comb_decaying<S: Curves>(
    c: CombState<S>,
    sample_rate: u32,
    decay_s: S,
) -> CombState<S> {
    let seconds = c.target_len.over(rate_from(sample_rate));
    CombState {
        feedback: clamp_of(
            S::of_spec(10).powf_spec(
                S::of_spec(3).negated().times(seconds).over(max_of(decay_s, ratio_of(1, 100))),
            ),
            S::of_spec(0),
            ratio_of(97, 100),
        ),
        ..c
    }
}

/// A comb damped: 18 kHz at none, 1 kHz at full.
pub open spec fn comb_damped<S: Curves>(
    c: CombState<S>,
    sample_rate: u32,
    damping: S,
) -> CombState<S> {
    let hz = S::of_spec(18_000).times(
        S::of_spec(1_000).over(S::of_spec(18_000)).powf_spec(
            clamp_of(damping, S::of_spec(0), S::of_spec(1)),
        ),
    );
    CombState {
        damp: OnePoleLp {
            state: c.damp.state,
            coeff: S::of_spec(1).minus(pole_decay(hz, sample_rate)),
        },
        ..c
    }
}

/// What is heard of a comb.
pub open spec fn comb_out<S: Sample>(c: CombState<S>, glide: S) -> S {
    heard(c.past, glided(c.len, c.target_len, glide))
}

/// A comb after an input.
pub open spec fn comb_after<S: Sample>(c: CombState<S>, input: S, glide: S) -> CombState<S> {
    let damped = leaked(c.damp.state, comb_out(c, glide), c.damp.coeff);
    CombState {
        past: remembered(c.past, input.plus(damped.times(c.feedback))),
        len: glided(c.len, c.target_len, glide),
        damp: OnePoleLp { state: damped, coeff: c.damp.coeff },
        ..c
    }
}

/// A comb that the host skipped a frame of.
pub open spec fn comb_skipped<S: Sample>(c: CombState<S>, glide: S) -> CombState<S> {
    CombState { len: glided(c.len, c.target_len, glide), ..c }
}

/// A comb with its tail forgotten.
pub open spec fn comb_cleared<S: Sample>(c: CombState<S>) -> CombState<S> {
    CombState {
        past: forgotten(c.past.len()),
        damp: OnePoleLp { state: S::of_spec(0), coeff: c.damp.coeff },
        ..c
    }
}

impl<S: Curves> Comb<S> {
    pub open spec fn well_formed(&self) -> bool {
        self.ring.well_formed()
    }

    pub fn new(base_len: usize, sample_rate: u32) -> (comb: Self)
        ensures
            comb.well_formed(),
            comb@ == comb_new::<S>(base_len, sample_rate),
    {
        let longest: usize = scale_len::<S>(base_len, sample_rate, ratio(3, 2));
        let len: S = S::of(scale_len::<S>(base_len, sample_rate, S::of(1)));
        Comb {
            base_len,
            ring: Ring::with_capacity(longest.saturating_add(2)),
            len,
            target_len: len,
            feedback: S::of(0),
            damp: OnePoleLp::new(),
        }
    }

    pub fn set_size(&mut self, sample_rate: u32, size: S)
        requires
            old(self).well_formed(),
        ensures
            final(self).well_formed(),
            final(self)@ == comb_sized(old(self)@, sample_rate, size),
    {
        self.target_len = min(
            S::of(scale_len(self.base_len, sample_rate, plate_multiplier(size))),
            S::of(self.ring.capacity()).sub(S::of(2)),
        );
    }

    pub fn set_decay(&mut self, sample_rate: u32, decay_s: S)
        requires
            old(self).well_formed(),
        ensures
            final(self).well_formed(),
            final(self)@ == comb_decaying(old(self)@, sample_rate, decay_s),
    {
        let seconds = self.target_len.div(S::of(at_least_one(sample_rate) as usize));
        self.feedback = clamp(
            S::of(10).powf(S::of(3).neg().mul(seconds).div(max(decay_s, ratio(1, 100)))),
            S::of(0),
            ratio(97, 100),
        );
    }

    pub fn set_damping(&mut self, sample_rate: u32, damping: S)
        requires
            old(self).well_formed(),
        ensures
            final(self).well_formed(),
            final(self)@ == comb_damped(old(self)@, sample_rate, damping),
    {
        let hz = S::of(18_000).mul(
            S::of(1_000).div(S::of(18_000)).powf(clamp(damping, S::of(0), S::of(1))),
        );
        self.damp.set_cutoff(hz, sample_rate);
    }

    pub fn process(&mut self, input: S, size_glide: S) -> (out: S)
        requires
            old(self).well_formed(),
        ensures
            final(self).well_formed(),
            final(self)@ == comb_after(old(self)@, input, size_glide),
            out == comb_out(old(self)@, size_glide),
    {
        self.len = self.len.add(self.target_len.sub(self.len).mul(size_glide));
        let output = self.ring.read(self.len);
        let damped = self.damp.next_sample(output);
        self.ring.write(input.add(damped.mul(self.feedback)));
        output
    }

    fn step_silent(&mut self, size_glide: S)
        requires
            old(self).well_formed(),
        ensures
            final(self).well_formed(),
            final(self)@ == comb_skipped(old(self)@, size_glide),
    {
        self.len = self.len.add(self.target_len.sub(self.len).mul(size_glide));
    }

    fn clear(&mut self)
        requires
            old(self).well_formed(),
        ensures
            final(self).well_formed(),
            final(self)@ == comb_cleared(old(self)@),
    {
        self.ring.clear();
        self.damp.reset();
    }
}

/// Retuning a comb changes only where history is read, never the history.
pub proof fn sizing_a_comb_keeps_its_history<S: Sample>(
    c: CombState<S>,
    sample_rate: u32,
    size: S,
)
    ensures
        comb_sized(c, sample_rate, size).past == c.past,
        comb_sized(c, sample_rate, size).len == c.len,
{
}

/// A Schroeder allpass diffuser with a fixed gain of a half: of unity
/// magnitude, so it reshapes the echo density without changing the overall
/// level.
pub struct SchroederAllpass<S> {
    pub base_len: usize,
    pub ring: Ring<S>,
    pub len: S,
    pub target_len: S,
}

/// What an allpass is, apart from where its samples lie.
pub struct AllpassState<S> {
    pub base_len: usize,
    pub past: Seq<S>,
    pub len: S,
    pub target_len: S,
}

impl<S> View for SchroederAllpass<S> {
    type V = AllpassState<S>;

    open spec fn view(&self) -> AllpassState<S> {
        AllpassState {
            base_len: self.base_len,
            past: self.ring@,
            len: self.len,
            target_len: self.target_len,
        }
    }
}

/// An allpass as it is made.
pub open spec fn allpass_new<S: Sample>(base_len: usize, sample_rate: u32) -> AllpassState<S> {
    let len = S::of_spec(scale_len_of::<S>(base_len as nat, sample_rate, S::of_spec(1)));
    AllpassState {
        base_len,
        past: forgotten(ring_of(tap_capacity::<S>(base_len as nat, sample_rate))),
        len,
        target_len: len,
    }
}

/// An allpass asked to a size.
pub open spec fn allpass_sized<S: Sample>(
    a: AllpassState<S>,
    sample_rate: u32,
    size: S,
) -> AllpassState<S> {
    AllpassState {
        target_len: tap_target(a.base_len as nat, a.past.len(), sample_rate, size),
        ..a
    }
}

/// What an allpass has buffered at the place it reads.
pub open spec fn allpass_held<S: Sample>(a: AllpassState<S>, glide: S) -> S {
    heard(a.past, glided(a.len, a.target_len, glide))
}

/// What an allpass stores of an input, given what it holds.
pub open spec fn allpass_stored<S: Sample>(held: S, input: S) -> S {
    input.plus(held.times(ratio_of(1, 2)))
}

/// What an allpass hands on, given what it holds.
pub open spec fn allpass_handed<S: Sample>(held: S, input: S) -> S {
    held.minus(allpass_stored(held, input).times(ratio_of(1, 2)))
}

/// What an allpass makes of an input.
pub open spec fn allpass_out<S: Sample>(a: AllpassState<S>, input: S, glide: S) -> S {
    allpass_handed(allpass_held(a, glide), input)
}

/// An allpass after an input.
pub open spec fn allpass_after<S: Sample>(a: AllpassState<S>, input: S, glide: S) -> AllpassState<
    S,
> {
    AllpassState {
        past: remembered(a.past, allpass_stored(allpass_held(a, glide), input)),
        len: glided(a.len, a.target_len, glide),
        ..a
    }
}

/// An allpass that the host skipped a frame of.
pub open spec fn allpass_skipped<S: Sample>(a: AllpassState<S>, glide: S) -> AllpassState<S> {
    AllpassState { len: glided(a.len, a.target_len, glide), ..a }
}

/// An allpass with its tail forgotten.
pub open spec fn allpass_cleared<S: Sample>(a: AllpassState<S>) -> AllpassState<S> {
    AllpassState { past: forgotten(a.past.len()), ..a }
}

impl<S: Sample> SchroederAllpass<S> {
    pub open spec fn well_formed(&self) -> bool {
        self.ring.well_formed()
    }

    pub fn new(base_len: usize, sample_rate: u32) -> (allpass: Self)
        ensures
            allpass.well_formed(),
            allpass@ == allpass_new::<S>(base_len, sample_rate),
    {
        let longest: usize = scale_len::<S>(base_len, sample_rate, ratio(3, 2));
        let len: S = S::of(scale_len::<S>(base_len, sample_rate, S::of(1)));
        SchroederAllpass {
            base_len,
            ring: Ring::with_capacity(longest.saturating_add(2)),
            len,
            target_len: len,
        }
    }

    pub fn set_size(&mut self, sample_rate: u32, size: S)
        requires
            old(self).well_formed(),
        ensures
            final(self).well_formed(),
            final(self)@ == allpass_sized(old(self)@, sample_rate, size),
    {
        self.target_len = min(
            S::of(scale_len(self.base_len, sample_rate, plate_multiplier(size))),
            S::of(self.ring.capacity()).sub(S::of(2)),
        );
    }

    pub fn process(&mut self, input: S, size_glide: S) -> (out: S)
        requires
            old(self).well_formed(),
        ensures
            final(self).well_formed(),
            final(self)@ == allpass_after(old(self)@, input, size_glide),
            out == allpass_out(old(self)@, input, size_glide),
    {
        self.len = self.len.add(self.target_len.sub(self.len).mul(size_glide));
        let buffered = self.ring.read(self.len);
        let stored = input.add(buffered.mul(ratio(1, 2)));
        self.ring.write(stored);
        buffered.sub(stored.mul(ratio(1, 2)))
    }

    fn step_silent(&mut self, size_glide: S)
        requires
            old(self).well_formed(),
        ensures
            final(self).well_formed(),
            final(self)@ == allpass_skipped(old(self)@, size_glide),
    {
        self.len = self.len.add(self.target_len.sub(self.len).mul(size_glide));
    }

    fn clear(&mut self)
        requires
            old(self).well_formed(),
        ensures
            final(self).well_formed(),
            final(self)@ == allpass_cleared(old(self)@),
    {
        self.ring.clear();
    }
}

/// Half of a number, rounded toward nothing.
proof fn lemma_half(x: Fixed)
    requires
        within(x, 0x4000_0000_0000_0000),
    ensures
        ({
            let half = x.times(ratio_of(1, 2)).raw as int;
            &&& -1 <= x.raw - 2 * half <= 1
            &&& x.raw % 2 == 0 ==> 2 * half == x.raw
            &&& magnitude(half) <= magnitude(x.raw as int)
        }),
{
    let f = FRACTION as int;
    assert(ratio_of::<Fixed>(1, 2).raw == 0x8000_0000) by {
        assert(f * f == 0x1_0000_0000_0000_0000) by (nonlinear_arith)
            requires
                f == 0x1_0000_0000,
        ;
        assert(0x1_0000_0000_0000_0000int / 0x2_0000_0000 == 0x8000_0000);
    }
    let m = magnitude(x.raw as int);
    assert((m * 0x8000_0000) / 0x1_0000_0000 == m / 2);
    assert(magnitude(x.raw * 0x8000_0000) == m * 0x8000_0000);
}

/// An allpass is of unity magnitude: what it hands on and what it stores hold
/// the energy of what it was given and what it held, `out^2 + 3/4 stored^2 =
/// input^2 + 3/4 held^2`. Exactly so where both halves are whole, and otherwise
/// but for the rounding of the two.
pub proof fn an_allpass_keeps_the_energy(held: Fixed, input: Fixed)
    requires
        within(held, 0x800_0000_0000_0000),
        within(input, 0x800_0000_0000_0000),
    ensures
        ({
            let x = input.raw as int;
            let h = held.raw as int;
            let s = allpass_stored(held, input).raw as int;
            let y = allpass_handed(held, input).raw as int;
            let change = 4 * (y * y) + 3 * (s * s) - 4 * (x * x) - 3 * (h * h);
            &&& h % 2 == 0 && s % 2 == 0 ==> change == 0
            &&& magnitude(change) <= 6 * magnitude(x) + 3 * magnitude(h) + 5
        }),
{
    let x = input.raw as int;
    let h = held.raw as int;
    lemma_half(held);
    let stored = allpass_stored(held, input);
    let s = stored.raw as int;
    let half_h = held.times(ratio_of(1, 2)).raw as int;
    assert(s == x + half_h);
    lemma_half(stored);
    let half_s = stored.times(ratio_of(1, 2)).raw as int;
    let y = allpass_handed(held, input).raw as int;
    assert(y == h - half_s);
    let a = 2 * half_h - h;
    let b = s - 2 * half_s;
    assert(2 * s == 2 * x + h + a && 2 * y == 2 * h - s + b);
    let t = 2 * h - s;
    assert(4 * (y * y) + 3 * (s * s) - 4 * (x * x) - 3 * (h * h) == 4 * (a * x) + a * a + 2 * (b
        * t) + b * b) by (nonlinear_arith)
        requires
            2 * s == 2 * x + h + a,
            2 * y == 2 * h - s + b,
            t == 2 * h - s,
    ;
    assert(magnitude(a * x) <= magnitude(x) && magnitude(b * t) <= magnitude(t) && 0 <= a * a <= 1
        && 0 <= b * b <= 1) by (nonlinear_arith)
        requires
            -1 <= a <= 1,
            -1 <= b <= 1,
    ;
    assert(2 * t == 3 * h - 2 * x - a);
    assert(a == 0 && b == 0 ==> a * x == 0 && a * a == 0 && b * t == 0 && b * b == 0)
        by (nonlinear_arith);
}

/// The energy of the newest `count` samples remembered.
pub open spec fn memory(past: Seq<Fixed>, count: int) -> int
    decreases count,
{
    if count <= 0 {
        0
    } else {
        memory(past, count - 1) + past[count - 1].raw * past[count - 1].raw
    }
}

/// An allpass after a run of inputs.
pub open spec fn allpass_ran(a: AllpassState<Fixed>, inputs: Seq<Fixed>, glide: Fixed) -> AllpassState<
    Fixed,
>
    decreases inputs.len(),
{
    if inputs.len() == 0 {
        a
    } else {
        allpass_after(allpass_ran(a, inputs.drop_last(), glide), inputs.last(), glide)
    }
}

/// The energy of a run of inputs.
pub open spec fn energy_given(inputs: Seq<Fixed>) -> int
    decreases inputs.len(),
{
    if inputs.len() == 0 {
        0
    } else {
        energy_given(inputs.drop_last()) + inputs.last().raw * inputs.last().raw
    }
}

/// The energy of what an allpass makes of a run of inputs.
pub open spec fn energy_handed(a: AllpassState<Fixed>, inputs: Seq<Fixed>, glide: Fixed) -> int
    decreases inputs.len(),
{
    if inputs.len() == 0 {
        0
    } else {
        let before = inputs.drop_last();
        let out = allpass_out(allpass_ran(a, before, glide), inputs.last(), glide).raw;
        energy_handed(a, before, glide) + out * out
    }
}

/// What rounding may have come to over a run of inputs.
pub open spec fn rounding(a: AllpassState<Fixed>, inputs: Seq<Fixed>, glide: Fixed) -> int
    decreases inputs.len(),
{
    if inputs.len() == 0 {
        0
    } else {
        let before = inputs.drop_last();
        let held = allpass_held(allpass_ran(a, before, glide), glide);
        rounding(a, before, glide) + 6 * magnitude(inputs.last().raw as int) + 3 * magnitude(
            held.raw as int,
        ) + 5
    }
}

/// Whether nothing in a run of inputs comes near the ends of the range.
pub open spec fn stays_in_range(a: AllpassState<Fixed>, inputs: Seq<Fixed>, glide: Fixed) -> bool
    decreases inputs.len(),
{
    inputs.len() > 0 ==> {
        let before = inputs.drop_last();
        &&& stays_in_range(a, before, glide)
        &&& within(allpass_held(allpass_ran(a, before, glide), glide), 0x800_0000_0000_0000)
        &&& within(inputs.last(), 0x800_0000_0000_0000)
    }
}

/// Whether an allpass rests on a length of whole samples.
pub open spec fn rests_on(a: AllpassState<Fixed>, length: int, glide: Fixed) -> bool {
    &&& 1 <= length <= a.past.len() - 2
    &&& a.past.len() < 0x4000_0000
    &&& a.len.raw == length * FRACTION
    &&& glided(a.len, a.target_len, glide) == a.len
}

proof fn lemma_remembering_moves_energy(past: Seq<Fixed>, value: Fixed, count: int)
    requires
        1 <= count <= past.len() - 1,
    ensures
        memory(remembered(past, value), count) == memory(past, count - 1) + value.raw * value.raw,
    decreases count,
{
    let after = remembered(past, value);
    if count == 1 {
        assert(after[0] == value);
        reveal_with_fuel(memory, 2);
    } else {
        lemma_remembering_moves_energy(past, value, count - 1);
        assert(after[count - 1] == past[count - 2]);
    }
}

proof fn lemma_rests_on(a: AllpassState<Fixed>, length: int, glide: Fixed)
    requires
        rests_on(a, length, glide),
    ensures
        allpass_held(a, glide) == a.past[length - 1],
{
    let f = FRACTION as int;
    assert(reachable(a.past.len(), a.len) == a.len) by {
        assert(f <= length * f <= (a.past.len() - 2) * f) by (nonlinear_arith)
            requires
                1 <= length <= a.past.len() - 2,
                f == 0x1_0000_0000,
        ;
    }
    assert(length * f / f == length) by (nonlinear_arith)
        requires
            f == 0x1_0000_0000,
    ;
    assert(samples_back(a.past.len(), a.len) == length);
    assert(a.len.minus(Fixed::of_spec(length as nat)) == Fixed::of_spec(0));
    times_one(a.past[length - 1]);
    nothing_times(a.past[length]);
    products_commute(a.past[length], Fixed::of_spec(0));
}

/// Over any run of inputs an allpass hands on the energy it is given, but for
/// what it still remembers and what rounding came to: it reshapes the echo
/// density without changing the level.
pub proof fn an_allpass_is_of_unity_magnitude(
    a: AllpassState<Fixed>,
    inputs: Seq<Fixed>,
    glide: Fixed,
    length: int,
)
    requires
        rests_on(a, length, glide),
        stays_in_range(a, inputs, glide),
    ensures
        magnitude(
            4 * energy_handed(a, inputs, glide) + 3 * memory(
                allpass_ran(a, inputs, glide).past,
                length,
            ) - 4 * energy_given(inputs) - 3 * memory(a.past, length),
        ) <= rounding(a, inputs, glide),
{
    lemma_energy_run(a, inputs, glide, length);
}

proof fn lemma_energy_run(
    a: AllpassState<Fixed>,
    inputs: Seq<Fixed>,
    glide: Fixed,
    length: int,
)
    requires
        rests_on(a, length, glide),
        stays_in_range(a, inputs, glide),
    ensures
        rests_on(allpass_ran(a, inputs, glide), length, glide),
        magnitude(
            4 * energy_handed(a, inputs, glide) + 3 * memory(
                allpass_ran(a, inputs, glide).past,
                length,
            ) - 4 * energy_given(inputs) - 3 * memory(a.past, length),
        ) <= rounding(a, inputs, glide),
    decreases inputs.len(),
{
    if inputs.len() > 0 {
        let earlier = inputs.drop_last();
        lemma_energy_run(a, earlier, glide, length);
        let before = allpass_ran(a, earlier, glide);
        let held = allpass_held(before, glide);
        let input = inputs.last();
        let stored = allpass_stored(held, input);
        lemma_rests_on(before, length, glide);
        an_allpass_keeps_the_energy(held, input);
        lemma_remembering_moves_energy(before.past, stored, length);
        assert(memory(before.past, length) == memory(before.past, length - 1) + held.raw
            * held.raw);
    }
}

/// One channel of the network: its combs and its allpasses.
pub struct Channel<S> {
    pub combs: Vec<Comb<S>>,
    pub allpasses: Vec<SchroederAllpass<S>>,
}

/// What a channel is.
pub struct Sheet<S> {
    pub combs: Seq<CombState<S>>,
    pub allpasses: Seq<AllpassState<S>>,
}

impl<S> View for Channel<S> {
    type V = Sheet<S>;

    open spec fn view(&self) -> Sheet<S> {
        Sheet {
            combs: self.combs@.map_values(|comb: Comb<S>| comb@),
            allpasses: self.allpasses@.map_values(|allpass: SchroederAllpass<S>| allpass@),
        }
    }
}

/// A channel as it is made, its taps longer by `spread`.
pub open spec fn sheet_new<S: Sample>(spread: usize, sample_rate: u32) -> Sheet<S> {
    Sheet {
        combs: Seq::new(
            NUM_COMBS as nat,
            |i: int| comb_new((comb_tuning_of(i) + spread) as usize, sample_rate),
        ),
        allpasses: Seq::new(
            NUM_ALLPASS as nat,
            |i: int| allpass_new((allpass_tuning_of(i) + spread) as usize, sample_rate),
        ),
    }
}

/// The sum of the first `count` combs.
pub open spec fn comb_sum<S: Sample>(combs: Seq<CombState<S>>, glide: S, count: int) -> S
    decreases count,
{
    if count <= 0 {
        S::of_spec(0)
    } else {
        comb_sum(combs, glide, count - 1).plus(comb_out(combs[count - 1], glide))
    }
}

/// What the first `count` allpasses make of an input.
pub open spec fn allpass_chain<S: Sample>(
    allpasses: Seq<AllpassState<S>>,
    input: S,
    glide: S,
    count: int,
) -> S
    decreases count,
{
    if count <= 0 {
        input
    } else {
        allpass_out(
            allpasses[count - 1],
            allpass_chain(allpasses, input, glide, count - 1),
            glide,
        )
    }
}

/// What a channel makes of an input.
pub open spec fn sheet_out<S: Sample>(sheet: Sheet<S>, glide: S) -> S {
    allpass_chain(
        sheet.allpasses,
        comb_sum(sheet.combs, glide, NUM_COMBS as int),
        glide,
        NUM_ALLPASS as int,
    )
}

/// A channel after an input.
pub open spec fn sheet_after<S: Sample>(sheet: Sheet<S>, input: S, glide: S) -> Sheet<S> {
    Sheet {
        combs: sheet.combs.map_values(|c: CombState<S>| comb_after(c, input, glide)),
        allpasses: Seq::new(
            sheet.allpasses.len(),
            |i: int|
                allpass_after(
                    sheet.allpasses[i],
                    allpass_chain(
                        sheet.allpasses,
                        comb_sum(sheet.combs, glide, NUM_COMBS as int),
                        glide,
                        i,
                    ),
                    glide,
                ),
        ),
    }
}

/// A channel asked to a size, and its gains solved for a decay.
pub open spec fn sheet_sized<S: Curves>(
    sheet: Sheet<S>,
    sample_rate: u32,
    size: S,
) -> Sheet<S> {
    Sheet {
        combs: sheet.combs.map_values(|c: CombState<S>| comb_sized(c, sample_rate, size)),
        allpasses: sheet.allpasses.map_values(
            |a: AllpassState<S>| allpass_sized(a, sample_rate, size),
        ),
    }
}

pub open spec fn sheet_decaying<S: Curves>(
    sheet: Sheet<S>,
    sample_rate: u32,
    decay_s: S,
) -> Sheet<S> {
    Sheet {
        combs: sheet.combs.map_values(|c: CombState<S>| comb_decaying(c, sample_rate, decay_s)),
        ..sheet
    }
}

pub open spec fn sheet_damped<S: Curves>(
    sheet: Sheet<S>,
    sample_rate: u32,
    damping: S,
) -> Sheet<S> {
    Sheet {
        combs: sheet.combs.map_values(|c: CombState<S>| comb_damped(c, sample_rate, damping)),
        ..sheet
    }
}

pub open spec fn sheet_skipped<S: Sample>(sheet: Sheet<S>, glide: S) -> Sheet<S> {
    Sheet {
        combs: sheet.combs.map_values(|c: CombState<S>| comb_skipped(c, glide)),
        allpasses: sheet.allpasses.map_values(|a: AllpassState<S>| allpass_skipped(a, glide)),
    }
}

pub open spec fn sheet_cleared<S: Sample>(sheet: Sheet<S>) -> Sheet<S> {
    Sheet {
        combs: sheet.combs.map_values(|c: CombState<S>| comb_cleared(c)),
        allpasses: sheet.allpasses.map_values(|a: AllpassState<S>| allpass_cleared(a)),
    }
}

impl<S: Curves> Channel<S> {
    pub open spec fn well_formed(&self) -> bool {
        &&& self.combs@.len() == NUM_COMBS
        &&& self.allpasses@.len() == NUM_ALLPASS
        &&& forall|i: int| 0 <= i < NUM_COMBS ==> (#[trigger] self.combs[i]).well_formed()
        &&& forall|i: int| 0 <= i < NUM_ALLPASS ==> (#[trigger] self.allpasses[i]).well_formed()
    }

    fn new(spread: usize, sample_rate: u32) -> (channel: Self)
        requires
            spread <= STEREO_SPREAD,
        ensures
            channel.well_formed(),
            channel@ == sheet_new::<S>(spread, sample_rate),
    {
        let mut combs: Vec<Comb<S>> = Vec::new();
        let mut i: usize = 0;
        while i < NUM_COMBS
            invariant
                i <= NUM_COMBS,
                spread <= STEREO_SPREAD,
                combs@.len() == i,
                forall|j: int|
                    0 <= j < i ==> (#[trigger] combs[j]).well_formed() && combs[j]@
                        == sheet_new::<S>(spread, sample_rate).combs[j],
            decreases NUM_COMBS - i,
        {
            combs.push(Comb::new(comb_tuning(i) + spread, sample_rate));
            i = i + 1;
        }
        let mut allpasses: Vec<SchroederAllpass<S>> = Vec::new();
        i = 0;
        while i < NUM_ALLPASS
            invariant
                i <= NUM_ALLPASS,
                spread <= STEREO_SPREAD,
                allpasses@.len() == i,
                forall|j: int|
                    0 <= j < i ==> (#[trigger] allpasses[j]).well_formed() && allpasses[j]@
                        == sheet_new::<S>(spread, sample_rate).allpasses[j],
            decreases NUM_ALLPASS - i,
        {
            allpasses.push(SchroederAllpass::new(allpass_tuning(i) + spread, sample_rate));
            i = i + 1;
        }
        let channel = Channel { combs, allpasses };
        assert(channel@.combs =~= sheet_new::<S>(spread, sample_rate).combs);
        assert(channel@.allpasses =~= sheet_new::<S>(spread, sample_rate).allpasses);
        channel
    }

    fn process(&mut self, input: S, glide: S) -> (out: S)
        requires
            old(self).well_formed(),
        ensures
            final(self).well_formed(),
            final(self)@ == sheet_after(old(self)@, input, glide),
            out == sheet_out(old(self)@, glide),
    {
        let ghost before = self@;
        let ghost after = sheet_after(before, input, glide);
        let mut wet = S::of(0);
        let mut i: usize = 0;
        while i < NUM_COMBS
            invariant
                i <= NUM_COMBS,
                self.well_formed(),
                before.combs.len() == NUM_COMBS,
                before == old(self)@,
                after == sheet_after(before, input, glide),
                self.allpasses == old(self).allpasses,
                wet == comb_sum(before.combs, glide, i as int),
                forall|j: int| 0 <= j < i ==> (#[trigger] self.combs[j])@ == after.combs[j],
                forall|j: int|
                    i <= j < NUM_COMBS ==> (#[trigger] self.combs[j])@ == before.combs[j],
            decreases NUM_COMBS - i,
        {
            let comb = &mut self.combs[i];
            wet = wet.add(comb.process(input, glide));
            i = i + 1;
        }
        assert(self@.combs =~= after.combs);
        i = 0;
        while i < NUM_ALLPASS
            invariant
                i <= NUM_ALLPASS,
                self.well_formed(),
                self@.combs == after.combs,
                before.allpasses.len() == NUM_ALLPASS,
                before == old(self)@,
                after == sheet_after(before, input, glide),
                wet == allpass_chain(
                    before.allpasses,
                    comb_sum(before.combs, glide, NUM_COMBS as int),
                    glide,
                    i as int,
                ),
                forall|j: int|
                    0 <= j < i ==> (#[trigger] self.allpasses[j])@ == after.allpasses[j],
                forall|j: int|
                    i <= j < NUM_ALLPASS ==> (#[trigger] self.allpasses[j])@
                        == before.allpasses[j],
            decreases NUM_ALLPASS - i,
        {
            let allpass = &mut self.allpasses[i];
            wet = allpass.process(wet, glide);
            i = i + 1;
        }
        assert(self@.allpasses =~= after.allpasses);
        wet
    }

    fn set_size(&mut self, sample_rate: u32, size: S)
        requires
            old(self).well_formed(),
        ensures
            final(self).well_formed(),
            final(self)@ == sheet_sized(old(self)@, sample_rate, size),
    {
        let ghost before = self@;
        let ghost after = sheet_sized(before, sample_rate, size);
        let mut i: usize = 0;
        while i < NUM_COMBS
            invariant
                i <= NUM_COMBS,
                self.well_formed(),
                before.combs.len() == NUM_COMBS,
                before == old(self)@,
                after == sheet_sized(before, sample_rate, size),
                self.allpasses == old(self).allpasses,
                forall|j: int| 0 <= j < i ==> (#[trigger] self.combs[j])@ == after.combs[j],
                forall|j: int|
                    i <= j < NUM_COMBS ==> (#[trigger] self.combs[j])@ == before.combs[j],
            decreases NUM_COMBS - i,
        {
            let comb = &mut self.combs[i];
            comb.set_size(sample_rate, size);
            i = i + 1;
        }
        assert(self@.combs =~= after.combs);
        i = 0;
        while i < NUM_ALLPASS
            invariant
                i <= NUM_ALLPASS,
                self.well_formed(),
                self@.combs == after.combs,
                before.allpasses.len() == NUM_ALLPASS,
                before == old(self)@,
                after == sheet_sized(before, sample_rate, size),
                forall|j: int|
                    0 <= j < i ==> (#[trigger] self.allpasses[j])@ == after.allpasses[j],
                forall|j: int|
                    i <= j < NUM_ALLPASS ==> (#[trigger] self.allpasses[j])@
                        == before.allpasses[j],
            decreases NUM_ALLPASS - i,
        {
            let allpass = &mut self.allpasses[i];
            allpass.set_size(sample_rate, size);
            i = i + 1;
        }
        assert(self@.allpasses =~= after.allpasses);
    }

    fn set_decay(&mut self, sample_rate: u32, decay_s: S)
        requires
            old(self).well_formed(),
        ensures
            final(self).well_formed(),
            final(self)@ == sheet_decaying(old(self)@, sample_rate, decay_s),
    {
        let ghost before = self@;
        let ghost after = sheet_decaying(before, sample_rate, decay_s);
        let mut i: usize = 0;
        while i < NUM_COMBS
            invariant
                i <= NUM_COMBS,
                self.well_formed(),
                before.combs.len() == NUM_COMBS,
                before == old(self)@,
                after == sheet_decaying(before, sample_rate, decay_s),
                self.allpasses == old(self).allpasses,
                forall|j: int| 0 <= j < i ==> (#[trigger] self.combs[j])@ == after.combs[j],
                forall|j: int|
                    i <= j < NUM_COMBS ==> (#[trigger] self.combs[j])@ == before.combs[j],
            decreases NUM_COMBS - i,
        {
            let comb = &mut self.combs[i];
            comb.set_decay(sample_rate, decay_s);
            i = i + 1;
        }
        assert(self@.combs =~= after.combs);
    }

    fn set_damping(&mut self, sample_rate: u32, damping: S)
        requires
            old(self).well_formed(),
        ensures
            final(self).well_formed(),
            final(self)@ == sheet_damped(old(self)@, sample_rate, damping),
    {
        let ghost before = self@;
        let ghost after = sheet_damped(before, sample_rate, damping);
        let mut i: usize = 0;
        while i < NUM_COMBS
            invariant
                i <= NUM_COMBS,
                self.well_formed(),
                before.combs.len() == NUM_COMBS,
                before == old(self)@,
                after == sheet_damped(before, sample_rate, damping),
                self.allpasses == old(self).allpasses,
                forall|j: int| 0 <= j < i ==> (#[trigger] self.combs[j])@ == after.combs[j],
                forall|j: int|
                    i <= j < NUM_COMBS ==> (#[trigger] self.combs[j])@ == before.combs[j],
            decreases NUM_COMBS - i,
        {
            let comb = &mut self.combs[i];
            comb.set_damping(sample_rate, damping);
            i = i + 1;
        }
        assert(self@.combs =~= after.combs);
    }

    fn step_silent(&mut self, glide: S)
        requires
            old(self).well_formed(),
        ensures
            final(self).well_formed(),
            final(self)@ == sheet_skipped(old(self)@, glide),
    {
        let ghost before = self@;
        let ghost after = sheet_skipped(before, glide);
        let mut i: usize = 0;
        while i < NUM_COMBS
            invariant
                i <= NUM_COMBS,
                self.well_formed(),
                before.combs.len() == NUM_COMBS,
                before == old(self)@,
                after == sheet_skipped(before, glide),
                self.allpasses == old(self).allpasses,
                forall|j: int| 0 <= j < i ==> (#[trigger] self.combs[j])@ == after.combs[j],
                forall|j: int|
                    i <= j < NUM_COMBS ==> (#[trigger] self.combs[j])@ == before.combs[j],
            decreases NUM_COMBS - i,
        {
            let comb = &mut self.combs[i];
            comb.step_silent(glide);
            i = i + 1;
        }
        assert(self@.combs =~= after.combs);
        i = 0;
        while i < NUM_ALLPASS
            invariant
                i <= NUM_ALLPASS,
                self.well_formed(),
                self@.combs == after.combs,
                before.allpasses.len() == NUM_ALLPASS,
                before == old(self)@,
                after == sheet_skipped(before, glide),
                forall|j: int|
                    0 <= j < i ==> (#[trigger] self.allpasses[j])@ == after.allpasses[j],
                forall|j: int|
                    i <= j < NUM_ALLPASS ==> (#[trigger] self.allpasses[j])@
                        == before.allpasses[j],
            decreases NUM_ALLPASS - i,
        {
            let allpass = &mut self.allpasses[i];
            allpass.step_silent(glide);
            i = i + 1;
        }
        assert(self@.allpasses =~= after.allpasses);
    }

    fn clear(&mut self)
        requires
            old(self).well_formed(),
        ensures
            final(self).well_formed(),
            final(self)@ == sheet_cleared(old(self)@),
    {
        let ghost before = self@;
        let ghost after = sheet_cleared(before);
        let mut i: usize = 0;
        while i < NUM_COMBS
            invariant
                i <= NUM_COMBS,
                self.well_formed(),
                before.combs.len() == NUM_COMBS,
                before == old(self)@,
                after == sheet_cleared(before),
                self.allpasses == old(self).allpasses,
                forall|j: int| 0 <= j < i ==> (#[trigger] self.combs[j])@ == after.combs[j],
                forall|j: int|
                    i <= j < NUM_COMBS ==> (#[trigger] self.combs[j])@ == before.combs[j],
            decreases NUM_COMBS - i,
        {
            let comb = &mut self.combs[i];
            comb.clear();
            i = i + 1;
        }
        assert(self@.combs =~= after.combs);
        i = 0;
        while i < NUM_ALLPASS
            invariant
                i <= NUM_ALLPASS,
                self.well_formed(),
                self@.combs == after.combs,
                before.allpasses.len() == NUM_ALLPASS,
                before == old(self)@,
                after == sheet_cleared(before),
                forall|j: int|
                    0 <= j < i ==> (#[trigger] self.allpasses[j])@ == after.allpasses[j],
                forall|j: int|
                    i <= j < NUM_ALLPASS ==> (#[trigger] self.allpasses[j])@
                        == before.allpasses[j],
            decreases NUM_ALLPASS - i,
        {
            let allpass = &mut self.allpasses[i];
            allpass.clear();
            i = i + 1;
        }
        assert(self@.allpasses =~= after.allpasses);
    }
}

/// The plate.
pub struct PlateEffect<S> {
    pub params: PlateParams<S>,
    pub sample_rate: u32,
    /// Input history for the pre-delay, allocated at the longest supported.
    pub predelay: Ring<S>,
    pub predelay_samples: Smoothed<S>,
    pub left: Channel<S>,
    pub right: Channel<S>,
    pub wet1: Smoothed<S>,
    pub wet2: Smoothed<S>,
    pub size_glide: S,
}

/// What the plate is.
pub struct Plate<S> {
    pub params: PlateParams<S>,
    pub sample_rate: u32,
    pub predelay: Seq<S>,
    pub predelay_samples: Smoothed<S>,
    pub left: Sheet<S>,
    pub right: Sheet<S>,
    pub wet1: Smoothed<S>,
    pub wet2: Smoothed<S>,
    pub size_glide: S,
}

impl<S> View for PlateEffect<S> {
    type V = Plate<S>;

    open spec fn view(&self) -> Plate<S> {
        Plate {
            params: self.params,
            sample_rate: self.sample_rate,
            predelay: self.predelay@,
            predelay_samples: self.predelay_samples,
            left: self.left@,
            right: self.right@,
            wet1: self.wet1,
            wet2: self.wet2,
            size_glide: self.size_glide,
        }
    }
}

/// A pre-delay in samples: nothing to two hundred milliseconds.
pub open spec fn plate_predelay_of<S: Sample>(predelay_ms: S, sample_rate: u32) -> S {
    clamp_of(predelay_ms, S::of_spec(0), S::of_spec(200)).times(ratio_of(1, 1000)).times(
        rate_from(sample_rate),
    )
}

pub fn predelay_samples<S: Sample>(predelay_ms: S, sample_rate: u32) -> (samples: S)
    ensures
        samples == plate_predelay_of(predelay_ms, sample_rate),
{
    clamp(predelay_ms, S::of(0), S::of(200)).mul(ratio(1, 1000)).mul(
        S::of(at_least_one(sample_rate) as usize),
    )
}

/// The frames the pre-delay ring needs.
pub open spec fn plate_capacity_of<S: Sample>(sample_rate: u32) -> int {
    length_sum(
        S::of_spec(200).times(ratio_of(1, 1000)).times(
            rate_from(sample_rate),
        ).ceil_spec().whole_spec() as int,
        4,
    )
}

pub fn predelay_capacity<S: Sample>(sample_rate: u32) -> (frames: usize)
    ensures
        frames == plate_capacity_of::<S>(sample_rate),
{
    let frames: usize = S::of(200).mul(ratio(1, 1000)).mul(
        S::of(at_least_one(sample_rate) as usize),
    ).ceil().whole();
    frames.saturating_add(4)
}

/// What a frame sends into the pre-delay: its channels' mean, an eighth of it
/// for each comb.
pub open spec fn plate_dry<S: Sample>(l: S, r: S) -> S {
    l.plus(r).times(ratio_of(1, 2)).times(ratio_of(1, 8))
}

/// What goes into the network. No pre-delay bypasses the ring; otherwise it is
/// read before it is written, so that `n` samples delay by exactly `n` frames.
pub open spec fn plate_input<S: Sample>(plate: Plate<S>, l: S, r: S) -> S {
    let delay = smoothed_next(plate.predelay_samples).value;
    if delay.at_most(ratio_of(1, 8_388_608)) {
        plate_dry(l, r)
    } else {
        heard(plate.predelay, delay)
    }
}

/// The plate after one frame.
pub open spec fn plate_next<S: Sample>(plate: Plate<S>, l: S, r: S) -> Plate<S> {
    let input = plate_input(plate, l, r);
    Plate {
        predelay: remembered(plate.predelay, plate_dry(l, r)),
        predelay_samples: smoothed_next(plate.predelay_samples),
        left: sheet_after(plate.left, input, plate.size_glide),
        right: sheet_after(plate.right, input, plate.size_glide),
        wet1: smoothed_next(plate.wet1),
        wet2: smoothed_next(plate.wet2),
        ..plate
    }
}

/// The plate's absolute output reference: what pins typical material within a
/// few decibels of level-matched, and the largest and longest plate under
/// twelve. The comb sum has no single unity, and the allpasses, being of unity
/// magnitude, lend it none.
pub open spec fn plate_level<S: Sample>() -> S {
    ratio_of(14, 10)
}

/// What the plate puts out for one frame: its channels, as far apart as the
/// width says.
pub open spec fn plate_out<S: Sample>(plate: Plate<S>) -> (S, S) {
    let wet_l = sheet_out(plate.left, plate.size_glide);
    let wet_r = sheet_out(plate.right, plate.size_glide);
    let wet1 = smoothed_next(plate.wet1).value;
    let wet2 = smoothed_next(plate.wet2).value;
    (
        wet_l.times(wet1).plus(wet_r.times(wet2)).times(plate_level()),
        wet_r.times(wet1).plus(wet_l.times(wet2)).times(plate_level()),
    )
}

/// The plate as a step.
pub open spec fn plate_step<S: Sample>() -> spec_fn(Plate<S>, S, S) -> Plate<S> {
    |plate: Plate<S>, l: S, r: S| plate_next(plate, l, r)
}

/// What the plate puts out at a step.
pub open spec fn plate_heard<S: Sample>() -> spec_fn(Plate<S>, S, S) -> (S, S) {
    |plate: Plate<S>, l: S, r: S| plate_out(plate)
}

/// The plate with its gains solved for its decay.
pub open spec fn plate_decaying<S: Curves>(plate: Plate<S>) -> Plate<S> {
    Plate {
        left: sheet_decaying(plate.left, plate.sample_rate, plate.params.decay_s),
        right: sheet_decaying(plate.right, plate.sample_rate, plate.params.decay_s),
        ..plate
    }
}

/// The plate asked to its size. The gains are solved for the lengths, so they
/// follow.
pub open spec fn plate_sized<S: Curves>(plate: Plate<S>) -> Plate<S> {
    plate_decaying(
        Plate {
            left: sheet_sized(plate.left, plate.sample_rate, plate.params.size),
            right: sheet_sized(plate.right, plate.sample_rate, plate.params.size),
            ..plate
        },
    )
}

/// The plate damped as its control says.
pub open spec fn plate_damped<S: Curves>(plate: Plate<S>) -> Plate<S> {
    Plate {
        left: sheet_damped(plate.left, plate.sample_rate, plate.params.damping),
        right: sheet_damped(plate.right, plate.sample_rate, plate.params.damping),
        ..plate
    }
}

/// A channel's own share of the wet signal at a width, and the other's.
pub open spec fn own_share<S: Sample>(width: S) -> S {
    ratio_of::<S>(1, 2).plus(width.times(ratio_of(1, 2)))
}

pub open spec fn other_share<S: Sample>(width: S) -> S {
    ratio_of::<S>(1, 2).minus(width.times(ratio_of(1, 2)))
}

/// The plate after a parameter was taken.
pub open spec fn plate_taking<S: Curves>(plate: Plate<S>, id: u32, value: S) -> Plate<S> {
    let params = plate.params;
    let unit = clamp_of(value, S::of_spec(0), S::of_spec(1));
    if id == PLATE_PARAM_SIZE {
        plate_sized(Plate { params: PlateParams { size: unit, ..params }, ..plate })
    } else if id == PLATE_PARAM_DECAY_S {
        let decay_s = clamp_of(value, ratio_of(2, 10), S::of_spec(10));
        plate_decaying(Plate { params: PlateParams { decay_s, ..params }, ..plate })
    } else if id == PLATE_PARAM_DAMPING {
        plate_damped(Plate { params: PlateParams { damping: unit, ..params }, ..plate })
    } else if id == PLATE_PARAM_WIDTH {
        Plate {
            params: PlateParams { width: unit, ..params },
            wet1: Smoothed { target: own_share(unit), ..plate.wet1 },
            wet2: Smoothed { target: other_share(unit), ..plate.wet2 },
            ..plate
        }
    } else if id == PLATE_PARAM_PREDELAY_MS {
        let predelay_ms = clamp_of(value, S::of_spec(0), S::of_spec(200));
        Plate {
            params: PlateParams { predelay_ms, ..params },
            predelay_samples: Smoothed {
                target: plate_predelay_of(predelay_ms, plate.sample_rate),
                ..plate.predelay_samples
            },
            ..plate
        }
    } else {
        plate
    }
}

/// The plate fitted to another rate. The tap lengths stay, because the rings
/// cannot be reallocated on the audio thread.
pub open spec fn plate_refitted<S: Curves>(plate: Plate<S>, sample_rate: u32) -> Plate<S> {
    if sample_rate == plate.sample_rate {
        plate
    } else {
        let rate: u32 = if sample_rate < 1 {
            1
        } else {
            sample_rate
        };
        Plate {
            wet1: Smoothed {
                coeff: glide_coeff_of(ratio_of(2, 100), sample_rate),
                ..plate.wet1
            },
            wet2: Smoothed {
                coeff: glide_coeff_of(ratio_of(2, 100), sample_rate),
                ..plate.wet2
            },
            predelay_samples: Smoothed {
                value: plate.predelay_samples.value,
                target: plate_predelay_of(plate.params.predelay_ms, rate),
                coeff: glide_coeff_of(ratio_of(2, 100), rate),
            },
            size_glide: glide_coeff_of(ratio_of(4, 100), sample_rate),
            ..plate_damped(plate_decaying(Plate { sample_rate: rate, ..plate }))
        }
    }
}

/// The plate with its tail forgotten, and every length where it is.
pub open spec fn plate_cleared<S: Sample>(plate: Plate<S>) -> Plate<S> {
    Plate {
        predelay: forgotten(plate.predelay.len()),
        left: sheet_cleared(plate.left),
        right: sheet_cleared(plate.right),
        ..plate
    }
}

/// The plate after the host skipped a number of frames.
pub open spec fn plate_skipped<S: Sample>(plate: Plate<S>, frames: nat) -> Plate<S>
    decreases frames,
{
    if frames == 0 {
        plate
    } else {
        let before = plate_skipped(plate, (frames - 1) as nat);
        Plate {
            left: sheet_skipped(before.left, before.size_glide),
            right: sheet_skipped(before.right, before.size_glide),
            ..before
        }
    }
}

/// How long the plate goes on sounding: three times its decay, which is an
/// upper bound on the real one, and a quarter second for the pre-delay.
pub open spec fn plate_tail<S: Sample>(plate: Plate<S>) -> u32 {
    if !settled(plate.predelay_samples) || !settled(plate.wet1) || !settled(plate.wet2) {
        u32::MAX
    } else {
        let decay = clamp_of(plate.params.decay_s, ratio_of(2, 10), S::of_spec(10));
        let seconds = S::of_spec(3).times(decay).plus(ratio_of(1, 4));
        let whole = seconds.times(rate_from(plate.sample_rate)).ceil_spec().whole_spec();
        if whole > u32::MAX {
            u32::MAX
        } else {
            whole as u32
        }
    }
}

/// The plate as it is made.
pub open spec fn plate_new<S: Curves>(params: PlateParams<S>, sample_rate: u32) -> Plate<S> {
    let width = clamp_of(params.width, S::of_spec(0), S::of_spec(1));
    let predelay = plate_predelay_of(params.predelay_ms, sample_rate);
    let coeff = glide_coeff_of(ratio_of(2, 100), sample_rate);
    plate_damped(
        plate_sized(
            Plate {
                params,
                sample_rate,
                predelay: forgotten(ring_of(plate_capacity_of::<S>(sample_rate))),
                predelay_samples: Smoothed { value: predelay, target: predelay, coeff },
                left: sheet_new(0, sample_rate),
                right: sheet_new(STEREO_SPREAD, sample_rate),
                wet1: Smoothed { value: own_share(width), target: own_share(width), coeff },
                wet2: Smoothed { value: other_share(width), target: other_share(width), coeff },
                size_glide: glide_coeff_of(ratio_of(4, 100), sample_rate),
            },
        ),
    )
}

impl<S: Curves> PlateEffect<S> {
    pub open spec fn well_formed(&self) -> bool {
        self.predelay.well_formed() && self.left.well_formed() && self.right.well_formed()
    }

    pub fn new(params: PlateParams<S>, sample_rate: u32) -> (effect: Self)
        ensures
            effect.well_formed(),
            effect@ == plate_new(params, if sample_rate < 1 { 1 } else { sample_rate }),
    {
        let rate = at_least_one(sample_rate);
        let width = clamp(params.width, S::of(0), S::of(1));
        let half = ratio::<S>(1, 2);
        let time = ratio::<S>(2, 100);
        let mut effect = PlateEffect {
            params,
            sample_rate: rate,
            predelay: Ring::with_capacity(predelay_capacity::<S>(rate)),
            predelay_samples: Smoothed::new(
                predelay_samples(params.predelay_ms, rate),
                time,
                rate,
            ),
            left: Channel::new(0, rate),
            right: Channel::new(STEREO_SPREAD, rate),
            wet1: Smoothed::new(half.add(width.mul(half)), time, rate),
            wet2: Smoothed::new(half.sub(width.mul(half)), time, rate),
            size_glide: glide_coeff(ratio(4, 100), rate),
        };
        effect.resize();
        effect.rebuild_damping();
        effect
    }

    fn resize(&mut self)
        requires
            old(self).well_formed(),
        ensures
            final(self).well_formed(),
            final(self)@ == plate_sized(old(self)@),
    {
        self.left.set_size(self.sample_rate, self.params.size);
        self.right.set_size(self.sample_rate, self.params.size);
        self.rebuild_feedback();
    }

    fn rebuild_feedback(&mut self)
        requires
            old(self).well_formed(),
        ensures
            final(self).well_formed(),
            final(self)@ == plate_decaying(old(self)@),
    {
        self.left.set_decay(self.sample_rate, self.params.decay_s);
        self.right.set_decay(self.sample_rate, self.params.decay_s);
    }

    fn rebuild_damping(&mut self)
        requires
            old(self).well_formed(),
        ensures
            final(self).well_formed(),
            final(self)@ == plate_damped(old(self)@),
    {
        self.left.set_damping(self.sample_rate, self.params.damping);
        self.right.set_damping(self.sample_rate, self.params.damping);
    }

    /// One frame through the pre-delay, both channels and the width.
    fn process_frame(&mut self, l: S, r: S) -> (out: (S, S))
        requires
            old(self).well_formed(),
        ensures
            final(self).well_formed(),
            final(self)@ == plate_next(old(self)@, l, r),
            out == plate_out(old(self)@),
    {
        let dry = l.add(r).mul(ratio(1, 2)).mul(ratio(1, 8));
        let delay = self.predelay_samples.advance();
        let input = if delay.le(ratio(1, 8_388_608)) {
            dry
        } else {
            self.predelay.read(delay)
        };
        self.predelay.write(dry);
        let wet_l = self.left.process(input, self.size_glide);
        let wet_r = self.right.process(input, self.size_glide);
        let wet1 = self.wet1.advance();
        let wet2 = self.wet2.advance();
        (
            wet_l.mul(wet1).add(wet_r.mul(wet2)).mul(ratio(14, 10)),
            wet_r.mul(wet1).add(wet_l.mul(wet2)).mul(ratio(14, 10)),
        )
    }

    /// Empty the pre-delay and the network.
    fn clear_tail(&mut self)
        requires
            old(self).well_formed(),
        ensures
            final(self).well_formed(),
            final(self)@ == plate_cleared(old(self)@),
    {
        self.predelay.clear();
        self.left.clear();
        self.right.clear();
    }

    /// A seek invalidates every sample in the tail. A loop fold and a program
    /// change do not.
    pub fn on_discontinuity(&mut self, kind: Discontinuity)
        requires
            old(self).well_formed(),
        ensures
            final(self).well_formed(),
            final(self)@ == (if kind.leaves() {
                plate_cleared(old(self)@)
            } else {
                old(self)@
            }),
    {
        if kind.invalidates_tails() {
            self.clear_tail();
        }
    }

    pub fn tail_frames(&self) -> (frames: u32)
        ensures
            frames == plate_tail(self@),
    {
        if !self.predelay_samples.is_settled() || !self.wet1.is_settled()
            || !self.wet2.is_settled() {
            return u32::MAX;
        }
        let decay = clamp(self.params.decay_s, ratio(2, 10), S::of(10));
        let seconds = S::of(3).mul(decay).add(ratio(1, 4));
        let whole: usize = seconds.mul(
            S::of(at_least_one(self.sample_rate) as usize),
        ).ceil().whole();
        if whole > 0xffff_ffff {
            u32::MAX
        } else {
            whole as u32
        }
    }

    /// The glides advance exactly as the sample loop would have advanced them.
    pub fn skip_block(&mut self, ctx: &ProcessContext)
        requires
            old(self).well_formed(),
        ensures
            final(self).well_formed(),
            final(self)@ == plate_skipped(old(self)@, ctx.frames as nat),
    {
        let mut frame: usize = 0;
        while frame < ctx.frames
            invariant
                frame <= ctx.frames,
                self.well_formed(),
                self@ == plate_skipped(old(self)@, frame as nat),
            decreases ctx.frames - frame,
        {
            self.left.step_silent(self.size_glide);
            self.right.step_silent(self.size_glide);
            frame = frame + 1;
        }
    }

    /// Fit what needs no allocation to another rate.
    fn refit(&mut self, sample_rate: u32)
        requires
            old(self).well_formed(),
        ensures
            final(self).well_formed(),
            final(self)@ == plate_refitted(old(self)@, sample_rate),
    {
        if sample_rate != self.sample_rate {
            let rate = at_least_one(sample_rate);
            self.sample_rate = rate;
            self.rebuild_feedback();
            self.rebuild_damping();
            self.wet1.set_time(ratio(2, 100), sample_rate);
            self.wet2.set_time(ratio(2, 100), sample_rate);
            self.predelay_samples.set_time(ratio(2, 100), rate);
            self.predelay_samples.set_target(predelay_samples(self.params.predelay_ms, rate));
            self.size_glide = glide_coeff(ratio(4, 100), sample_rate);
        }
    }

    /// Render a block: fit a changed rate, render between the parameter
    /// events, and put silence in place of what is not finite; if anything was
    /// not, the tail starts clean.
    pub fn process<B: Copy>(
        &mut self,
        ctx: &ProcessContext,
        bus: &mut StereoBus<S>,
        events_in: &EventList<S, B>,
    )
        requires
            old(self).well_formed(),
            old(bus).well_formed(),
        ensures
            final(self).well_formed(),
            final(bus).well_formed(),
            S::of_spec(0).finite_spec() ==> all_finite(
                final(bus).l@,
                fitting(ctx.frames as int, old(bus).l@.len() as int),
            ) && all_finite(
                final(bus).r@,
                fitting(ctx.frames as int, old(bus).l@.len() as int),
            ),
            exists|fitted: Self, split: Desk<Self, S>|
                fitted@ == plate_refitted(old(self)@, ctx.sample_rate)
                    && #[trigger] carried_out(
                    Desk { node: fitted, l: old(bus).l@, r: old(bus).r@ },
                    param_plan(
                        events_in@,
                        fitting(ctx.frames as int, old(bus).l@.len() as int),
                    ),
                    split,
                ) && plate_scrubbed(
                    split,
                    fitting(ctx.frames as int, old(bus).l@.len() as int),
                    *final(self),
                    final(bus).l@,
                    final(bus).r@,
                ),
    {
        self.refit(ctx.sample_rate);
        let ghost fitted = *self;
        let capacity: usize = bus.capacity();
        let frames: usize = if ctx.frames < capacity {
            ctx.frames
        } else {
            capacity
        };
        process_param_split(self, bus, events_in, frames);
        let ghost split = Desk { node: *self, l: bus.l@, r: bus.r@ };
        if scrub_non_finite(bus, frames) {
            self.clear_tail();
        }
        proof {
            if S::of_spec(0).finite_spec() {
                a_scrubbed_block_is_finite(split.l, frames as int);
                a_scrubbed_block_is_finite(split.r, frames as int);
            }
            assert(frames == fitting(ctx.frames as int, old(bus).l@.len() as int));
            assert(carried_out(
                Desk { node: fitted, l: old(bus).l@, r: old(bus).r@ },
                param_plan(events_in@, frames as int),
                split,
            ));
            assert(plate_scrubbed(split, frames as int, *self, bus.l@, bus.r@));
        }
    }
}

/// What is left of a rendered block once it has been scrubbed.
pub open spec fn plate_scrubbed<S: Sample>(
    split: Desk<PlateEffect<S>, S>,
    frames: int,
    after: PlateEffect<S>,
    l: Seq<S>,
    r: Seq<S>,
) -> bool {
    &&& l == scrubbed(split.l, frames)
    &&& r == scrubbed(split.r, frames)
    &&& after@ == (if all_finite(split.l, frames) && all_finite(split.r, frames) {
        split.node@
    } else {
        plate_cleared(split.node@)
    })
}

impl<S: Curves> RangeProcessor<S> for PlateEffect<S> {
    open spec fn ready(&self) -> bool {
        self.well_formed()
    }

    open spec fn renders(
        &self,
        l: Seq<S>,
        r: Seq<S>,
        start: int,
        end: int,
        after: &Self,
        new_l: Seq<S>,
        new_r: Seq<S>,
    ) -> bool {
        &&& after@ == after_frames(plate_step(), self@, l, r, start, end - start)
        &&& new_l == left_of(plate_step(), plate_heard(), self@, l, r, start, end)
        &&& new_r == right_of(plate_step(), plate_heard(), self@, l, r, start, end)
    }

    open spec fn takes(&self, id: u32, value: S, after: &Self) -> bool {
        after@ == plate_taking(self@, id, value)
    }

    fn process_range(&mut self, bus: &mut StereoBus<S>, start: usize, end: usize) {
        let ghost before = self@;
        let ghost l = bus.l@;
        let ghost r = bus.r@;
        proof {
            lemma_nothing_rendered(plate_step(), plate_heard(), before, l, r, start as int);
        }
        let mut i: usize = start;
        while i < end
            invariant
                start <= i <= end <= l.len(),
                l.len() == r.len(),
                bus.l@.len() == l.len(),
                bus.r@.len() == r.len(),
                self.well_formed(),
                self@ == after_frames(plate_step(), before, l, r, start as int, i - start),
                bus.l@ == left_of(
                    plate_step(),
                    plate_heard(),
                    before,
                    l,
                    r,
                    start as int,
                    i as int,
                ),
                bus.r@ == right_of(
                    plate_step(),
                    plate_heard(),
                    before,
                    l,
                    r,
                    start as int,
                    i as int,
                ),
            decreases end - i,
        {
            proof {
                lemma_frame_rendered(
                    plate_step(),
                    plate_heard(),
                    before,
                    l,
                    r,
                    start as int,
                    i as int,
                );
            }
            let (out_l, out_r) = self.process_frame(bus.l[i], bus.r[i]);
            bus.l[i] = out_l;
            bus.r[i] = out_r;
            i = i + 1;
        }
    }

    fn apply_param(&mut self, id: u32, value: S) {
        let unit = clamp(value, S::of(0), S::of(1));
        match id {
            PLATE_PARAM_SIZE => {
                self.params.size = unit;
                self.resize();
            },
            PLATE_PARAM_DECAY_S => {
                self.params.decay_s = clamp(value, ratio(2, 10), S::of(10));
                self.rebuild_feedback();
            },
            PLATE_PARAM_DAMPING => {
                self.params.damping = unit;
                self.rebuild_damping();
            },
            PLATE_PARAM_WIDTH => {
                let half = ratio::<S>(1, 2);
                self.params.width = unit;
                self.wet1.set_target(half.add(unit.mul(half)));
                self.wet2.set_target(half.sub(unit.mul(half)));
            },
            PLATE_PARAM_PREDELAY_MS => {
                self.params.predelay_ms = clamp(value, S::of(0), S::of(200));
                let samples = predelay_samples(self.params.predelay_ms, self.sample_rate);
                self.predelay_samples.set_target(samples);
            },
            _ => {},
        }
    }
}

/// A plate that slept comes back with every length where rendering any audio
/// would have taken it.
pub proof fn skipping_keeps_the_clock<S: Sample>(
    plate: Plate<S>,
    l: Seq<S>,
    r: Seq<S>,
    start: int,
    frames: nat,
    index: int,
)
    requires
        0 <= index,
    ensures
        ({
            let rendered = after_frames(plate_step(), plate, l, r, start, frames as int);
            let skipped = plate_skipped(plate, frames);
            &&& lengths_agree(rendered.left, skipped.left, plate.left, index)
            &&& lengths_agree(rendered.right, skipped.right, plate.right, index)
            &&& rendered.size_glide == skipped.size_glide
        }),
    decreases frames,
{
    if frames > 0 {
        skipping_keeps_the_clock(plate, l, r, start, (frames - 1) as nat, index);
        let here = after_frames(plate_step(), plate, l, r, start, frames - 1);
        assert(after_frames(plate_step(), plate, l, r, start, frames as int) == plate_next(
            here,
            l[start + frames - 1],
            r[start + frames - 1],
        ));
    }
}

/// Whether the tap of an index has one length and one target in two channels
/// that were one.
pub open spec fn lengths_agree<S>(a: Sheet<S>, b: Sheet<S>, origin: Sheet<S>, index: int) -> bool {
    &&& a.combs.len() == b.combs.len() == origin.combs.len()
    &&& a.allpasses.len() == b.allpasses.len() == origin.allpasses.len()
    &&& index < origin.combs.len() ==> a.combs[index].len == b.combs[index].len
        && a.combs[index].target_len == b.combs[index].target_len
    &&& index < origin.allpasses.len() ==> a.allpasses[index].len == b.allpasses[index].len
        && a.allpasses[index].target_len == b.allpasses[index].target_len
}

/// A comb after some samples of silence.
pub open spec fn comb_silenced<S: Sample>(c: CombState<S>, glide: S, frames: nat) -> CombState<S>
    decreases frames,
{
    if frames == 0 {
        c
    } else {
        comb_after(comb_silenced(c, glide, (frames - 1) as nat), S::of_spec(0), glide)
    }
}

/// Whether all that a comb can still hear lies within a bound.
pub open spec fn comb_within(c: CombState<Fixed>, reach: int, bound: int) -> bool {
    newest_within(c.past, reach, bound) && within(c.damp.state, bound)
}

/// Whether a comb's gains are gains, its ring can be read, and it reads no
/// further back than `reach`: as far as it is long where it stands still, and
/// all of the ring where it may glide.
pub open spec fn comb_sound(c: CombState<Fixed>, glide: Fixed, reach: int) -> bool {
    &&& 3 <= c.past.len() <= 0x4000_0000
    &&& is_gain(c.feedback)
    &&& is_gain(c.damp.coeff)
    &&& 0 < reach <= c.past.len()
    &&& reach == c.past.len() || glided(c.len, c.target_len, glide) == c.len && samples_back(
        c.past.len(),
        c.len,
    ) < reach
}

/// What a comb's gain leaves of a bound.
pub open spec fn comb_kept(c: CombState<Fixed>, bound: int) -> int {
    bound * c.feedback.raw / (FRACTION as int)
}

proof fn lemma_comb_step(
    c: CombState<Fixed>,
    glide: Fixed,
    reach: int,
    bound: int,
    kept: int,
    excess: int,
)
    requires
        comb_sound(c, glide, reach),
        0 <= kept,
        0 <= excess,
        kept + excess <= bound <= 0x1000_0000_0000_0000,
        newest_within(c.past, reach, kept),
        within(c.damp.state, kept + excess),
    ensures
        ({
            let after = comb_after(c, Fixed::of_spec(0), glide);
            &&& comb_sound(after, glide, reach)
            &&& after.past.len() == c.past.len()
            &&& after.feedback == c.feedback
            &&& after.damp.coeff == c.damp.coeff
            &&& forall|i: int| 0 < i < c.past.len() ==> #[trigger] after.past[i] == c.past[i - 1]
            &&& within(after.past[0], comb_kept(c, bound))
            &&& within(
                after.damp.state,
                kept + (excess - excess * c.damp.coeff.raw / (FRACTION as int)),
            )
        }),
{
    let out = comb_out(c, glide);
    a_reading_stays_within(c.past, glided(c.len, c.target_len, glide), reach, kept);
    a_lag_nears_its_input(c.damp.state, out, c.damp.coeff, kept, excess);
    let damped = leaked(c.damp.state, out, c.damp.coeff);
    a_gain_scales_a_bound(damped, c.feedback, bound);
}

proof fn lemma_comb_first_trip(
    c: CombState<Fixed>,
    glide: Fixed,
    reach: int,
    frames: nat,
    bound: int,
)
    requires
        comb_sound(c, glide, reach),
        comb_within(c, reach, bound),
        0 <= bound <= 0x1000_0000_0000_0000,
        frames <= reach,
    ensures
        ({
            let here = comb_silenced(c, glide, frames);
            &&& comb_sound(here, glide, reach)
            &&& comb_within(here, reach, bound)
            &&& here.past.len() == c.past.len()
            &&& here.feedback == c.feedback
            &&& here.damp.coeff == c.damp.coeff
            &&& newest_within(here.past, frames as int, comb_kept(c, bound))
        }),
    decreases frames,
{
    if frames > 0 {
        lemma_comb_first_trip(c, glide, reach, (frames - 1) as nat, bound);
        let before = comb_silenced(c, glide, (frames - 1) as nat);
        lemma_comb_step(before, glide, reach, bound, bound, 0);
        a_gain_scales_a_bound(Fixed::of_spec(0), c.feedback, bound);
        let here = comb_silenced(c, glide, frames);
        assert forall|i: int| 0 <= i < frames implies within(
            #[trigger] here.past[i],
            comb_kept(c, bound),
        ) by {
            if i > 0 {
                assert(here.past[i] == before.past[i - 1]);
            }
        }
        assert forall|i: int| 0 <= i < reach implies within(
            #[trigger] here.past[i],
            bound,
        ) by {
            if i > 0 {
                assert(here.past[i] == before.past[i - 1]);
            }
        }
    }
}

proof fn lemma_comb_second_trip(
    c: CombState<Fixed>,
    glide: Fixed,
    reach: int,
    frames: nat,
    bound: int,
)
    requires
        comb_sound(c, glide, reach),
        comb_within(c, reach, bound),
        0 <= bound <= 0x1000_0000_0000_0000,
    ensures
        ({
            let kept = comb_kept(c, bound);
            let left = excess_left(bound - kept, c.damp.coeff, frames);
            let here = comb_silenced(c, glide, (reach + frames) as nat);
            &&& comb_sound(here, glide, reach)
            &&& here.past.len() == c.past.len()
            &&& here.feedback == c.feedback
            &&& here.damp.coeff == c.damp.coeff
            &&& 0 <= kept <= bound
            &&& 0 <= left <= bound - kept
            &&& newest_within(here.past, reach, kept)
            &&& within(here.damp.state, kept + left)
        }),
    decreases frames,
{
    let kept = comb_kept(c, bound);
    a_gain_scales_a_bound(Fixed::of_spec(0), c.feedback, bound);
    if frames == 0 {
        lemma_comb_first_trip(c, glide, reach, reach as nat, bound);
    } else {
        lemma_comb_second_trip(c, glide, reach, (frames - 1) as nat, bound);
        let before = comb_silenced(c, glide, (reach + frames - 1) as nat);
        let excess = excess_left(bound - kept, c.damp.coeff, (frames - 1) as nat);
        lemma_comb_step(before, glide, reach, bound, kept, excess);
        a_reading_stays_within(
            before.past,
            glided(before.len, before.target_len, glide),
            reach,
            kept,
        );
        a_lag_nears_its_input(
            before.damp.state,
            comb_out(before, glide),
            before.damp.coeff,
            kept,
            excess,
        );
        let here = comb_silenced(c, glide, (reach + frames) as nat);
        assert forall|i: int| 0 <= i < reach implies within(
            #[trigger] here.past[i],
            kept,
        ) by {
            if i > 0 {
                assert(here.past[i] == before.past[i - 1]);
            }
        }
    }
}

/// What some rounds of silence leave of a bound on a comb: on each, the gain's
/// share, and what the damping has not yet let go of.
pub open spec fn comb_left(c: CombState<Fixed>, bound: int, settle: nat, rounds: nat) -> int
    decreases rounds,
{
    if rounds == 0 {
        bound
    } else {
        let before = comb_left(c, bound, settle, (rounds - 1) as nat);
        let kept = comb_kept(c, before);
        kept + excess_left(before - kept, c.damp.coeff, settle)
    }
}

/// A comb loses its gain on every trip. Whatever it holds, after a round of
/// silence, which is as far back as it reads and some samples for the damping
/// to settle, all that is left in it, and so all that is heard of it, lies
/// within the gain's share of what there was and the little the damping still
/// keeps; and so on, round by round.
pub proof fn a_comb_dies_away(
    c: CombState<Fixed>,
    glide: Fixed,
    reach: int,
    bound: int,
    settle: nat,
    rounds: nat,
)
    requires
        comb_sound(c, glide, reach),
        comb_within(c, reach, bound),
        0 <= bound <= 0x1000_0000_0000_0000,
    ensures
        ({
            let left = comb_left(c, bound, settle, rounds);
            let here = comb_silenced(c, glide, rounds * ((reach + settle) as nat));
            &&& 0 <= left <= bound
            &&& comb_sound(here, glide, reach)
            &&& comb_within(here, reach, left)
            &&& within(comb_out(here, glide), left)
            &&& here.past.len() == c.past.len()
            &&& here.feedback == c.feedback
            &&& here.damp.coeff == c.damp.coeff
        }),
    decreases rounds,
{
    let round = (reach + settle) as nat;
    if rounds == 0 {
        assert(rounds * round == 0);
        a_reading_stays_within(c.past, glided(c.len, c.target_len, glide), reach, bound);
    } else {
        let fewer = (rounds - 1) as nat;
        a_comb_dies_away(c, glide, reach, bound, settle, fewer);
        let before = comb_silenced(c, glide, fewer * round);
        let had = comb_left(c, bound, settle, fewer);
        lemma_comb_second_trip(before, glide, reach, settle, had);
        assert(rounds * round == fewer * round + round) by (nonlinear_arith)
            requires
                rounds == fewer + 1,
        ;
        lemma_silence_adds_up(c, glide, fewer * round, round);
        let here = comb_silenced(c, glide, rounds * round);
        a_reading_stays_within(
            here.past,
            glided(here.len, here.target_len, glide),
            reach,
            comb_left(c, bound, settle, rounds),
        );
    }
}

proof fn lemma_silence_adds_up(c: CombState<Fixed>, glide: Fixed, first: nat, more: nat)
    ensures
        comb_silenced(comb_silenced(c, glide, first), glide, more) == comb_silenced(
            c,
            glide,
            first + more,
        ),
    decreases more,
{
    if more > 0 {
        lemma_silence_adds_up(c, glide, first, (more - 1) as nat);
    }
}

/// An allpass after some inputs.
pub open spec fn allpass_fed<S: Sample>(
    a: AllpassState<S>,
    inputs: Seq<S>,
    glide: S,
) -> AllpassState<S>
    decreases inputs.len(),
{
    if inputs.len() == 0 {
        a
    } else {
        allpass_after(allpass_fed(a, inputs.drop_last(), glide), inputs.last(), glide)
    }
}

/// Whether an allpass can be read, and reads no further back than `reach`.
pub open spec fn allpass_sound(a: AllpassState<Fixed>, glide: Fixed, reach: int) -> bool {
    &&& 3 <= a.past.len() <= 0x4000_0000
    &&& 0 < reach <= a.past.len()
    &&& reach == a.past.len() || glided(a.len, a.target_len, glide) == a.len && samples_back(
        a.past.len(),
        a.len,
    ) < reach
}

proof fn lemma_half_a_bound(value: Fixed, bound: int)
    requires
        within(value, bound),
    ensures
        within(value.times(ratio_of(1, 2)), bound / 2),
{
    let f = FRACTION as int;
    assert(ratio_of::<Fixed>(1, 2).raw == 0x8000_0000) by {
        assert((1 * f) * f == 0x1_0000_0000_0000_0000) by (nonlinear_arith)
            requires
                f == 0x1_0000_0000,
        ;
        assert(0x1_0000_0000_0000_0000int / (2int * 0x1_0000_0000) == 0x8000_0000);
    }
    a_gain_scales_a_bound(value, ratio_of(1, 2), bound);
    assert(bound * 0x8000_0000 / f == bound / 2) by (nonlinear_arith)
        requires
            f == 0x1_0000_0000,
    ;
}

/// An allpass forgets by halves. Fed within `fed`, however long it has held
/// more, after one trip all that is in it lies within half of what was there
/// and `fed`, and what it hands on within half as much again.
pub proof fn an_allpass_forgets_by_halves(
    a: AllpassState<Fixed>,
    inputs: Seq<Fixed>,
    glide: Fixed,
    reach: int,
    bound: int,
    fed: int,
)
    requires
        allpass_sound(a, glide, reach),
        newest_within(a.past, reach, bound),
        0 <= 2 * fed <= bound <= 0x1000_0000_0000_0000,
        forall|i: int| 0 <= i < inputs.len() ==> within(#[trigger] inputs[i], fed),
    ensures
        ({
            let here = allpass_fed(a, inputs, glide);
            &&& allpass_sound(here, glide, reach)
            &&& here.past.len() == a.past.len()
            &&& newest_within(here.past, reach, bound)
            &&& forall|i: int|
                0 <= i < reach && i < inputs.len() ==> within(
                    #[trigger] here.past[i],
                    fed + bound / 2,
                )
            &&& forall|input: Fixed|
                within(input, fed) ==> within(
                    #[trigger] allpass_out(here, input, glide),
                    bound + (fed + bound / 2) / 2,
                )
        }),
    decreases inputs.len(),
{
    if inputs.len() > 0 {
        let before = allpass_fed(a, inputs.drop_last(), glide);
        assert forall|i: int| 0 <= i < inputs.drop_last().len() implies within(
            #[trigger] inputs.drop_last()[i],
            fed,
        ) by {
            assert(within(inputs[i], fed));
        }
        an_allpass_forgets_by_halves(a, inputs.drop_last(), glide, reach, bound, fed);
        let held = allpass_held(before, glide);
        a_reading_stays_within(
            before.past,
            glided(before.len, before.target_len, glide),
            reach,
            bound,
        );
        lemma_half_a_bound(held, bound);
        assert(within(inputs[inputs.len() - 1], fed));
        let here = allpass_fed(a, inputs, glide);
        assert forall|i: int| 0 <= i < reach implies within(#[trigger] here.past[i], bound) && (i
            < inputs.len() ==> within(here.past[i], fed + bound / 2)) by {
            if i > 0 {
                assert(here.past[i] == before.past[i - 1]);
            }
        }
    }
    let here = allpass_fed(a, inputs, glide);
    let held = allpass_held(here, glide);
    a_reading_stays_within(here.past, glided(here.len, here.target_len, glide), reach, bound);
    assert forall|input: Fixed| within(input, fed) implies within(
        #[trigger] allpass_out(here, input, glide),
        bound + (fed + bound / 2) / 2,
    ) by {
        lemma_half_a_bound(held, bound);
        lemma_half_a_bound(allpass_stored(held, input), fed + bound / 2);
    }
}

/// A channel after some samples of silence.
pub open spec fn sheet_silenced<S: Sample>(sheet: Sheet<S>, glide: S, frames: nat) -> Sheet<S>
    decreases frames,
{
    if frames == 0 {
        sheet
    } else {
        sheet_after(sheet_silenced(sheet, glide, (frames - 1) as nat), S::of_spec(0), glide)
    }
}

/// What some rounds of silence leave of a bound on the first `count` combs
/// together.
pub open spec fn combs_left(
    combs: Seq<CombState<Fixed>>,
    bound: int,
    settle: nat,
    rounds: nat,
    count: int,
) -> int
    decreases count,
{
    if count <= 0 {
        0
    } else {
        combs_left(combs, bound, settle, rounds, count - 1) + comb_left(
            combs[count - 1],
            bound,
            settle,
            rounds,
        )
    }
}

proof fn lemma_combs_go_their_ways<S: Sample>(sheet: Sheet<S>, glide: S, frames: nat)
    ensures
        ({
            let here = sheet_silenced(sheet, glide, frames);
            &&& here.combs.len() == sheet.combs.len()
            &&& forall|i: int|
                0 <= i < sheet.combs.len() ==> #[trigger] here.combs[i] == comb_silenced(
                    sheet.combs[i],
                    glide,
                    frames,
                )
        }),
    decreases frames,
{
    if frames > 0 {
        lemma_combs_go_their_ways(sheet, glide, (frames - 1) as nat);
        let before = sheet_silenced(sheet, glide, (frames - 1) as nat);
        let here = sheet_silenced(sheet, glide, frames);
        assert forall|i: int| 0 <= i < sheet.combs.len() implies #[trigger] here.combs[i]
            == comb_silenced(sheet.combs[i], glide, frames) by {
            assert(here.combs[i] == comb_after(before.combs[i], S::of_spec(0), glide));
        }
    }
}

proof fn lemma_silence_never_grows(
    c: CombState<Fixed>,
    glide: Fixed,
    reach: int,
    frames: nat,
    bound: int,
)
    requires
        comb_sound(c, glide, reach),
        comb_within(c, reach, bound),
        0 <= bound <= 0x1000_0000_0000_0000,
    ensures
        comb_sound(comb_silenced(c, glide, frames), glide, reach),
        comb_within(comb_silenced(c, glide, frames), reach, bound),
        within(comb_out(comb_silenced(c, glide, frames), glide), bound),
    decreases frames,
{
    if frames > 0 {
        lemma_silence_never_grows(c, glide, reach, (frames - 1) as nat, bound);
        let before = comb_silenced(c, glide, (frames - 1) as nat);
        lemma_comb_step(before, glide, reach, bound, bound, 0);
        a_gain_scales_a_bound(Fixed::of_spec(0), before.feedback, bound);
        let here = comb_silenced(c, glide, frames);
        assert forall|i: int| 0 <= i < reach implies within(#[trigger] here.past[i], bound) by {
            if i > 0 {
                assert(here.past[i] == before.past[i - 1]);
            }
        }
    }
    let here = comb_silenced(c, glide, frames);
    a_reading_stays_within(here.past, glided(here.len, here.target_len, glide), reach, bound);
}

/// A plate's combs die away together. Once a channel has had some rounds of
/// silence, and for good after, what its combs feed the allpasses lies within
/// the sum of what each has left.
pub proof fn the_combs_die_away(
    sheet: Sheet<Fixed>,
    glide: Fixed,
    reach: int,
    bound: int,
    settle: nat,
    rounds: nat,
    frames: nat,
    count: int,
)
    requires
        0 <= count <= sheet.combs.len(),
        count <= NUM_COMBS,
        forall|i: int|
            0 <= i < sheet.combs.len() ==> comb_sound(#[trigger] sheet.combs[i], glide, reach)
                && comb_within(sheet.combs[i], reach, bound),
        0 <= bound <= 0x10_0000_0000_0000,
        0 < reach,
        rounds * ((reach + settle) as nat) <= frames,
    ensures
        ({
            let left = combs_left(sheet.combs, bound, settle, rounds, count);
            let here = sheet_silenced(sheet, glide, frames);
            &&& 0 <= left <= count * bound
            &&& within(comb_sum(here.combs, glide, count), left)
        }),
    decreases count,
{
    lemma_combs_go_their_ways(sheet, glide, frames);
    let here = sheet_silenced(sheet, glide, frames);
    if count > 0 {
        the_combs_die_away(sheet, glide, reach, bound, settle, rounds, frames, count - 1);
        let c = sheet.combs[count - 1];
        let round = (reach + settle) as nat;
        a_comb_dies_away(c, glide, reach, bound, settle, rounds);
        let rest = (frames - rounds * round) as nat;
        let left = comb_left(c, bound, settle, rounds);
        lemma_silence_never_grows(
            comb_silenced(c, glide, rounds * round),
            glide,
            reach,
            rest,
            left,
        );
        lemma_silence_adds_up(c, glide, rounds * round, rest);
        assert(here.combs[count - 1] == comb_silenced(c, glide, frames));
        assert(count * bound == (count - 1) * bound + bound) by (nonlinear_arith);
        assert((count - 1) * bound <= 8 * bound) by (nonlinear_arith)
            requires
                count <= 8,
                0 <= bound,
        ;
    } else {
        assert(0 * bound == 0) by (nonlinear_arith);
    }
}

} // verus!
