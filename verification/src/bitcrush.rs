//! Bitcrush: amplitude quantization plus sample-and-hold decimation.
//!
//! Deliberately not oversampled: the aliasing produced by decimating without a
//! band-limiting filter is the effect, not a defect.

use vstd::prelude::*;

use crate::bus::{fitting, StereoBus};
use crate::curves::{
    the_exponential_of_nothing_is_one, the_logarithm_of_256_is_positive,
    the_logarithm_of_one_is_nothing, Curves,
};
use crate::event::EventList;
use crate::fold::{
    after_frames, left_of, lemma_frame_rendered, lemma_nothing_rendered, right_of,
};
use crate::node::ProcessContext;
use crate::num::{
    a_gain_shrinks, clamp, clamp_of, is_gain, magnitude, max, max_of, nothing_mixed_in_is_dry,
    nothing_times, one_times, products_commute, products_stay_within, ratio, ratio_of, within,
    Fixed, Sample, FRACTION,
};
use crate::smooth::{a_settled_lag_stays, glide_coeff_of, settled, smoothed_next, Smoothed};
use crate::split::{carried_out, param_plan, process_param_split, Desk, RangeProcessor};

verus! {

pub const BITCRUSH_PARAM_BITS: u32 = 0;

pub const BITCRUSH_PARAM_DOWNSAMPLE: u32 = 1;

pub const BITCRUSH_PARAM_MIX: u32 = 2;

pub const BITCRUSH_PARAM_STYLE: u32 = 3;

/// The rate the mix is timed for until the first block says better.
pub const UNKNOWN_RATE: u32 = 48_000;

#[derive(Clone, Copy, Debug, PartialEq, Eq, Structural)]
pub enum BitcrushStyle {
    /// Steps hard and rounds.
    Crush,
    /// Adds a step of triangular noise before it rounds.
    Dither,
    /// Rounds in the domain of the telephony curve: quiet material survives.
    Mu,
    /// Draws a line between latch points.
    Glide,
}

impl BitcrushStyle {
    pub open spec fn at(index: nat) -> Self {
        if index == 0 {
            BitcrushStyle::Crush
        } else if index == 1 {
            BitcrushStyle::Dither
        } else if index == 2 {
            BitcrushStyle::Mu
        } else {
            BitcrushStyle::Glide
        }
    }

    /// The style at an index, the last one for what is past it.
    pub fn from_index(index: usize) -> (style: Self)
        ensures
            style == Self::at(index as nat),
    {
        match index {
            0 => BitcrushStyle::Crush,
            1 => BitcrushStyle::Dither,
            2 => BitcrushStyle::Mu,
            _ => BitcrushStyle::Glide,
        }
    }

    pub fn to_index(self) -> (index: usize)
        ensures
            Self::at(index as nat) == self,
            index < 4,
    {
        match self {
            BitcrushStyle::Crush => 0,
            BitcrushStyle::Dither => 1,
            BitcrushStyle::Mu => 2,
            BitcrushStyle::Glide => 3,
        }
    }
}

/// The controls of the crusher.
#[derive(Clone, Copy, Debug)]
pub struct BitcrushParams<S> {
    pub bits: S,
    pub downsample: S,
    pub mix: S,
    pub style: BitcrushStyle,
}

/// The crusher.
#[derive(Clone, Copy, Debug)]
pub struct BitcrushEffect<S> {
    pub params: BitcrushParams<S>,
    /// Most recently latched sample, held until the next hold boundary.
    pub held_l: S,
    pub held_r: S,
    /// The sample before that, so that a glide can interpolate between latch
    /// points instead of stepping.
    pub prev_held_l: S,
    pub prev_held_r: S,
    /// Fractional sample-and-hold phase, in input samples.
    pub phase: S,
    /// Whether anything has been latched yet.
    pub primed: bool,
    /// Dither generators, one per channel, seeded apart.
    pub noise_l: u32,
    pub noise_r: u32,
    pub sample_rate: u32,
    pub mix: Smoothed<S>,
}

/// The generator's next state.
pub open spec fn shuffled(x: u32) -> u32 {
    let a = x ^ (x << 13u32);
    let b = a ^ (a >> 17u32);
    b ^ (b << 5u32)
}

/// A state's uniform number: its high 24 bits, over `[0, 1)`.
pub open spec fn uniform_of<S: Sample>(x: u32) -> S {
    S::of_spec((x >> 8u32) as nat).over(S::of_spec(16_777_216))
}

fn next_uniform<S: Sample>(state: &mut u32) -> (value: S)
    ensures
        *final(state) == shuffled(*old(state)),
        value == uniform_of::<S>(shuffled(*old(state))),
{
    let mut x: u32 = *state;
    x = x ^ (x << 13u32);
    x = x ^ (x >> 17u32);
    x = x ^ (x << 5u32);
    *state = x;
    S::of((x >> 8u32) as usize).div(S::of(16_777_216))
}

/// A generator that is not stuck at zero never becomes so.
pub proof fn the_noise_never_runs_dry(x: u32)
    requires
        x != 0,
    ensures
        shuffled(x) != 0,
{
    let a = x ^ (x << 13u32);
    let b = a ^ (a >> 17u32);
    assert(x != 0 ==> x ^ (x << 13u32) != 0) by (bit_vector);
    assert(a != 0 ==> a ^ (a >> 17u32) != 0) by (bit_vector);
    assert(b != 0 ==> b ^ (b << 5u32) != 0) by (bit_vector);
}

/// A sample at the nearest multiple of a step.
pub open spec fn quantized<S: Sample>(sample: S, step: S) -> S {
    sample.over(step).round_spec().times(step)
}

fn quantize<S: Sample>(sample: S, step: S) -> (value: S)
    ensures
        value == quantized(sample, step),
{
    sample.div(step).round().mul(step)
}

/// The sign of a sample.
pub open spec fn sign_of<S: Sample>(sample: S) -> S {
    if sample.below(S::of_spec(0)) {
        S::of_spec(1).negated()
    } else {
        S::of_spec(1)
    }
}

/// What a style makes of a sample. Only a dither moves the generator, and it
/// does so twice: a triangular number is two uniform ones summed.
pub open spec fn crushed<S: Curves>(style: BitcrushStyle, sample: S, step: S, noise: u32) -> (
    S,
    u32,
) {
    match style {
        BitcrushStyle::Crush | BitcrushStyle::Glide => (quantized(sample, step), noise),
        BitcrushStyle::Dither => {
            let first = shuffled(noise);
            let second = shuffled(first);
            let dither = uniform_of::<S>(first).plus(uniform_of(second)).minus(
                S::of_spec(1),
            ).times(step);
            (quantized(sample.plus(dither), step), second)
        },
        BitcrushStyle::Mu => {
            let one = S::of_spec(1);
            let mu = S::of_spec(255);
            let sign = sign_of(sample);
            let compressed = sign.times(
                one.plus(mu.times(sample.abs_spec())).ln_spec(),
            ).over(one.plus(mu).ln_spec());
            let held = quantized(compressed, step);
            (
                sign.times(one.plus(mu).powf_spec(held.abs_spec()).minus(one)).over(mu),
                noise,
            )
        },
    }
}

/// Snap one held sample to the coarsened grid, in the manner `style` names.
fn crush<S: Curves>(style: BitcrushStyle, sample: S, step: S, noise: &mut u32) -> (value: S)
    ensures
        (value, *final(noise)) == crushed(style, sample, step, *old(noise)),
{
    match style {
        BitcrushStyle::Crush | BitcrushStyle::Glide => quantize(sample, step),
        BitcrushStyle::Dither => {
            let first: S = next_uniform(noise);
            let second: S = next_uniform(noise);
            let dither = first.add(second).sub(S::of(1)).mul(step);
            quantize(sample.add(dither), step)
        },
        BitcrushStyle::Mu => {
            let one = S::of(1);
            let mu = S::of(255);
            let sign = if sample.lt(S::of(0)) {
                one.neg()
            } else {
                one
            };
            let compressed = sign.mul(one.add(mu.mul(sample.abs())).ln()).div(one.add(mu).ln());
            let held = quantize(compressed, step);
            sign.mul(one.add(mu).powf(held.abs()).sub(one)).div(mu)
        },
    }
}

/// The step of a bit depth: continuous in it, so that it can be swept.
pub open spec fn step_of<S: Curves>(bits: S) -> S {
    S::of_spec(2).over(S::of_spec(2).powf_spec(bits))
}

/// The samples a latch holds.
pub open spec fn hold_of<S: Sample>(downsample: S) -> S {
    max_of(downsample, S::of_spec(1))
}

/// The crusher after the hold has moved a frame on, latching where it is due.
/// The remainder carries, so that fractional holds average out.
pub open spec fn crush_held<S: Sample>(c: BitcrushEffect<S>, l: S, r: S) -> BitcrushEffect<S> {
    let hold = hold_of(c.params.downsample);
    let phase = c.phase.plus(S::of_spec(1));
    if !c.primed || hold.at_most(phase) {
        BitcrushEffect {
            phase: if c.primed {
                phase.minus(hold)
            } else {
                S::of_spec(0)
            },
            primed: true,
            prev_held_l: c.held_l,
            prev_held_r: c.held_r,
            held_l: l,
            held_r: r,
            ..c
        }
    } else {
        BitcrushEffect { phase, ..c }
    }
}

/// What a hold puts out: a line between latch points where the style glides.
pub open spec fn source_of<S: Sample>(c: BitcrushEffect<S>, prev: S, held: S) -> S {
    match c.params.style {
        BitcrushStyle::Glide => prev.plus(
            held.minus(prev).times(c.phase.over(hold_of(c.params.downsample))),
        ),
        _ => held,
    }
}

/// One frame: the crusher after it, and what it puts out.
pub open spec fn crush_frame<S: Curves>(before: BitcrushEffect<S>, l: S, r: S) -> (
    BitcrushEffect<S>,
    (S, S),
) {
    let mix = smoothed_next(before.mix);
    let c = crush_held(BitcrushEffect { mix, ..before }, l, r);
    let step = step_of(c.params.bits);
    let (wet_l, noise_l) = crushed(
        c.params.style,
        source_of(c, c.prev_held_l, c.held_l),
        step,
        c.noise_l,
    );
    let (wet_r, noise_r) = crushed(
        c.params.style,
        source_of(c, c.prev_held_r, c.held_r),
        step,
        c.noise_r,
    );
    (
        BitcrushEffect { noise_l, noise_r, ..c },
        (
            l.plus(wet_l.minus(l).times(mix.value)),
            r.plus(wet_r.minus(r).times(mix.value)),
        ),
    )
}

/// The crusher as a step.
pub open spec fn crush_step<S: Curves>() -> spec_fn(BitcrushEffect<S>, S, S) -> BitcrushEffect<S> {
    |c: BitcrushEffect<S>, l: S, r: S| crush_frame(c, l, r).0
}

/// What the crusher puts out at a step.
pub open spec fn crush_heard<S: Curves>() -> spec_fn(BitcrushEffect<S>, S, S) -> (S, S) {
    |c: BitcrushEffect<S>, l: S, r: S| crush_frame(c, l, r).1
}

/// The crusher after a parameter was taken.
pub open spec fn crush_taking<S: Sample>(c: BitcrushEffect<S>, id: u32, value: S) -> BitcrushEffect<
    S,
> {
    let params = c.params;
    if id == BITCRUSH_PARAM_BITS {
        let bits = clamp_of(value, S::of_spec(1), S::of_spec(16));
        BitcrushEffect { params: BitcrushParams { bits, ..params }, ..c }
    } else if id == BITCRUSH_PARAM_DOWNSAMPLE {
        let downsample = clamp_of(value, S::of_spec(1), S::of_spec(64));
        BitcrushEffect { params: BitcrushParams { downsample, ..params }, ..c }
    } else if id == BITCRUSH_PARAM_MIX {
        let mix = clamp_of(value, S::of_spec(0), S::of_spec(1));
        BitcrushEffect {
            params: BitcrushParams { mix, ..params },
            mix: Smoothed { target: mix, ..c.mix },
            ..c
        }
    } else if id == BITCRUSH_PARAM_STYLE {
        let style = BitcrushStyle::at(value.round_spec().whole_spec());
        BitcrushEffect { params: BitcrushParams { style, ..params }, ..c }
    } else {
        c
    }
}

/// The crusher as it begins a block.
pub open spec fn crush_begun<S: Curves>(c: BitcrushEffect<S>, sample_rate: u32) -> BitcrushEffect<
    S,
> {
    if sample_rate == c.sample_rate {
        c
    } else {
        BitcrushEffect {
            sample_rate,
            mix: Smoothed { coeff: glide_coeff_of(ratio_of(5, 1000), sample_rate), ..c.mix },
            ..c
        }
    }
}

/// The crusher after the host skipped some frames of silence: the hold runs on
/// the clock.
pub open spec fn crush_skipped<S: Sample>(c: BitcrushEffect<S>, frames: nat) -> BitcrushEffect<S>
    decreases frames,
{
    if frames == 0 {
        c
    } else {
        crush_held(crush_skipped(c, (frames - 1) as nat), S::of_spec(0), S::of_spec(0))
    }
}

/// Whether the crusher may be left alone: nothing is held and the mix stands
/// still. A dither makes noise out of silence, so while its wet is heard it
/// never may.
pub open spec fn crush_resting<S: Sample>(c: BitcrushEffect<S>, epsilon: S) -> bool {
    &&& settled(c.mix)
    &&& c.params.style == BitcrushStyle::Dither ==> c.mix.value.at_most(S::of_spec(0))
    &&& c.held_l.abs_spec().at_most(epsilon)
    &&& c.held_r.abs_spec().at_most(epsilon)
    &&& c.prev_held_l.abs_spec().at_most(epsilon)
    &&& c.prev_held_r.abs_spec().at_most(epsilon)
}

/// A crusher as it is made, with nothing held.
pub open spec fn crusher_new<S: Curves>(params: BitcrushParams<S>) -> BitcrushEffect<S> {
    let zero = S::of_spec(0);
    let mix = clamp_of(params.mix, zero, S::of_spec(1));
    BitcrushEffect {
        params,
        held_l: zero,
        held_r: zero,
        prev_held_l: zero,
        prev_held_r: zero,
        phase: zero,
        primed: false,
        noise_l: 0x9e37_79b9,
        noise_r: 0x85eb_ca6b,
        sample_rate: UNKNOWN_RATE,
        mix: Smoothed {
            value: mix,
            target: mix,
            coeff: glide_coeff_of(ratio_of(5, 1000), UNKNOWN_RATE),
        },
    }
}

impl<S: Curves> BitcrushEffect<S> {
    /// No rate is known yet; `process` times the mix on its first call.
    pub fn new(params: BitcrushParams<S>) -> (effect: Self)
        ensures
            effect == crusher_new(params),
    {
        BitcrushEffect {
            params,
            held_l: S::of(0),
            held_r: S::of(0),
            prev_held_l: S::of(0),
            prev_held_r: S::of(0),
            phase: S::of(0),
            primed: false,
            noise_l: 0x9e37_79b9,
            noise_r: 0x85eb_ca6b,
            sample_rate: UNKNOWN_RATE,
            mix: Smoothed::new(
                clamp(params.mix, S::of(0), S::of(1)),
                ratio(5, 1000),
                UNKNOWN_RATE,
            ),
        }
    }

    pub fn params(&self) -> (params: BitcrushParams<S>)
        ensures
            params == self.params,
    {
        self.params
    }

    /// Replace the parameter set wholesale: jump straight to the new value.
    pub fn set_params(&mut self, params: BitcrushParams<S>)
        ensures
            ({
                let mix = clamp_of(params.mix, S::of_spec(0), S::of_spec(1));
                *final(self) == BitcrushEffect {
                    params,
                    mix: Smoothed { value: mix, target: mix, ..old(self).mix },
                    ..*old(self)
                }
            }),
    {
        self.params = params;
        self.mix.reset_to(clamp(params.mix, S::of(0), S::of(1)));
    }

    pub fn is_at_rest(&self, epsilon: S) -> (answer: bool)
        ensures
            answer == crush_resting(*self, epsilon),
    {
        self.mix.is_settled() && !(self.params.style == BitcrushStyle::Dither
            && !self.mix.value().le(S::of(0))) && self.held_l.abs().le(epsilon)
            && self.held_r.abs().le(epsilon) && self.prev_held_l.abs().le(epsilon)
            && self.prev_held_r.abs().le(epsilon)
    }

    /// Move the hold along a frame.
    fn hold_frame(&mut self, l: S, r: S)
        ensures
            *final(self) == crush_held(*old(self), l, r),
    {
        let hold = max(self.params.downsample, S::of(1));
        self.phase = self.phase.add(S::of(1));
        if !self.primed || hold.le(self.phase) {
            self.phase = if self.primed {
                self.phase.sub(hold)
            } else {
                S::of(0)
            };
            self.primed = true;
            self.prev_held_l = self.held_l;
            self.prev_held_r = self.held_r;
            self.held_l = l;
            self.held_r = r;
        }
    }

    /// The hold runs on the clock rather than on the input.
    pub fn skip_block(&mut self, ctx: &ProcessContext)
        ensures
            *final(self) == crush_skipped(*old(self), ctx.frames as nat),
    {
        let mut frame: usize = 0;
        while frame < ctx.frames
            invariant
                frame <= ctx.frames,
                *self == crush_skipped(*old(self), frame as nat),
            decreases ctx.frames - frame,
        {
            self.hold_frame(S::of(0), S::of(0));
            frame = frame + 1;
        }
    }

    /// One frame: hold, crush and blend.
    fn process_frame(&mut self, dry_l: S, dry_r: S) -> (out: (S, S))
        ensures
            (*final(self), out) == crush_frame(*old(self), dry_l, dry_r),
    {
        let mix = self.mix.advance();
        self.hold_frame(dry_l, dry_r);
        let step = S::of(2).div(S::of(2).powf(self.params.bits));
        let hold = max(self.params.downsample, S::of(1));
        let t = self.phase.div(hold);
        let style = self.params.style;
        let source_l = match style {
            BitcrushStyle::Glide => self.prev_held_l.add(
                self.held_l.sub(self.prev_held_l).mul(t),
            ),
            _ => self.held_l,
        };
        let source_r = match style {
            BitcrushStyle::Glide => self.prev_held_r.add(
                self.held_r.sub(self.prev_held_r).mul(t),
            ),
            _ => self.held_r,
        };
        let wet_l = crush(style, source_l, step, &mut self.noise_l);
        let wet_r = crush(style, source_r, step, &mut self.noise_r);
        (
            dry_l.add(wet_l.sub(dry_l).mul(mix)),
            dry_r.add(wet_r.sub(dry_r).mul(mix)),
        )
    }

    pub fn process<B: Copy>(
        &mut self,
        ctx: &ProcessContext,
        bus: &mut StereoBus<S>,
        events_in: &EventList<S, B>,
    )
        requires
            old(bus).well_formed(),
        ensures
            final(bus).well_formed(),
            carried_out(
                Desk {
                    node: crush_begun(*old(self), ctx.sample_rate),
                    l: old(bus).l@,
                    r: old(bus).r@,
                },
                param_plan(events_in@, fitting(ctx.frames as int, old(bus).l@.len() as int)),
                Desk { node: *final(self), l: final(bus).l@, r: final(bus).r@ },
            ),
    {
        if ctx.sample_rate != self.sample_rate {
            self.sample_rate = ctx.sample_rate;
            self.mix.set_time(ratio(5, 1000), ctx.sample_rate);
        }
        let capacity: usize = bus.capacity();
        let frames: usize = if ctx.frames < capacity {
            ctx.frames
        } else {
            capacity
        };
        process_param_split(self, bus, events_in, frames);
    }
}

impl<S: Curves> RangeProcessor<S> for BitcrushEffect<S> {
    open spec fn ready(&self) -> bool {
        true
    }

    open spec fn renders(
        &self,
        l: Seq<S>,
        r: Seq<S>,
        start: int,
        end: int,
        after: &Self,
        new_l: Seq<S>,
        new_r: Seq<S>,
    ) -> bool {
        &&& *after == after_frames(crush_step(), *self, l, r, start, end - start)
        &&& new_l == left_of(crush_step(), crush_heard(), *self, l, r, start, end)
        &&& new_r == right_of(crush_step(), crush_heard(), *self, l, r, start, end)
    }

    open spec fn takes(&self, id: u32, value: S, after: &Self) -> bool {
        *after == crush_taking(*self, id, value)
    }

    fn process_range(&mut self, bus: &mut StereoBus<S>, start: usize, end: usize) {
        let ghost before = *self;
        let ghost l = bus.l@;
        let ghost r = bus.r@;
        proof {
            lemma_nothing_rendered(crush_step(), crush_heard(), before, l, r, start as int);
        }
        let mut i: usize = start;
        while i < end
            invariant
                start <= i <= end <= l.len(),
                l.len() == r.len(),
                bus.l@.len() == l.len(),
                bus.r@.len() == r.len(),
                *self == after_frames(crush_step(), before, l, r, start as int, i - start),
                bus.l@ == left_of(
                    crush_step(),
                    crush_heard(),
                    before,
                    l,
                    r,
                    start as int,
                    i as int,
                ),
                bus.r@ == right_of(
                    crush_step(),
                    crush_heard(),
                    before,
                    l,
                    r,
                    start as int,
                    i as int,
                ),
            decreases end - i,
        {
            proof {
                lemma_frame_rendered(
                    crush_step(),
                    crush_heard(),
                    before,
                    l,
                    r,
                    start as int,
                    i as int,
                );
            }
            let ghost here = *self;
            let (out_l, out_r) = self.process_frame(bus.l[i], bus.r[i]);
            assert(*self == crush_frame(here, l[i as int], r[i as int]).0);
            assert((out_l, out_r) == crush_frame(here, l[i as int], r[i as int]).1);
            bus.l[i] = out_l;
            bus.r[i] = out_r;
            i = i + 1;
        }
    }

    fn apply_param(&mut self, id: u32, value: S) {
        match id {
            BITCRUSH_PARAM_BITS => {
                self.params.bits = clamp(value, S::of(1), S::of(16));
            },
            BITCRUSH_PARAM_DOWNSAMPLE => {
                self.params.downsample = clamp(value, S::of(1), S::of(64));
            },
            BITCRUSH_PARAM_MIX => {
                self.params.mix = clamp(value, S::of(0), S::of(1));
                self.mix.set_target(self.params.mix);
            },
            BITCRUSH_PARAM_STYLE => {
                self.params.style = BitcrushStyle::from_index(value.round().whole());
            },
            _ => {},
        }
    }
}

/// A crusher that slept comes back with its hold where it would have been: the
/// phase does not depend on what was heard.
pub proof fn the_hold_runs_on_the_clock<S: Curves>(
    c: BitcrushEffect<S>,
    l: Seq<S>,
    r: Seq<S>,
    start: int,
    frames: nat,
)
    ensures
        ({
            let rendered = after_frames(crush_step(), c, l, r, start, frames as int);
            let skipped = crush_skipped(c, frames);
            &&& rendered.phase == skipped.phase
            &&& rendered.primed == skipped.primed
            &&& rendered.params == skipped.params
        }),
    decreases frames,
{
    if frames > 0 {
        the_hold_runs_on_the_clock(c, l, r, start, (frames - 1) as nat);
        let here = after_frames(crush_step(), c, l, r, start, frames - 1);
        assert(after_frames(crush_step(), c, l, r, start, frames as int) == crush_frame(
            here,
            l[start + frames - 1],
            r[start + frames - 1],
        ).0);
    }
}

/// A mix of nothing is the input exactly.
pub proof fn no_mix_is_the_input(c: BitcrushEffect<Fixed>, l: Fixed, r: Fixed)
    requires
        settled(c.mix),
        c.mix.value == Fixed::of_spec(0),
    ensures
        crush_frame(c, l, r).1 == (l, r),
{
    a_settled_lag_stays(c.mix);
    let held = crush_held(c, l, r);
    let step = step_of(held.params.bits);
    let wet_l = crushed(
        held.params.style,
        source_of(held, held.prev_held_l, held.held_l),
        step,
        held.noise_l,
    ).0;
    let wet_r = crushed(
        held.params.style,
        source_of(held, held.prev_held_r, held.held_r),
        step,
        held.noise_r,
    ).0;
    nothing_mixed_in_is_dry(l, wet_l);
    nothing_mixed_in_is_dry(r, wet_r);
}

/// A crushed sample lies on the grid: a whole number of steps from nothing.
pub proof fn a_crushed_sample_lies_on_the_grid(sample: Fixed, step: Fixed) -> (steps: int)
    requires
        0 < step.raw <= FRACTION,
        within(sample.over(step), 0x1000_0000_0000_0000),
    ensures
        quantized(sample, step).raw == steps * step.raw,
{
    let f = FRACTION as int;
    let share = sample.over(step).raw as int;
    let steps = if share < 0 {
        -((-share + f / 2) / f)
    } else {
        (share + f / 2) / f
    };
    let whole = sample.over(step).round_spec();
    assert(whole.raw == steps * f);
    let s = step.raw as int;
    let m = magnitude(steps);
    assert(magnitude((steps * f) * s) == (m * s) * f) by (nonlinear_arith)
        requires
            m == magnitude(steps),
            0 < s,
            f == 0x1_0000_0000,
    ;
    assert((m * s) * f / f == m * s) by (nonlinear_arith)
        requires
            f == 0x1_0000_0000,
    ;
    assert(0 <= m * s <= m * f) by (nonlinear_arith)
        requires
            0 <= m,
            0 < s <= f,
    ;
    assert(steps < 0 ==> steps * s == -(m * s)) by (nonlinear_arith)
        requires
            m == magnitude(steps),
    ;
    assert(((steps * f) * s < 0) == (steps < 0)) by (nonlinear_arith)
        requires
            0 < s,
            f == 0x1_0000_0000,
    ;
    steps
}

/// A crusher that has nothing held and may be left alone stays silent: a silent
/// frame comes out silent, and leaves it so.
pub proof fn a_resting_crusher_stays_silent(c: BitcrushEffect<Fixed>)
    requires
        crush_resting(c, Fixed::of_spec(0)),
        is_gain(c.mix.value),
        step_of(c.params.bits).raw != 0,
    ensures
        crush_frame(c, Fixed::of_spec(0), Fixed::of_spec(0)).1 == (
            Fixed::of_spec(0),
            Fixed::of_spec(0),
        ),
        crush_resting(
            crush_frame(c, Fixed::of_spec(0), Fixed::of_spec(0)).0,
            Fixed::of_spec(0),
        ),
{
    let zero = Fixed::of_spec(0);
    let step = step_of(c.params.bits);
    a_settled_lag_stays(c.mix);
    let after = crush_held(c, zero, zero);
    assert(after.held_l == zero && after.held_r == zero);
    assert(after.prev_held_l == zero && after.prev_held_r == zero);
    nothing_times(after.phase.over(hold_of(c.params.downsample)));
    if c.params.style == BitcrushStyle::Dither {
        let noise_l = crushed(c.params.style, zero, step, after.noise_l).0;
        let noise_r = crushed(c.params.style, zero, step, after.noise_r).0;
        assert(c.mix.value == zero);
        nothing_mixed_in_is_dry(zero, noise_l);
        nothing_mixed_in_is_dry(zero, noise_r);
    } else {
        lemma_nothing_crushed(c.params.style, step, after.noise_l);
        lemma_nothing_crushed(c.params.style, step, after.noise_r);
        nothing_times(c.mix.value);
    }
}

/// Silence lies on every grid.
proof fn lemma_nothing_crushed(style: BitcrushStyle, step: Fixed, noise: u32)
    requires
        style != BitcrushStyle::Dither,
        step.raw != 0,
    ensures
        crushed(style, Fixed::of_spec(0), step, noise).0 == Fixed::of_spec(0),
{
    let zero = Fixed::of_spec(0);
    let one = Fixed::of_spec(1);
    let mu = Fixed::of_spec(255);
    let d = magnitude(step.raw as int);
    assert(0int / d == 0) by (nonlinear_arith)
        requires
            d > 0,
    ;
    assert(zero.over(step) == zero);
    assert(zero.round_spec() == zero) by {
        assert((0int + FRACTION as int / 2) / (FRACTION as int) == 0);
    }
    nothing_times(step);
    assert(quantized(zero, step) == zero);
    if style == BitcrushStyle::Mu {
        nothing_times(mu);
        products_commute(mu, zero);
        the_logarithm_of_one_is_nothing();
        one_times(zero);
        the_logarithm_of_256_is_positive();
        let whole = one.plus(mu);
        assert(whole == Fixed::of_spec(256));
        let ln = whole.ln_spec().raw as int;
        assert(0int / ln == 0) by (nonlinear_arith)
            requires
                ln > 0,
        ;
        assert(zero.over(whole.ln_spec()) == zero);
        nothing_times(whole.ln_spec());
        the_exponential_of_nothing_is_one();
        assert(whole.powf_spec(zero) == one);
        assert(zero.over(mu) == zero) by {
            assert(0int / (255int * 0x1_0000_0000) == 0);
        }
    }
}

/// Whether the next frame is latched.
pub open spec fn latch_due<S: Sample>(c: BitcrushEffect<S>) -> bool {
    !c.primed || hold_of(c.params.downsample).at_most(c.phase.plus(S::of_spec(1)))
}

/// A latch takes the frame it falls on, and keeps of what was held only that
/// much longer: two of them, and nothing held before is left, finite or not.
pub proof fn two_latches_forget_what_was_held<S: Sample>(
    c: BitcrushEffect<S>,
    l: S,
    r: S,
    next_l: S,
    next_r: S,
)
    requires
        latch_due(c),
        latch_due(crush_held(c, l, r)),
    ensures
        ({
            let after = crush_held(crush_held(c, l, r), next_l, next_r);
            &&& after.held_l == next_l && after.held_r == next_r
            &&& after.prev_held_l == l && after.prev_held_r == r
        }),
{
}

proof fn lemma_unlatched(
    c: BitcrushEffect<Fixed>,
    l: Seq<Fixed>,
    r: Seq<Fixed>,
    start: int,
    count: nat,
)
    requires
        c.primed,
        0 <= c.phase.raw <= 0x1000_0000_0000_0000,
        count <= 0x1000_0000,
        forall|k: int|
            0 <= k < count ==> !latch_due(#[trigger] after_frames(crush_step(), c, l, r, start, k)),
    ensures
        ({
            let here = after_frames(crush_step(), c, l, r, start, count as int);
            &&& here.primed
            &&& here.params == c.params
            &&& here.phase.raw == c.phase.raw + count * FRACTION
        }),
    decreases count,
{
    if count > 0 {
        lemma_unlatched(c, l, r, start, (count - 1) as nat);
        assert(!latch_due(after_frames(crush_step(), c, l, r, start, count - 1)));
    }
}

/// A latch comes within the frames of its hold, from any place in it.
pub proof fn a_latch_comes_within_its_hold(
    c: BitcrushEffect<Fixed>,
    l: Seq<Fixed>,
    r: Seq<Fixed>,
    start: int,
    count: nat,
)
    requires
        0 <= c.phase.raw <= 0x1000_0000_0000_0000,
        0 < count <= 0x1000_0000,
        hold_of(c.params.downsample).raw <= count * FRACTION,
    ensures
        exists|k: int|
            0 <= k < count && latch_due(
                #[trigger] after_frames(crush_step(), c, l, r, start, k),
            ),
{
    if c.primed {
        if !(exists|k: int|
            0 <= k < count && latch_due(#[trigger] after_frames(crush_step(), c, l, r, start, k)))
        {
            lemma_unlatched(c, l, r, start, (count - 1) as nat);
            assert(!latch_due(after_frames(crush_step(), c, l, r, start, count - 1)));
        }
    } else {
        assert(latch_due(after_frames(crush_step(), c, l, r, start, 0)));
    }
}

/// A sample on a grid is no more than twice itself from nothing.
proof fn lemma_grid_at_most_doubles(sample: Fixed, step: Fixed, bound: int)
    requires
        within(sample, bound),
        0 <= bound <= 0x1_0000_0000,
        0 < step.raw <= 2 * FRACTION,
    ensures
        within(quantized(sample, step), 2 * bound),
{
    let f = FRACTION as int;
    let x = magnitude(sample.raw as int);
    let d = step.raw as int;
    let q = x * f / d;
    assert(q * d <= x * f && 0 <= q && 0 <= x * f && q <= x * f) by (nonlinear_arith)
        requires
            q == x * f / d,
            0 <= x,
            0 < d,
            f == 0x1_0000_0000,
    ;
    assert(x * f <= 0x1_0000_0000_0000_0000) by (nonlinear_arith)
        requires
            0 <= x <= 0x1_0000_0000,
            f == 0x1_0000_0000,
    ;
    assert(0int / d == 0) by (nonlinear_arith)
        requires
            0 < d,
    ;
    if sample.raw < 0 {
        let raw = sample.raw as int;
        assert(raw * f == -(x * f)) by (nonlinear_arith)
            requires
                x == -raw,
        ;
    }
    let share = sample.over(step);
    let held = magnitude(share.raw as int);
    assert(held <= q + 1);
    assert(held <= q || q >= 0x7fff_ffff_ffff_ffff);
    lemma_rounded_back(share, step, x, q);
}

proof fn lemma_rounded_back(share: Fixed, step: Fixed, x: int, q: int)
    requires
        0 <= x <= 0x1_0000_0000,
        0 < step.raw <= 2 * FRACTION,
        0 <= q,
        q * step.raw <= x * FRACTION,
        magnitude(share.raw as int) <= q || q >= 0x7fff_ffff_ffff_ffff && magnitude(
            share.raw as int,
        ) <= 0x8000_0000_0000_0000,
    ensures
        within(share.round_spec().times(step), 2 * x),
{
    let f = FRACTION as int;
    let d = step.raw as int;
    let n = magnitude(share.raw as int);
    let k = (n + f / 2) / f;
    assert(f / 2 == 0x8000_0000);
    assert(k * f <= n + 0x8000_0000 && 0 <= k && (k >= 1 ==> 0x8000_0000 <= n)) by (nonlinear_arith)
        requires
            k == (n + 0x8000_0000) / f,
            0 <= n,
            f == 0x1_0000_0000,
    ;
    let rounded = share.round_spec();
    let m = magnitude(rounded.raw as int);
    assert(m <= k * f);
    assert(m <= 2 * n);
    assert(m <= 2 * q || m <= 0x8000_0000_0000_0000 && 0x7fff_ffff_ffff_ffff <= q);
    assert(m <= 2 * q);
    assert(m * d <= 2 * (x * f)) by (nonlinear_arith)
        requires
            m <= 2 * q,
            q * d <= x * f,
            0 < d,
    ;
    assert((2 * x) * f == 2 * (x * f)) by (nonlinear_arith);
    products_stay_within(rounded, step, m, d, 2 * x);
}

/// A crusher at rest is inaudible for as long as silence lasts: what comes out
/// is within twice the threshold it rests at, and it rests at it still. Where it
/// glides, the line has to run between its two ends. The companded style is left
/// out: its curve is not a grid's.
pub proof fn a_resting_crusher_is_inaudible(c: BitcrushEffect<Fixed>, epsilon: Fixed)
    requires
        crush_resting(c, epsilon),
        0 <= epsilon.raw <= FRACTION,
        c.params.style != BitcrushStyle::Mu,
        is_gain(c.mix.value),
        0 < step_of(c.params.bits).raw <= 2 * FRACTION,
        c.params.style == BitcrushStyle::Glide ==> is_gain(
            crush_held(c, Fixed::of_spec(0), Fixed::of_spec(0)).phase.over(
                hold_of(c.params.downsample),
            ),
        ),
    ensures
        within(crush_frame(c, Fixed::of_spec(0), Fixed::of_spec(0)).1.0, 2 * epsilon.raw),
        within(crush_frame(c, Fixed::of_spec(0), Fixed::of_spec(0)).1.1, 2 * epsilon.raw),
        crush_resting(crush_frame(c, Fixed::of_spec(0), Fixed::of_spec(0)).0, epsilon),
{
    let zero = Fixed::of_spec(0);
    let step = step_of(c.params.bits);
    a_settled_lag_stays(c.mix);
    let after = crush_held(c, zero, zero);
    lemma_crushed_inaudible(
        after,
        after.prev_held_l,
        after.held_l,
        step,
        after.noise_l,
        epsilon.raw as int,
    );
    lemma_crushed_inaudible(
        after,
        after.prev_held_r,
        after.held_r,
        step,
        after.noise_r,
        epsilon.raw as int,
    );
    assert(BitcrushEffect { mix: smoothed_next(c.mix), ..c } == c);
}

/// One channel of a crusher that holds no more than `bound` puts out no more
/// than twice it where nothing comes in.
proof fn lemma_crushed_inaudible(
    c: BitcrushEffect<Fixed>,
    prev: Fixed,
    held: Fixed,
    step: Fixed,
    noise: u32,
    bound: int,
)
    requires
        within(prev, bound),
        within(held, bound),
        0 <= bound <= FRACTION,
        0 < step.raw <= 2 * FRACTION,
        is_gain(c.mix.value),
        c.params.style != BitcrushStyle::Mu,
        c.params.style == BitcrushStyle::Dither ==> c.mix.value == Fixed::of_spec(0),
        c.params.style == BitcrushStyle::Glide ==> is_gain(
            c.phase.over(hold_of(c.params.downsample)),
        ),
    ensures
        ({
            let zero = Fixed::of_spec(0);
            let wet = crushed(c.params.style, source_of(c, prev, held), step, noise).0;
            within(zero.plus(wet.minus(zero).times(c.mix.value)), 2 * bound)
        }),
{
    let zero = Fixed::of_spec(0);
    let source = source_of(c, prev, held);
    let wet = crushed(c.params.style, source, step, noise).0;
    if c.params.style == BitcrushStyle::Dither {
        nothing_mixed_in_is_dry(zero, wet);
    } else {
        if c.params.style == BitcrushStyle::Glide {
            let share = c.phase.over(hold_of(c.params.downsample));
            a_gain_shrinks(share, held.minus(prev));
            products_commute(share, held.minus(prev));
        }
        assert(within(source, bound));
        lemma_grid_at_most_doubles(source, step, bound);
        assert(wet == quantized(source, step));
        a_gain_shrinks(c.mix.value, wet);
        products_commute(c.mix.value, wet);
    }
}

} // verus!
