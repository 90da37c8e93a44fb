//! Gate and compressor.
//!
//! Both detect on the maximum of the two channels and apply one gain to both.
//! The compressor smooths the level and maps it through a static curve; the
//! gate instead ramps its gain, because a gate's attack and release describe
//! how fast it opens and shuts.

use vstd::prelude::*;

use crate::bus::{fitting, StereoBus};
use crate::curves::Curves;
use crate::event::EventList;
use crate::fold::{
    after_frames, left_of, lemma_frame_rendered, lemma_nothing_rendered, right_of,
};
use crate::level::{
    a_compressor_never_lifts, a_follower_keeps_its_share_of_the_distance,
    a_span_is_its_milliseconds, a_time_coefficient_is_a_gain, an_attenuation_is_a_gain,
    an_attenuation_lies_between_its_bounds, approached, block_begun, compression_of,
    compressor_gain_db, db_to_linear_unfloored, decibels_of, followed, follower_new, gate_gain_db,
    gating_of, linear_of, linear_to_db_unfloored, linked_peak, louder, observed,
    the_louder_channel_is_either, time_coeff, time_coeff_of, timed, what_is_not_finite_is_silence,
    DynamicsBlock, DynamicsFrame, EnvelopeFollower,
};
use crate::node::ProcessContext;
use crate::num::{
    a_gain_shrinks, a_product_is_exact_to_a_count, a_ratio_is_exact_to_a_count,
    a_share_is_exact_to_a_count, clamp, clamp_of, held, is_gain, magnitude, min, min_of,
    nothing_times, products_commute, products_keep_order, ratio, ratio_of, saturated, times_one,
    within, Fixed, Sample, FRACTION,
};
use crate::smooth::{a_settled_lag_stays, glide_coeff_of, settled, smoothed_next, Smoothed};
use crate::split::{carried_out, param_plan, process_param_split, Desk, RangeProcessor};

verus! {

pub const GATE_PARAM_THRESHOLD_DB: u32 = 0;

pub const GATE_PARAM_ATTACK_MS: u32 = 1;

pub const GATE_PARAM_HOLD_MS: u32 = 2;

pub const GATE_PARAM_RELEASE_MS: u32 = 3;

pub const GATE_PARAM_RANGE_DB: u32 = 4;

/// How far under its threshold the noise gate's level has to fall before it shuts,
/// in decibels: open at the knob and shut this far below it, so material
/// sitting on the line holds the noise gate one way or the other.
pub const GATE_HYSTERESIS_DB: usize = 6;

/// Release of the noise gate's level detector in milliseconds. Its attack is
/// instant; the release carries the level across the troughs of a waveform.
pub const GATE_DETECTOR_RELEASE_MS: usize = 5;

/// The controls of the noise gate.
#[derive(Clone, Copy, Debug)]
pub struct GateParams<S> {
    pub threshold_db: S,
    pub attack_ms: S,
    pub hold_ms: S,
    pub release_ms: S,
    pub range_db: S,
}

/// The noise gate.
#[derive(Clone, Copy, Debug)]
pub struct GateEffect<S> {
    pub params: GateParams<S>,
    pub sample_rate: u32,
    /// The level the thresholds are judged against.
    pub detector: EnvelopeFollower<S>,
    /// Whether the noise gate is open, which the two thresholds latch.
    pub open: bool,
    /// Current attenuation in decibels, ramped toward the target.
    pub gain_db: S,
    /// Samples of hold remaining once the level has fallen under the lower
    /// threshold.
    pub hold_remaining: u32,
    pub block: DynamicsBlock<S>,
}

/// A count as far as 32 bits go.
pub open spec fn count_of(whole: nat) -> u32 {
    if whole > u32::MAX {
        u32::MAX
    } else {
        whole as u32
    }
}

pub fn count(whole: usize) -> (value: u32)
    ensures
        value == count_of(whole as nat),
{
    if whole > 0xffff_ffff {
        u32::MAX
    } else {
        whole as u32
    }
}

/// The hold in samples.
pub open spec fn hold_of<S: Sample>(params: GateParams<S>, sample_rate: u32) -> u32 {
    count_of(crate::level::span_of(params.hold_ms, sample_rate).whole_spec())
}

/// The threshold under which the noise gate shuts.
pub open spec fn shut_of<S: Sample>(params: GateParams<S>) -> S {
    params.threshold_db.minus(S::of_spec(GATE_HYSTERESIS_DB as nat))
}

/// The level the noise gate judges a frame by, in decibels.
pub open spec fn gate_level<S: Curves>(gate: GateEffect<S>, l: S, r: S) -> S {
    decibels_of(followed(gate.detector, louder(l, r)))
}

/// Whether a gate is open after a level, and what is left of its hold. Between
/// the two thresholds nothing changes: that band is the hysteresis.
pub open spec fn gate_latched<S: Sample>(gate: GateEffect<S>, level_db: S) -> (bool, u32) {
    if gate.params.threshold_db.at_most(level_db) {
        (true, hold_of(gate.params, gate.sample_rate))
    } else if level_db.below(shut_of(gate.params)) {
        if gate.hold_remaining > 0 {
            (gate.open, (gate.hold_remaining - 1) as u32)
        } else {
            (false, 0)
        }
    } else {
        (gate.open, gate.hold_remaining)
    }
}

/// The attenuation on its way to where an open or a shut gate is going.
pub open spec fn gate_ramped<S: Curves>(gate: GateEffect<S>, open: bool) -> S {
    let target = if open {
        S::of_spec(0)
    } else {
        min_of(gate.params.range_db, S::of_spec(0))
    };
    let ms = if gate.gain_db.below(target) {
        gate.params.attack_ms
    } else {
        gate.params.release_ms
    };
    approached(gate.gain_db, target, time_coeff_of(ms, gate.sample_rate))
}

/// The noise gate after one frame.
pub open spec fn gate_next<S: Curves>(gate: GateEffect<S>, l: S, r: S) -> GateEffect<S> {
    let level = followed(gate.detector, louder(l, r));
    let (open, hold_remaining) = gate_latched(gate, decibels_of(level));
    let gain_db = gate_ramped(gate, open);
    GateEffect {
        detector: EnvelopeFollower { level, ..gate.detector },
        open,
        hold_remaining,
        gain_db,
        block: observed(gate.block, level, gain_db),
        ..gate
    }
}

/// What the noise gate makes of one frame.
pub open spec fn gate_out<S: Curves>(gate: GateEffect<S>, l: S, r: S) -> (S, S) {
    let gain = linear_of(gate_next(gate, l, r).gain_db);
    (l.times(gain), r.times(gain))
}

/// The noise gate as a step.
pub open spec fn gate_step<S: Curves>() -> spec_fn(GateEffect<S>, S, S) -> GateEffect<S> {
    |gate: GateEffect<S>, l: S, r: S| gate_next(gate, l, r)
}

/// What the noise gate puts out at a step.
pub open spec fn gate_heard<S: Curves>() -> spec_fn(GateEffect<S>, S, S) -> (S, S) {
    |gate: GateEffect<S>, l: S, r: S| gate_out(gate, l, r)
}

/// The noise gate after a parameter was taken.
pub open spec fn gate_taking<S: Sample>(gate: GateEffect<S>, id: u32, value: S) -> GateEffect<S> {
    let params = gate.params;
    let low = S::of_spec(80).negated();
    let zero = S::of_spec(0);
    let params = if id == GATE_PARAM_THRESHOLD_DB {
        GateParams { threshold_db: clamp_of(value, low, zero), ..params }
    } else if id == GATE_PARAM_ATTACK_MS {
        GateParams { attack_ms: clamp_of(value, ratio_of(5, 100), S::of_spec(100)), ..params }
    } else if id == GATE_PARAM_HOLD_MS {
        GateParams { hold_ms: clamp_of(value, zero, S::of_spec(500)), ..params }
    } else if id == GATE_PARAM_RELEASE_MS {
        GateParams { release_ms: clamp_of(value, S::of_spec(1), S::of_spec(2_000)), ..params }
    } else if id == GATE_PARAM_RANGE_DB {
        GateParams { range_db: clamp_of(value, low, zero), ..params }
    } else {
        params
    };
    GateEffect { params, ..gate }
}

/// The noise gate as it begins a block.
pub open spec fn gate_begun<S: Curves>(gate: GateEffect<S>, sample_rate: u32) -> GateEffect<S> {
    let begun = GateEffect { block: block_begun(), ..gate };
    if sample_rate == gate.sample_rate {
        begun
    } else {
        GateEffect {
            sample_rate,
            detector: timed(
                gate.detector,
                S::of_spec(0),
                S::of_spec(GATE_DETECTOR_RELEASE_MS as nat),
                sample_rate,
            ),
            ..begun
        }
    }
}

/// Whether a gate may be left alone: nothing is held, it is shut, its detector
/// has fallen to rest, and another sample of silence would not move its ramp.
/// Not whether the ramp is close: a one-pole reaches a fixed point of its own
/// recurrence, which need not be its target.
pub open spec fn gate_resting<S: Curves>(gate: GateEffect<S>) -> bool {
    let shut = gating_of(
        decibels_of(S::of_spec(0)),
        gate.params.threshold_db,
        gate.params.range_db,
    );
    let ms = if gate.gain_db.below(shut) {
        gate.params.attack_ms
    } else {
        gate.params.release_ms
    };
    &&& gate.hold_remaining == 0
    &&& !gate.open
    &&& gate.detector.level.equals_spec(S::of_spec(0))
    &&& approached(gate.gain_db, shut, time_coeff_of(ms, gate.sample_rate)).equals_spec(
        gate.gain_db,
    )
}

/// A gate as it is made: shut.
pub open spec fn gate_new<S: Curves>(params: GateParams<S>, sample_rate: u32) -> GateEffect<S> {
    GateEffect {
        params,
        sample_rate,
        detector: timed(
            follower_new::<S>(),
            S::of_spec(0),
            S::of_spec(GATE_DETECTOR_RELEASE_MS as nat),
            sample_rate,
        ),
        open: false,
        gain_db: params.range_db,
        hold_remaining: 0,
        block: block_begun::<S>(),
    }
}

impl<S: Curves> GateEffect<S> {
    /// Starts shut, so a gate on a silent channel does not pass a burst before
    /// its first ramp.
    pub fn new(params: GateParams<S>, sample_rate: u32) -> (gate: Self)
        ensures
            gate == gate_new(params, sample_rate),
    {
        let mut detector = EnvelopeFollower::new();
        detector.set_times(S::of(0), S::of(GATE_DETECTOR_RELEASE_MS), sample_rate);
        GateEffect {
            params,
            sample_rate,
            detector,
            open: false,
            gain_db: params.range_db,
            hold_remaining: 0,
            block: DynamicsBlock::new(),
        }
    }

    pub fn params(&self) -> (params: GateParams<S>)
        ensures
            params == self.params,
    {
        self.params
    }

    pub fn set_params(&mut self, params: GateParams<S>)
        ensures
            *final(self) == (GateEffect { params, ..*old(self) }),
    {
        self.params = params;
    }

    pub fn is_at_rest(&self) -> (answer: bool)
        ensures
            answer == gate_resting(*self),
    {
        if self.hold_remaining != 0 || self.open || !self.detector.is_at_rest() {
            return false;
        }
        let shut = gate_gain_db(
            linear_to_db_unfloored(S::of(0)),
            self.params.threshold_db,
            self.params.range_db,
        );
        let coeff = if self.gain_db.lt(shut) {
            time_coeff(self.params.attack_ms, self.sample_rate)
        } else {
            time_coeff(self.params.release_ms, self.sample_rate)
        };
        shut.add(coeff.mul(self.gain_db.sub(shut))).equals(self.gain_db)
    }

    pub fn dynamics_frame(&self) -> (frame: Option<DynamicsFrame<S>>)
        ensures
            frame == Some(
                DynamicsFrame {
                    detector_db: decibels_of(self.block.detector),
                    reduction_db: self.block.reduction_db,
                },
            ),
    {
        Some(self.block.frame())
    }

    pub fn process<B: Copy>(
        &mut self,
        ctx: &ProcessContext,
        bus: &mut StereoBus<S>,
        events_in: &EventList<S, B>,
    )
        requires
            old(bus).well_formed(),
        ensures
            final(bus).well_formed(),
            carried_out(
                Desk {
                    node: gate_begun(*old(self), ctx.sample_rate),
                    l: old(bus).l@,
                    r: old(bus).r@,
                },
                param_plan(events_in@, fitting(ctx.frames as int, old(bus).l@.len() as int)),
                Desk { node: *final(self), l: final(bus).l@, r: final(bus).r@ },
            ),
    {
        self.block.begin();
        if ctx.sample_rate != self.sample_rate {
            self.sample_rate = ctx.sample_rate;
            self.detector.set_times(
                S::of(0),
                S::of(GATE_DETECTOR_RELEASE_MS),
                self.sample_rate,
            );
        }
        let capacity: usize = bus.capacity();
        let frames: usize = if ctx.frames < capacity {
            ctx.frames
        } else {
            capacity
        };
        process_param_split(self, bus, events_in, frames);
    }

    /// One frame: the level, the latch, the ramp and the gain.
    fn process_frame(&mut self, l: S, r: S) -> (out: (S, S))
        ensures
            *final(self) == gate_next(*old(self), l, r),
            out == gate_out(*old(self), l, r),
    {
        let level = self.detector.process(linked_peak(l, r));
        let level_db = linear_to_db_unfloored(level);
        if self.params.threshold_db.le(level_db) {
            self.open = true;
            let hold = self.params.hold_ms.mul(ratio(1, 1000)).mul(
                S::of(self.sample_rate as usize),
            );
            self.hold_remaining = count(hold.whole());
        } else if level_db.lt(self.params.threshold_db.sub(S::of(GATE_HYSTERESIS_DB))) {
            if self.hold_remaining > 0 {
                self.hold_remaining = self.hold_remaining - 1;
            } else {
                self.open = false;
            }
        }
        let target_db = if self.open {
            S::of(0)
        } else {
            min(self.params.range_db, S::of(0))
        };
        let coeff = if self.gain_db.lt(target_db) {
            time_coeff(self.params.attack_ms, self.sample_rate)
        } else {
            time_coeff(self.params.release_ms, self.sample_rate)
        };
        self.gain_db = target_db.add(coeff.mul(self.gain_db.sub(target_db)));
        self.block.observe(level, self.gain_db);
        let gain = db_to_linear_unfloored(self.gain_db);
        (l.mul(gain), r.mul(gain))
    }
}

impl<S: Curves> RangeProcessor<S> for GateEffect<S> {
    open spec fn ready(&self) -> bool {
        true
    }

    open spec fn renders(
        &self,
        l: Seq<S>,
        r: Seq<S>,
        start: int,
        end: int,
        after: &Self,
        new_l: Seq<S>,
        new_r: Seq<S>,
    ) -> bool {
        &&& *after == after_frames(gate_step(), *self, l, r, start, end - start)
        &&& new_l == left_of(gate_step(), gate_heard(), *self, l, r, start, end)
        &&& new_r == right_of(gate_step(), gate_heard(), *self, l, r, start, end)
    }

    open spec fn takes(&self, id: u32, value: S, after: &Self) -> bool {
        *after == gate_taking(*self, id, value)
    }

    fn process_range(&mut self, bus: &mut StereoBus<S>, start: usize, end: usize) {
        let ghost before = *self;
        let ghost l = bus.l@;
        let ghost r = bus.r@;
        proof {
            lemma_nothing_rendered(gate_step(), gate_heard(), before, l, r, start as int);
        }
        let mut i: usize = start;
        while i < end
            invariant
                start <= i <= end <= l.len(),
                l.len() == r.len(),
                bus.l@.len() == l.len(),
                bus.r@.len() == r.len(),
                *self == after_frames(gate_step(), before, l, r, start as int, i - start),
                bus.l@ == left_of(
                    gate_step(),
                    gate_heard(),
                    before,
                    l,
                    r,
                    start as int,
                    i as int,
                ),
                bus.r@ == right_of(
                    gate_step(),
                    gate_heard(),
                    before,
                    l,
                    r,
                    start as int,
                    i as int,
                ),
            decreases end - i,
        {
            proof {
                lemma_frame_rendered(
                    gate_step(),
                    gate_heard(),
                    before,
                    l,
                    r,
                    start as int,
                    i as int,
                );
            }
            let (out_l, out_r) = self.process_frame(bus.l[i], bus.r[i]);
            bus.l[i] = out_l;
            bus.r[i] = out_r;
            i = i + 1;
        }
    }

    fn apply_param(&mut self, id: u32, value: S) {
        match id {
            GATE_PARAM_THRESHOLD_DB => {
                self.params.threshold_db = clamp(value, S::of(80).neg(), S::of(0));
            },
            GATE_PARAM_ATTACK_MS => {
                self.params.attack_ms = clamp(value, ratio(5, 100), S::of(100));
            },
            GATE_PARAM_HOLD_MS => {
                self.params.hold_ms = clamp(value, S::of(0), S::of(500));
            },
            GATE_PARAM_RELEASE_MS => {
                self.params.release_ms = clamp(value, S::of(1), S::of(2_000));
            },
            GATE_PARAM_RANGE_DB => {
                self.params.range_db = clamp(value, S::of(80).neg(), S::of(0));
            },
            _ => {},
        }
    }
}

/// Material that stays between the two thresholds neither opens the noise gate nor
/// shuts it, and costs it none of its hold: the noise gate does not chatter.
pub proof fn the_band_changes_nothing<S: Curves>(
    gate: GateEffect<S>,
    l: Seq<S>,
    r: Seq<S>,
    start: int,
    count: int,
)
    requires
        0 <= count,
        forall|i: int|
            0 <= i < count ==> {
                let here = #[trigger] after_frames(gate_step(), gate, l, r, start, i);
                let level_db = gate_level(here, l[start + i], r[start + i]);
                &&& !gate.params.threshold_db.at_most(level_db)
                &&& !level_db.below(shut_of(gate.params))
            },
    ensures
        after_frames(gate_step(), gate, l, r, start, count).open == gate.open,
        after_frames(gate_step(), gate, l, r, start, count).hold_remaining == gate.hold_remaining,
        after_frames(gate_step(), gate, l, r, start, count).params == gate.params,
    decreases count,
{
    if count > 0 {
        the_band_changes_nothing(gate, l, r, start, count - 1);
        let here = after_frames(gate_step(), gate, l, r, start, count - 1);
        assert(here.params == gate.params);
    }
}

/// An open gate stays open through a dip no longer than what is left of its
/// hold.
pub proof fn the_hold_outlasts_a_dip<S: Curves>(
    gate: GateEffect<S>,
    l: Seq<S>,
    r: Seq<S>,
    start: int,
    count: int,
)
    requires
        0 <= count <= gate.hold_remaining,
        gate.open,
        forall|i: int|
            0 <= i < count ==> {
                let here = #[trigger] after_frames(gate_step(), gate, l, r, start, i);
                !gate.params.threshold_db.at_most(gate_level(here, l[start + i], r[start + i]))
            },
    ensures
        after_frames(gate_step(), gate, l, r, start, count).open,
        after_frames(gate_step(), gate, l, r, start, count).hold_remaining >= gate.hold_remaining
            - count,
        after_frames(gate_step(), gate, l, r, start, count).params == gate.params,
    decreases count,
{
    if count > 0 {
        the_hold_outlasts_a_dip(gate, l, r, start, count - 1);
        let here = after_frames(gate_step(), gate, l, r, start, count - 1);
        assert(here.params == gate.params);
    }
}

/// A gate at rest may be left alone: where silence leaves the detector as it
/// is, a silent frame changes nothing about the noise gate but what it reports.
pub proof fn a_resting_gate_does_not_move<S: Curves>(gate: GateEffect<S>)
    requires
        gate_resting(gate),
        followed(gate.detector, louder(S::of_spec(0), S::of_spec(0))) == gate.detector.level,
        decibels_of(gate.detector.level) == decibels_of(S::of_spec(0)),
        !gate.params.threshold_db.at_most(decibels_of(S::of_spec(0))),
    ensures
        ({
            let after = gate_next(gate, S::of_spec(0), S::of_spec(0));
            &&& after.gain_db.equals_spec(gate.gain_db)
            &&& after == (GateEffect { gain_db: after.gain_db, block: after.block, ..gate })
        }),
{
}

pub const COMP_PARAM_THRESHOLD_DB: u32 = 0;

pub const COMP_PARAM_RATIO: u32 = 1;

pub const COMP_PARAM_ATTACK_MS: u32 = 2;

pub const COMP_PARAM_RELEASE_MS: u32 = 3;

pub const COMP_PARAM_KNEE_DB: u32 = 4;

pub const COMP_PARAM_MAKEUP_DB: u32 = 5;

pub const COMP_PARAM_MIX: u32 = 6;

/// The controls of the compressor.
#[derive(Clone, Copy, Debug)]
pub struct CompressorParams<S> {
    pub threshold_db: S,
    pub ratio: S,
    pub attack_ms: S,
    pub release_ms: S,
    pub knee_db: S,
    pub makeup_db: S,
    pub mix: S,
}

/// The compressor.
#[derive(Clone, Copy, Debug)]
pub struct CompressorEffect<S> {
    pub params: CompressorParams<S>,
    pub sample_rate: u32,
    pub detector: EnvelopeFollower<S>,
    pub threshold_db: Smoothed<S>,
    pub ratio: Smoothed<S>,
    pub makeup_db: Smoothed<S>,
    /// The makeup gain, kept current while `makeup_db` moves and reused while
    /// it stands still.
    pub makeup: S,
    /// The parallel balance: linear, so half-wet is half of each.
    pub mix: Smoothed<S>,
    pub block: DynamicsBlock<S>,
}

/// The time constant of the gain-shaping controls: five milliseconds.
pub open spec fn shaping_time<S: Sample>() -> S {
    ratio_of(5, 1000)
}

/// A lag at rest on a value.
pub open spec fn lag_on<S: Curves>(value: S, sample_rate: u32) -> Smoothed<S> {
    Smoothed { value, target: value, coeff: glide_coeff_of(shaping_time(), sample_rate) }
}

/// A lag that has jumped to a value.
pub open spec fn lag_reset<S: Sample>(lag: Smoothed<S>, value: S) -> Smoothed<S> {
    Smoothed { value, target: value, coeff: lag.coeff }
}

/// A lag with its time fitted to a rate.
pub open spec fn lag_fitted<S: Curves>(lag: Smoothed<S>, sample_rate: u32) -> Smoothed<S> {
    Smoothed { coeff: glide_coeff_of(shaping_time(), sample_rate), ..lag }
}

pub open spec fn comp_threshold<S: Sample>(value: S) -> S {
    clamp_of(value, S::of_spec(60).negated(), S::of_spec(0))
}

pub open spec fn comp_ratio<S: Sample>(value: S) -> S {
    clamp_of(value, S::of_spec(1), S::of_spec(20))
}

pub open spec fn comp_makeup<S: Sample>(value: S) -> S {
    clamp_of(value, S::of_spec(0), S::of_spec(24))
}

pub open spec fn comp_mix<S: Sample>(value: S) -> S {
    clamp_of(value, S::of_spec(0), S::of_spec(1))
}

/// The compressor after one frame.
pub open spec fn comp_next<S: Curves>(comp: CompressorEffect<S>, l: S, r: S) -> CompressorEffect<
    S,
> {
    let threshold_db = smoothed_next(comp.threshold_db);
    let ratio = smoothed_next(comp.ratio);
    let makeup_db = smoothed_next(comp.makeup_db);
    let envelope = followed(comp.detector, louder(l, r));
    let reduction_db = compression_of(
        decibels_of(envelope),
        threshold_db.value,
        ratio.value,
        comp.params.knee_db,
    );
    CompressorEffect {
        detector: EnvelopeFollower { level: envelope, ..comp.detector },
        threshold_db,
        ratio,
        makeup_db,
        makeup: if makeup_db.value == comp.makeup_db.value {
            comp.makeup
        } else {
            linear_of(makeup_db.value)
        },
        mix: smoothed_next(comp.mix),
        block: observed(comp.block, envelope, reduction_db),
        ..comp
    }
}

/// The gain the compressor applies to one frame. At a mix of one it is the
/// reduction and the makeup exactly.
pub open spec fn comp_gain<S: Curves>(comp: CompressorEffect<S>, l: S, r: S) -> S {
    let after = comp_next(comp, l, r);
    let reduction_db = compression_of(
        decibels_of(after.detector.level),
        after.threshold_db.value,
        after.ratio.value,
        comp.params.knee_db,
    );
    let gain = linear_of(reduction_db).times(after.makeup);
    let mix = after.mix.value;
    if mix.equals_spec(S::of_spec(1)) {
        gain
    } else {
        S::of_spec(1).minus(mix).plus(gain.times(mix))
    }
}

/// What the compressor makes of one frame.
pub open spec fn comp_out<S: Curves>(comp: CompressorEffect<S>, l: S, r: S) -> (S, S) {
    let gain = comp_gain(comp, l, r);
    (l.times(gain), r.times(gain))
}

/// The compressor as a step.
pub open spec fn comp_step<S: Curves>() -> spec_fn(CompressorEffect<S>, S, S) -> CompressorEffect<
    S,
> {
    |comp: CompressorEffect<S>, l: S, r: S| comp_next(comp, l, r)
}

/// What the compressor puts out at a step.
pub open spec fn comp_heard<S: Curves>() -> spec_fn(CompressorEffect<S>, S, S) -> (S, S) {
    |comp: CompressorEffect<S>, l: S, r: S| comp_out(comp, l, r)
}

/// The compressor with its detector's times as the controls say.
pub open spec fn comp_timed<S: Curves>(comp: CompressorEffect<S>) -> CompressorEffect<S> {
    CompressorEffect {
        detector: timed(
            comp.detector,
            comp.params.attack_ms,
            comp.params.release_ms,
            comp.sample_rate,
        ),
        ..comp
    }
}

/// The compressor after a parameter was taken.
pub open spec fn comp_taking<S: Curves>(
    comp: CompressorEffect<S>,
    id: u32,
    value: S,
) -> CompressorEffect<S> {
    let params = comp.params;
    comp_timed(
        if id == COMP_PARAM_THRESHOLD_DB {
            let threshold_db = comp_threshold(value);
            CompressorEffect {
                params: CompressorParams { threshold_db, ..params },
                threshold_db: Smoothed { target: threshold_db, ..comp.threshold_db },
                ..comp
            }
        } else if id == COMP_PARAM_RATIO {
            let ratio = comp_ratio(value);
            CompressorEffect {
                params: CompressorParams { ratio, ..params },
                ratio: Smoothed { target: ratio, ..comp.ratio },
                ..comp
            }
        } else if id == COMP_PARAM_ATTACK_MS {
            let attack_ms = clamp_of(value, ratio_of(5, 100), S::of_spec(200));
            CompressorEffect { params: CompressorParams { attack_ms, ..params }, ..comp }
        } else if id == COMP_PARAM_RELEASE_MS {
            let release_ms = clamp_of(value, S::of_spec(5), S::of_spec(2_000));
            CompressorEffect { params: CompressorParams { release_ms, ..params }, ..comp }
        } else if id == COMP_PARAM_KNEE_DB {
            let knee_db = clamp_of(value, S::of_spec(0), S::of_spec(24));
            CompressorEffect { params: CompressorParams { knee_db, ..params }, ..comp }
        } else if id == COMP_PARAM_MAKEUP_DB {
            let makeup_db = comp_makeup(value);
            CompressorEffect {
                params: CompressorParams { makeup_db, ..params },
                makeup_db: Smoothed { target: makeup_db, ..comp.makeup_db },
                ..comp
            }
        } else if id == COMP_PARAM_MIX {
            let mix = comp_mix(value);
            CompressorEffect {
                params: CompressorParams { mix, ..params },
                mix: Smoothed { target: mix, ..comp.mix },
                ..comp
            }
        } else {
            comp
        },
    )
}

/// The compressor as it begins a block.
pub open spec fn comp_begun<S: Curves>(
    comp: CompressorEffect<S>,
    sample_rate: u32,
) -> CompressorEffect<S> {
    let begun = CompressorEffect { block: block_begun(), ..comp };
    if sample_rate == comp.sample_rate {
        begun
    } else {
        comp_timed(
            CompressorEffect {
                sample_rate,
                threshold_db: lag_fitted(comp.threshold_db, sample_rate),
                ratio: lag_fitted(comp.ratio, sample_rate),
                makeup_db: lag_fitted(comp.makeup_db, sample_rate),
                mix: lag_fitted(comp.mix, sample_rate),
                ..begun
            },
        )
    }
}

/// A compressor as it is made, its lags where its controls are.
pub open spec fn comp_new<S: Curves>(
    params: CompressorParams<S>,
    sample_rate: u32,
) -> CompressorEffect<S> {
    comp_timed(
        CompressorEffect {
            params,
            sample_rate,
            detector: follower_new::<S>(),
            threshold_db: lag_on(comp_threshold(params.threshold_db), sample_rate),
            ratio: lag_on(comp_ratio(params.ratio), sample_rate),
            makeup_db: lag_on(comp_makeup(params.makeup_db), sample_rate),
            makeup: linear_of(comp_makeup(params.makeup_db)),
            mix: lag_on(comp_mix(params.mix), sample_rate),
            block: block_begun::<S>(),
        },
    )
}

impl<S: Curves> CompressorEffect<S> {
    pub fn new(params: CompressorParams<S>, sample_rate: u32) -> (comp: Self)
        ensures
            comp == comp_new(params, sample_rate),
    {
        let mut detector = EnvelopeFollower::new();
        detector.set_times(params.attack_ms, params.release_ms, sample_rate);
        let threshold_db = clamp(params.threshold_db, S::of(60).neg(), S::of(0));
        let steepness = clamp(params.ratio, S::of(1), S::of(20));
        let makeup_db = clamp(params.makeup_db, S::of(0), S::of(24));
        let mix = clamp(params.mix, S::of(0), S::of(1));
        CompressorEffect {
            params,
            sample_rate,
            detector,
            threshold_db: Smoothed::new(threshold_db, ratio(5, 1000), sample_rate),
            ratio: Smoothed::new(steepness, ratio(5, 1000), sample_rate),
            makeup_db: Smoothed::new(makeup_db, ratio(5, 1000), sample_rate),
            makeup: db_to_linear_unfloored(makeup_db),
            mix: Smoothed::new(mix, ratio(5, 1000), sample_rate),
            block: DynamicsBlock::new(),
        }
    }

    pub fn params(&self) -> (params: CompressorParams<S>)
        ensures
            params == self.params,
    {
        self.params
    }

    /// Replace the parameter set wholesale: jump straight to the new values,
    /// there is nothing to click coming from a fresh load.
    pub fn set_params(&mut self, params: CompressorParams<S>)
        ensures
            *final(self) == comp_timed(
                CompressorEffect {
                    params,
                    threshold_db: lag_reset(
                        old(self).threshold_db,
                        comp_threshold(params.threshold_db),
                    ),
                    ratio: lag_reset(old(self).ratio, comp_ratio(params.ratio)),
                    makeup_db: lag_reset(old(self).makeup_db, comp_makeup(params.makeup_db)),
                    makeup: linear_of(comp_makeup(params.makeup_db)),
                    mix: lag_reset(old(self).mix, comp_mix(params.mix)),
                    ..*old(self)
                },
            ),
    {
        self.params = params;
        self.detector.set_times(params.attack_ms, params.release_ms, self.sample_rate);
        self.threshold_db.reset_to(clamp(params.threshold_db, S::of(60).neg(), S::of(0)));
        self.ratio.reset_to(clamp(params.ratio, S::of(1), S::of(20)));
        self.makeup_db.reset_to(clamp(params.makeup_db, S::of(0), S::of(24)));
        self.mix.reset_to(clamp(params.mix, S::of(0), S::of(1)));
        // A lag that was reset is settled, so nothing downstream would ever
        // recompute the makeup gain for this value.
        self.makeup = db_to_linear_unfloored(self.makeup_db.value());
    }

    /// The detector, and the lags feeding the gain computer. A knob still
    /// travelling would be frozen where it was, and a detector still releasing
    /// would come back holding reduction the music has stopped asking for.
    pub fn is_at_rest(&self) -> (answer: bool)
        ensures
            answer == (self.detector.level.equals_spec(S::of_spec(0)) && settled(self.threshold_db)
                && settled(self.ratio) && settled(self.makeup_db) && settled(self.mix)),
    {
        self.detector.is_at_rest() && self.threshold_db.is_settled() && self.ratio.is_settled()
            && self.makeup_db.is_settled() && self.mix.is_settled()
    }

    pub fn dynamics_frame(&self) -> (frame: Option<DynamicsFrame<S>>)
        ensures
            frame == Some(
                DynamicsFrame {
                    detector_db: decibels_of(self.block.detector),
                    reduction_db: self.block.reduction_db,
                },
            ),
    {
        Some(self.block.frame())
    }

    pub fn process<B: Copy>(
        &mut self,
        ctx: &ProcessContext,
        bus: &mut StereoBus<S>,
        events_in: &EventList<S, B>,
    )
        requires
            old(bus).well_formed(),
        ensures
            final(bus).well_formed(),
            carried_out(
                Desk {
                    node: comp_begun(*old(self), ctx.sample_rate),
                    l: old(bus).l@,
                    r: old(bus).r@,
                },
                param_plan(events_in@, fitting(ctx.frames as int, old(bus).l@.len() as int)),
                Desk { node: *final(self), l: final(bus).l@, r: final(bus).r@ },
            ),
    {
        self.block.begin();
        if ctx.sample_rate != self.sample_rate {
            self.sample_rate = ctx.sample_rate;
            self.detector.set_times(
                self.params.attack_ms,
                self.params.release_ms,
                self.sample_rate,
            );
            self.threshold_db.set_time(ratio(5, 1000), ctx.sample_rate);
            self.ratio.set_time(ratio(5, 1000), ctx.sample_rate);
            self.makeup_db.set_time(ratio(5, 1000), ctx.sample_rate);
            self.mix.set_time(ratio(5, 1000), ctx.sample_rate);
        }
        let capacity: usize = bus.capacity();
        let frames: usize = if ctx.frames < capacity {
            ctx.frames
        } else {
            capacity
        };
        process_param_split(self, bus, events_in, frames);
    }

    /// One frame: the level, the curve, the makeup and the mix.
    fn process_frame(&mut self, l: S, r: S) -> (out: (S, S))
        ensures
            *final(self) == comp_next(*old(self), l, r),
            out == comp_out(*old(self), l, r),
    {
        let threshold_db = self.threshold_db.advance();
        let steepness = self.ratio.advance();
        let makeup_before = self.makeup_db.value();
        let makeup_db = self.makeup_db.advance();
        if !makeup_db.same(makeup_before) {
            self.makeup = db_to_linear_unfloored(makeup_db);
        }
        let envelope = self.detector.process(linked_peak(l, r));
        let reduction_db = compressor_gain_db(
            linear_to_db_unfloored(envelope),
            threshold_db,
            steepness,
            self.params.knee_db,
        );
        self.block.observe(envelope, reduction_db);
        let full = db_to_linear_unfloored(reduction_db).mul(self.makeup);
        let mix = self.mix.advance();
        let gain = if mix.equals(S::of(1)) {
            full
        } else {
            S::of(1).sub(mix).add(full.mul(mix))
        };
        (l.mul(gain), r.mul(gain))
    }
}

impl<S: Curves> RangeProcessor<S> for CompressorEffect<S> {
    open spec fn ready(&self) -> bool {
        true
    }

    open spec fn renders(
        &self,
        l: Seq<S>,
        r: Seq<S>,
        start: int,
        end: int,
        after: &Self,
        new_l: Seq<S>,
        new_r: Seq<S>,
    ) -> bool {
        &&& *after == after_frames(comp_step(), *self, l, r, start, end - start)
        &&& new_l == left_of(comp_step(), comp_heard(), *self, l, r, start, end)
        &&& new_r == right_of(comp_step(), comp_heard(), *self, l, r, start, end)
    }

    open spec fn takes(&self, id: u32, value: S, after: &Self) -> bool {
        *after == comp_taking(*self, id, value)
    }

    fn process_range(&mut self, bus: &mut StereoBus<S>, start: usize, end: usize) {
        let ghost before = *self;
        let ghost l = bus.l@;
        let ghost r = bus.r@;
        proof {
            lemma_nothing_rendered(comp_step(), comp_heard(), before, l, r, start as int);
        }
        let mut i: usize = start;
        while i < end
            invariant
                start <= i <= end <= l.len(),
                l.len() == r.len(),
                bus.l@.len() == l.len(),
                bus.r@.len() == r.len(),
                *self == after_frames(comp_step(), before, l, r, start as int, i - start),
                bus.l@ == left_of(
                    comp_step(),
                    comp_heard(),
                    before,
                    l,
                    r,
                    start as int,
                    i as int,
                ),
                bus.r@ == right_of(
                    comp_step(),
                    comp_heard(),
                    before,
                    l,
                    r,
                    start as int,
                    i as int,
                ),
            decreases end - i,
        {
            proof {
                lemma_frame_rendered(
                    comp_step(),
                    comp_heard(),
                    before,
                    l,
                    r,
                    start as int,
                    i as int,
                );
            }
            let (out_l, out_r) = self.process_frame(bus.l[i], bus.r[i]);
            bus.l[i] = out_l;
            bus.r[i] = out_r;
            i = i + 1;
        }
    }

    fn apply_param(&mut self, id: u32, value: S) {
        match id {
            COMP_PARAM_THRESHOLD_DB => {
                self.params.threshold_db = clamp(value, S::of(60).neg(), S::of(0));
                self.threshold_db.set_target(self.params.threshold_db);
            },
            COMP_PARAM_RATIO => {
                self.params.ratio = clamp(value, S::of(1), S::of(20));
                self.ratio.set_target(self.params.ratio);
            },
            COMP_PARAM_ATTACK_MS => {
                self.params.attack_ms = clamp(value, ratio(5, 100), S::of(200));
            },
            COMP_PARAM_RELEASE_MS => {
                self.params.release_ms = clamp(value, S::of(5), S::of(2_000));
            },
            COMP_PARAM_KNEE_DB => {
                self.params.knee_db = clamp(value, S::of(0), S::of(24));
            },
            COMP_PARAM_MAKEUP_DB => {
                self.params.makeup_db = clamp(value, S::of(0), S::of(24));
                self.makeup_db.set_target(self.params.makeup_db);
            },
            COMP_PARAM_MIX => {
                self.params.mix = clamp(value, S::of(0), S::of(1));
                self.mix.set_target(self.params.mix);
            },
            _ => {},
        }
        self.detector.set_times(
            self.params.attack_ms,
            self.params.release_ms,
            self.sample_rate,
        );
    }
}

/// Both channels of a compressed frame are the input times one gain, whatever
/// the frame.
pub proof fn compression_is_one_gain<S: Curves>(comp: CompressorEffect<S>, l: S, r: S)
    ensures
        exists|gain: S| comp_out(comp, l, r) == (l.times(gain), #[trigger] r.times(gain)),
{
    let gain = comp_gain(comp, l, r);
    assert(comp_out(comp, l, r) == (l.times(gain), r.times(gain)));
}

/// The makeup gain is always that of its lag's present value.
pub proof fn the_makeup_is_current<S: Curves>(comp: CompressorEffect<S>, l: S, r: S)
    requires
        comp.makeup == linear_of(comp.makeup_db.value),
    ensures
        comp_next(comp, l, r).makeup == linear_of(comp_next(comp, l, r).makeup_db.value),
{
}

/// A mix of nothing is the input exactly.
pub proof fn no_mix_is_the_input(comp: CompressorEffect<Fixed>, l: Fixed, r: Fixed)
    requires
        settled(comp.mix),
        comp.mix.value == Fixed::of_spec(0),
    ensures
        comp_out(comp, l, r) == (l, r),
{
    a_settled_lag_stays(comp.mix);
    let after = comp_next(comp, l, r);
    let reduction_db = compression_of(
        decibels_of(after.detector.level),
        after.threshold_db.value,
        after.ratio.value,
        comp.params.knee_db,
    );
    let gain = linear_of(reduction_db).times(after.makeup);
    nothing_times(gain);
    products_commute(gain, Fixed::of_spec(0));
    assert(comp_gain(comp, l, r) == Fixed::of_spec(1));
    times_one(l);
    times_one(r);
}

/// A compressor at rest may be left alone: a silent frame changes nothing about
/// it but what it reports.
pub proof fn a_resting_compressor_does_not_move(comp: CompressorEffect<Fixed>)
    requires
        comp.detector.level == Fixed::of_spec(0),
        settled(comp.threshold_db),
        settled(comp.ratio),
        settled(comp.makeup_db),
        settled(comp.mix),
    ensures
        ({
            let silent = Fixed::of_spec(0);
            let after = comp_next(comp, silent, silent);
            after == CompressorEffect { block: after.block, ..comp }
        }),
        comp_out(comp, Fixed::of_spec(0), Fixed::of_spec(0)) == (
            Fixed::of_spec(0),
            Fixed::of_spec(0),
        ),
{
    let zero = Fixed::of_spec(0);
    a_settled_lag_stays(comp.threshold_db);
    a_settled_lag_stays(comp.ratio);
    a_settled_lag_stays(comp.makeup_db);
    a_settled_lag_stays(comp.mix);
    nothing_times(comp.detector.release);
    products_commute(comp.detector.release, zero);
    assert(louder(zero, zero) == zero);
    assert(followed(comp.detector, zero) == zero);
    nothing_times(comp_gain(comp, zero, zero));
}

/// A gate that may be left alone stays silent: a silent frame comes out silent,
/// and leaves it one that may be left alone. A threshold at or under what
/// silence itself measures would open it.
pub proof fn a_resting_gate_stays_silent(gate: GateEffect<Fixed>)
    requires
        gate_resting(gate),
        !gate.params.threshold_db.at_most(decibels_of(Fixed::of_spec(0))),
    ensures
        gate_out(gate, Fixed::of_spec(0), Fixed::of_spec(0)) == (
            Fixed::of_spec(0),
            Fixed::of_spec(0),
        ),
        gate_resting(gate_next(gate, Fixed::of_spec(0), Fixed::of_spec(0))),
{
    let zero = Fixed::of_spec(0);
    assert(gate.detector.level == zero);
    nothing_times(gate.detector.release);
    products_commute(gate.detector.release, zero);
    assert(louder(zero, zero) == zero);
    assert(followed(gate.detector, zero) == zero);
    a_resting_gate_does_not_move(gate);
    nothing_times(linear_of(gate_next(gate, zero, zero).gain_db));
}

/// A gate hears a frame whose level is not finite as silence: it is left as a
/// silent frame leaves it, and holds on to nothing of it.
pub proof fn a_gate_hears_what_is_not_finite_as_silence<S: Curves>(
    gate: GateEffect<S>,
    l: S,
    r: S,
    silent_l: S,
    silent_r: S,
)
    requires
        !louder(l, r).finite_spec(),
        louder(silent_l, silent_r) == S::of_spec(0),
    ensures
        gate_next(gate, l, r) == gate_next(gate, silent_l, silent_r),
{
    what_is_not_finite_is_silence(gate.detector, louder(l, r));
}

/// So does a compressor.
pub proof fn a_compressor_hears_what_is_not_finite_as_silence<S: Curves>(
    comp: CompressorEffect<S>,
    l: S,
    r: S,
    silent_l: S,
    silent_r: S,
)
    requires
        !louder(l, r).finite_spec(),
        louder(silent_l, silent_r) == S::of_spec(0),
    ensures
        comp_next(comp, l, r) == comp_next(comp, silent_l, silent_r),
{
    what_is_not_finite_is_silence(comp.detector, louder(l, r));
}

/// One gain serves both channels of a gated frame, and it is that of the
/// attenuation the frame leaves behind: each channel is within a count of its
/// share.
pub proof fn gating_is_one_gain(gate: GateEffect<Fixed>, l: Fixed, r: Fixed)
    requires
        gate_next(gate, l, r).gain_db.raw <= 0,
    ensures
        ({
            let gain = linear_of(gate_next(gate, l, r).gain_db).raw;
            let out = gate_out(gate, l, r);
            &&& magnitude(FRACTION * out.0.raw - l.raw * gain) < FRACTION
            &&& magnitude(FRACTION * out.1.raw - r.raw * gain) < FRACTION
            &&& 0 <= gain <= FRACTION
        }),
{
    let db = gate_next(gate, l, r).gain_db;
    an_attenuation_is_a_gain(db);
    let gain = linear_of(db);
    a_share_is_exact_to_a_count(l, gain);
    a_share_is_exact_to_a_count(r, gain);
}

/// The attenuation of a gate shows in what it lets through: an input loses no
/// more than the bounds of so many decibels, and no less.
pub proof fn an_attenuation_is_heard(gate: GateEffect<Fixed>, l: Fixed, r: Fixed)
    requires
        -80 * FRACTION <= gate_next(gate, l, r).gain_db.raw <= 0,
        0 <= l.raw <= 0x1000_0000_0000,
        0 <= r.raw <= 0x1000_0000_0000,
    ensures
        ({
            let db = gate_next(gate, l, r).gain_db.raw;
            let out = gate_out(gate, l, r);
            let least = 1_000 * FRACTION + 116 * db - 1_000_000;
            let most = 1_000 * FRACTION - 115 * db - 1_000_000;
            &&& l.raw * least <= 1_000 * FRACTION * (out.0.raw + 1)
            &&& r.raw * least <= 1_000 * FRACTION * (out.1.raw + 1)
            &&& out.0.raw * most <= 1_000 * FRACTION * l.raw
            &&& out.1.raw * most <= 1_000 * FRACTION * r.raw
        }),
{
    let db = gate_next(gate, l, r).gain_db;
    an_attenuation_lies_between_its_bounds(db);
    lemma_attenuated(l, db);
    lemma_attenuated(r, db);
}

proof fn lemma_attenuated(value: Fixed, db: Fixed)
    requires
        -80 * FRACTION <= db.raw <= 0,
        0 <= value.raw <= 0x1000_0000_0000,
    ensures
        ({
            let out = value.times(linear_of(db)).raw;
            let least = 1_000 * FRACTION + 116 * db.raw - 1_000_000;
            let most = 1_000 * FRACTION - 115 * db.raw - 1_000_000;
            &&& value.raw * least <= 1_000 * FRACTION * (out + 1)
            &&& out * most <= 1_000 * FRACTION * value.raw
        }),
{
    let f = FRACTION as int;
    an_attenuation_lies_between_its_bounds(db);
    let gain = linear_of(db);
    a_share_is_exact_to_a_count(value, gain);
    a_gain_shrinks(gain, value);
    products_commute(gain, value);
    let v = value.raw as int;
    let g = gain.raw as int;
    let out = value.times(gain).raw as int;
    let least = 1_000 * f + 116 * db.raw - 1_000_000;
    let most = 1_000 * f - 115 * db.raw - 1_000_000;
    assert(0 <= v * g <= 0x7fff_ffff_ffff_ffff * f) by (nonlinear_arith)
        requires
            0 <= g <= f,
            0 <= v <= 0x1000_0000_0000,
            f == 0x1_0000_0000,
    ;
    a_product_is_exact_to_a_count(value, gain);
    assert(f * out <= v * g < f * (out + 1)) by (nonlinear_arith)
        requires
            f * out <= v * g,
            v * g - f * out < f,
    ;
    assert(v * least <= 1_000 * f * (out + 1)) by (nonlinear_arith)
        requires
            least <= 1_000 * g,
            v * g <= f * (out + 1),
            0 <= v,
    {
        assert(v * least <= v * (1_000 * g));
    }
    assert(out * most <= 1_000 * f * v) by (nonlinear_arith)
        requires
            g * most <= 1_000 * (f * f),
            f * out <= v * g,
            0 <= v,
            0 < most,
            f == 0x1_0000_0000,
    {
        assert((f * out) * most <= (v * g) * most);
        assert((v * g) * most == v * (g * most));
        assert(v * (g * most) <= v * (1_000 * (f * f)));
        assert(f * (out * most) <= f * (1_000 * f * v));
    }
}

/// The two channels of a gate are alike: exchanged, and turned over, they leave
/// it as it would have been, and come out exchanged.
pub proof fn a_gate_hears_its_channels_alike(gate: GateEffect<Fixed>, l: Fixed, r: Fixed)
    requires
        l.raw > i64::MIN,
        r.raw > i64::MIN,
    ensures
        gate_next(gate, l, r) == gate_next(gate, r, l),
        gate_next(gate, l, r) == gate_next(gate, l.negated(), r),
        gate_out(gate, l, r) == (gate_out(gate, r, l).1, gate_out(gate, r, l).0),
{
    the_louder_channel_is_either(l, r);
}

/// The noise gate opens at its threshold, with its whole hold ahead of it. It
/// shuts at no level less than six decibels under the threshold, and only once
/// the hold has run out, one sample at a time.
pub proof fn a_gate_opens_and_shuts(gate: GateEffect<Fixed>, l: Fixed, r: Fixed)
    requires
        within(gate.params.threshold_db, 80 * FRACTION),
    ensures
        ({
            let after = gate_next(gate, l, r);
            let over = decibels_of(after.detector.level).raw - gate.params.threshold_db.raw;
            let low = over < -(6 * FRACTION);
            &&& over >= 0 ==> after.open
            &&& !gate.open && after.open ==> over >= 0
            &&& gate.open && !after.open <==> gate.open && low && gate.hold_remaining == 0
            &&& over < 0 && !low ==> after.hold_remaining == gate.hold_remaining
            &&& low && gate.hold_remaining > 0 ==> after.hold_remaining == gate.hold_remaining - 1
            &&& after.params == gate.params
            &&& after.sample_rate == gate.sample_rate
            &&& after.detector.attack == gate.detector.attack
            &&& after.detector.release == gate.detector.release
        }),
{
}

/// A frame at the threshold or over it leaves the noise gate its hold in
/// samples: a thousandth of the milliseconds times the rate, but for rounding.
pub proof fn a_hold_is_its_milliseconds(gate: GateEffect<Fixed>, l: Fixed, r: Fixed)
    requires
        gate.params.threshold_db.raw <= decibels_of(gate_next(gate, l, r).detector.level).raw,
        0 <= gate.params.hold_ms.raw <= 500 * FRACTION,
        gate.sample_rate <= 0x10_0000,
    ensures
        magnitude(
            1_000 * FRACTION * gate_next(gate, l, r).hold_remaining - gate.params.hold_ms.raw
                * gate.sample_rate,
        ) <= 1_000 * FRACTION + gate.sample_rate * (gate.params.hold_ms.raw / 4_000_000 + 2_000),
{
    let f = FRACTION as int;
    let m = gate.params.hold_ms.raw as int;
    let n = gate.sample_rate as int;
    a_span_is_its_milliseconds(gate.params.hold_ms, gate.sample_rate);
    let s = crate::level::span_of(gate.params.hold_ms, gate.sample_rate).raw as int;
    let q = s / f;
    assert(s <= 0x1000_0000_0000_0000) by (nonlinear_arith)
        requires
            1000 * s - m * n <= n * (m / 4_000_000 + 2_000),
            0 <= m <= 500 * f,
            0 <= n <= 0x10_0000,
            f == 0x1_0000_0000,
    {
        assert(m * n <= (500 * f) * 0x10_0000);
        assert(m / 4_000_000 + 2_000 <= 1_000_000);
        assert(n * (m / 4_000_000 + 2_000) <= 0x10_0000 * 1_000_000);
    }
    assert(f * q <= s < f * q + f && q < 0x1_0000_0000) by (nonlinear_arith)
        requires
            q == s / f,
            0 <= s <= 0x1000_0000_0000_0000,
            f == 0x1_0000_0000,
    ;
}

/// The attenuation of a gate keeps its time's share of the way to where it is
/// going: to nothing where the noise gate is open, to the range where it is shut.
/// It rises with the attack's time and falls with the release's.
pub proof fn a_gate_ramps_by_its_times(gate: GateEffect<Fixed>, l: Fixed, r: Fixed)
    requires
        -80 * FRACTION <= gate.params.range_db.raw <= 0,
        -80 * FRACTION <= gate.gain_db.raw <= 0,
    ensures
        ({
            let after = gate_next(gate, l, r);
            let target = if after.open {
                0
            } else {
                gate.params.range_db.raw as int
            };
            let ms = if gate.gain_db.raw < target {
                gate.params.attack_ms
            } else {
                gate.params.release_ms
            };
            let left = time_coeff_of(ms, gate.sample_rate).raw;
            &&& magnitude(
                FRACTION * (after.gain_db.raw - target) - left * (gate.gain_db.raw - target),
            ) < FRACTION
            &&& gate.gain_db.raw <= target ==> gate.gain_db.raw <= after.gain_db.raw <= target
            &&& target <= gate.gain_db.raw ==> target <= after.gain_db.raw <= gate.gain_db.raw
            &&& -80 * FRACTION <= after.gain_db.raw <= 0
        }),
{
    let f = FRACTION as int;
    let after = gate_next(gate, l, r);
    let target = if after.open {
        Fixed::of_spec(0)
    } else {
        gate.params.range_db
    };
    let ms = if gate.gain_db.below(target) {
        gate.params.attack_ms
    } else {
        gate.params.release_ms
    };
    let left = time_coeff_of(ms, gate.sample_rate);
    a_time_coefficient_is_a_gain(ms, gate.sample_rate);
    let way = gate.gain_db.minus(target);
    a_gain_shrinks(left, way);
    a_share_is_exact_to_a_count(way, left);
    products_commute(way, left);
    assert(way.raw * left.raw == left.raw * way.raw) by (nonlinear_arith);
}

/// A control of the noise gate takes its value where that lies in its range, and the
/// nearer end of the range where it does not; the others stay, and so does all
/// else. The threshold and the range go from -80 dB to nothing, the attack from a
/// twentieth of a millisecond to 100, the hold to 500, the release from 1 to
/// 2000.
pub proof fn a_gate_takes_its_controls(gate: GateEffect<Fixed>, id: u32, value: Fixed)
    ensures
        ({
            let after = gate_taking(gate, id, value);
            let v = value.raw;
            let f = FRACTION as int;
            &&& after == GateEffect { params: after.params, ..gate }
            &&& id == 0 ==> after.params == (GateParams {
                threshold_db: after.params.threshold_db,
                ..gate.params
            }) && held(v as int, -80 * f, 0, after.params.threshold_db)
            &&& id == 1 ==> after.params == (GateParams {
                attack_ms: after.params.attack_ms,
                ..gate.params
            }) && held(v as int, f / 20, 100 * f, after.params.attack_ms)
            &&& id == 2 ==> after.params == (GateParams {
                hold_ms: after.params.hold_ms,
                ..gate.params
            }) && held(v as int, 0, 500 * f, after.params.hold_ms)
            &&& id == 3 ==> after.params == (GateParams {
                release_ms: after.params.release_ms,
                ..gate.params
            }) && held(v as int, f, 2_000 * f, after.params.release_ms)
            &&& id == 4 ==> after.params == (GateParams {
                range_db: after.params.range_db,
                ..gate.params
            }) && held(v as int, -80 * f, 0, after.params.range_db)
            &&& id > 4 ==> after == gate
        }),
{
    a_ratio_is_exact_to_a_count(5, 100);
}

/// A gate as it is made is shut at its range, and holds nothing; whatever rate it
/// is moved to, it detects at once and forgets in five milliseconds.
pub proof fn a_new_gate_is_shut(params: GateParams<Fixed>, sample_rate: u32, other: u32)
    ensures
        ({
            let gate = gate_new(params, sample_rate);
            let moved = gate_begun(gate, other);
            &&& gate.params == params
            &&& !gate.open
            &&& gate.hold_remaining == 0
            &&& gate.gain_db == params.range_db
            &&& gate.detector.level.raw == 0
            &&& gate.detector.attack.raw == 0
            &&& gate.detector.release == time_coeff_of(saturated(5 * FRACTION), sample_rate)
            &&& moved == gate_new(params, other)
        }),
{
    let zero = Fixed::of_spec(0);
    nothing_times(ratio_of(1, 1000));
    nothing_times(Fixed::of_spec(sample_rate as nat));
    nothing_times(Fixed::of_spec(other as nat));
}

/// The compressor with its mix held at one and no makeup: what is left is the
/// reduction.
pub open spec fn comp_bare<S: Curves>(comp: CompressorEffect<S>) -> CompressorEffect<S> {
    CompressorEffect {
        makeup_db: lag_reset(comp.makeup_db, S::of_spec(0)),
        makeup: S::of_spec(1),
        mix: lag_reset(comp.mix, S::of_spec(1)),
        ..comp
    }
}

/// The mix blends: at a mix the compressor's gain is what the mix leaves of one,
/// and the mix of the gain that the same compressor has at a mix of one.
pub proof fn a_mix_blends_one_and_the_full_gain(
    comp: CompressorEffect<Fixed>,
    full: CompressorEffect<Fixed>,
    l: Fixed,
    r: Fixed,
)
    requires
        full == (CompressorEffect { mix: full.mix, ..comp }),
        comp_next(full, l, r).mix.value.raw == FRACTION,
        0 <= comp_next(comp, l, r).mix.value.raw <= FRACTION,
        within(comp_gain(full, l, r), 0x10_0000 * FRACTION),
    ensures
        ({
            let mix = comp_next(comp, l, r).mix.value.raw;
            let whole = comp_gain(full, l, r).raw;
            let gain = comp_gain(comp, l, r).raw;
            &&& magnitude(FRACTION * (gain - (FRACTION - mix)) - mix * whole) < FRACTION
            &&& mix == FRACTION ==> gain == whole
            &&& mix == 0 ==> gain == FRACTION
        }),
{
    let f = FRACTION as int;
    let mix = comp_next(comp, l, r).mix.value;
    let whole = comp_gain(full, l, r);
    let m = mix.raw as int;
    let w = whole.raw as int;
    a_share_is_exact_to_a_count(whole, mix);
    a_gain_shrinks(mix, whole);
    products_commute(mix, whole);
    assert(w * m == m * w) by (nonlinear_arith);
    if m == f {
        assert(f * (w - (f - m)) - m * w == 0) by (nonlinear_arith)
            requires
                m == f,
        ;
    } else {
        assert(comp_gain(comp, l, r).raw == f - m + whole.times(mix).raw);
    }
    if m == 0 {
        nothing_times(whole);
    }
}

/// The makeup multiplies whatever the mix: what the gain adds to the dry part is
/// the mix of the makeup of the reduction, to within three counts.
pub proof fn a_makeup_multiplies_at_every_mix(comp: CompressorEffect<Fixed>, l: Fixed, r: Fixed)
    requires
        0 <= comp_next(comp, l, r).mix.value.raw <= FRACTION,
        0 <= comp_next(comp, l, r).makeup.raw <= 0x10_0000 * FRACTION,
        comp_next(comp, l, r).ratio.value.raw >= FRACTION,
        comp.params.knee_db.raw >= 0,
    ensures
        ({
            let after = comp_next(comp, l, r);
            let mix = after.mix.value.raw;
            let bare = comp_gain(comp_bare(comp), l, r).raw;
            let gain = comp_gain(comp, l, r).raw;
            &&& magnitude(
                FRACTION * FRACTION * (gain - (FRACTION - mix)) - mix * (bare * after.makeup.raw),
            ) <= 3 * FRACTION * FRACTION
            &&& 0 <= bare <= FRACTION
        }),
{
    let f = FRACTION as int;
    let after = comp_next(comp, l, r);
    let naked = comp_bare(comp);
    let full = CompressorEffect { mix: lag_reset(comp.mix, Fixed::of_spec(1)), ..comp };
    a_settled_lag_stays(naked.mix);
    a_settled_lag_stays(naked.makeup_db);
    let reduction_db = compression_of(
        decibels_of(after.detector.level),
        after.threshold_db.value,
        after.ratio.value,
        comp.params.knee_db,
    );
    a_compressor_never_lifts(
        decibels_of(after.detector.level),
        after.threshold_db.value,
        after.ratio.value,
        comp.params.knee_db,
    );
    an_attenuation_is_a_gain(reduction_db);
    let bare = linear_of(reduction_db);
    times_one(bare);
    assert(comp_gain(naked, l, r) == bare);
    let whole = bare.times(after.makeup);
    assert(comp_gain(full, l, r) == whole);
    a_share_is_exact_to_a_count(after.makeup, bare);
    products_commute(after.makeup, bare);
    a_gain_shrinks(bare, after.makeup);
    a_mix_blends_one_and_the_full_gain(comp, full, l, r);
    let m = after.mix.value.raw as int;
    let b = bare.raw as int;
    let k = after.makeup.raw as int;
    let w = whole.raw as int;
    let d = comp_gain(comp, l, r).raw - (f - m);
    assert(magnitude(f * f * d - m * (b * k)) <= 3 * f * f) by (nonlinear_arith)
        requires
            -f < f * d - m * w < f,
            -f < f * w - k * b < f,
            0 <= m <= f,
            f == 0x1_0000_0000,
            magnitude(f * f * d - m * (b * k)) == (if f * f * d - m * (b * k) < 0 {
                -(f * f * d - m * (b * k))
            } else {
                f * f * d - m * (b * k)
            }),
    {
        let x = f * d - m * w;
        let y = f * w - k * b;
        assert(f * f * d - m * (b * k) == f * x + m * y) by {
            assert(f * (f * d - m * w) == f * f * d - m * (f * w));
            assert(m * (f * w - k * b) == m * (f * w) - m * (b * k));
        }
        assert(-(f * f) <= f * x <= f * f);
        assert(-(f * f) <= m * y <= f * f);
    }
}

/// More makeup is never less gain, at any mix.
pub proof fn more_makeup_is_more_gain(
    low: CompressorEffect<Fixed>,
    high: CompressorEffect<Fixed>,
    l: Fixed,
    r: Fixed,
)
    requires
        high == (CompressorEffect { makeup: high.makeup, makeup_db: high.makeup_db, ..low }),
        0 <= comp_next(low, l, r).mix.value.raw <= FRACTION,
        0 <= comp_next(low, l, r).makeup.raw <= comp_next(high, l, r).makeup.raw <= 0x10_0000
            * FRACTION,
        comp_next(low, l, r).ratio.value.raw >= FRACTION,
        low.params.knee_db.raw >= 0,
    ensures
        comp_gain(low, l, r).raw <= comp_gain(high, l, r).raw,
        ({
            let before = comp_next(low, l, r);
            let after = comp_next(high, l, r);
            let more = comp_gain(high, l, r).raw - comp_gain(low, l, r).raw;
            FRACTION * FRACTION * (more + 6) >= before.mix.value.raw * (comp_gain(
                comp_bare(low),
                l,
                r,
            ).raw * (after.makeup.raw - before.makeup.raw))
        }),
{
    let f = FRACTION as int;
    let before = comp_next(low, l, r);
    let after = comp_next(high, l, r);
    let reduction_db = compression_of(
        decibels_of(before.detector.level),
        before.threshold_db.value,
        before.ratio.value,
        low.params.knee_db,
    );
    a_compressor_never_lifts(
        decibels_of(before.detector.level),
        before.threshold_db.value,
        before.ratio.value,
        low.params.knee_db,
    );
    an_attenuation_is_a_gain(reduction_db);
    let bare = linear_of(reduction_db);
    let mix = before.mix.value;
    products_keep_order(before.makeup, after.makeup, bare);
    products_keep_order(bare.times(before.makeup), bare.times(after.makeup), mix);
    a_gain_shrinks(bare, before.makeup);
    a_gain_shrinks(bare, after.makeup);
    a_gain_shrinks(mix, bare.times(before.makeup));
    a_gain_shrinks(mix, bare.times(after.makeup));
    products_commute(mix, bare.times(before.makeup));
    products_commute(mix, bare.times(after.makeup));
    a_makeup_multiplies_at_every_mix(low, l, r);
    a_makeup_multiplies_at_every_mix(high, l, r);
    let m = mix.raw as int;
    let p = comp_gain(low, l, r).raw as int;
    let q = comp_gain(high, l, r).raw as int;
    let b = comp_gain(comp_bare(low), l, r).raw as int;
    assert(comp_gain(comp_bare(high), l, r) == comp_gain(comp_bare(low), l, r)) by {
        a_settled_lag_stays(comp_bare(low).mix);
        a_settled_lag_stays(comp_bare(high).mix);
        a_settled_lag_stays(comp_bare(low).makeup_db);
        a_settled_lag_stays(comp_bare(high).makeup_db);
    }
    let j = before.makeup.raw as int;
    let k = after.makeup.raw as int;
    assert(f * f * (q - p + 6) >= m * (b * (k - j))) by (nonlinear_arith)
        requires
            f * f * (q - (f - m)) - m * (b * k) >= -(3 * f * f),
            f * f * (p - (f - m)) - m * (b * j) <= 3 * f * f,
    {
        assert(b * (k - j) == b * k - b * j);
        assert(m * (b * k - b * j) == m * (b * k) - m * (b * j));
        assert(f * f * (q - p + 6) == f * f * (q - (f - m)) - f * f * (p - (f - m)) + 6 * (f * f));
    }
}

/// What a compressor shows of a block of one frame is what it did: the level it
/// detected, and the reduction whose gain it applied, which is the curve's at
/// that level.
pub proof fn a_compressor_shows_what_it_did(comp: CompressorEffect<Fixed>, l: Fixed, r: Fixed)
    requires
        comp.block == block_begun::<Fixed>(),
        comp_next(comp, l, r).detector.level.raw >= 0,
        comp_next(comp, l, r).ratio.value.raw >= FRACTION,
        comp.params.knee_db.raw >= 0,
    ensures
        ({
            let after = comp_next(comp, l, r);
            &&& after.block.detector == after.detector.level
            &&& after.block.reduction_db.raw <= 0
            &&& comp_gain(comp_bare(comp), l, r) == linear_of(after.block.reduction_db)
            &&& after.block.reduction_db == compression_of(
                decibels_of(after.detector.level),
                after.threshold_db.value,
                after.ratio.value,
                comp.params.knee_db,
            )
        }),
{
    let after = comp_next(comp, l, r);
    let naked = comp_bare(comp);
    a_settled_lag_stays(naked.mix);
    a_settled_lag_stays(naked.makeup_db);
    a_compressor_never_lifts(
        decibels_of(after.detector.level),
        after.threshold_db.value,
        after.ratio.value,
        comp.params.knee_db,
    );
    times_one(linear_of(after.block.reduction_db));
}

/// The two channels of a compressor are alike: exchanged, they leave it as it
/// would have been and come out exchanged; and each is within a count of its
/// share of the one gain.
pub proof fn a_compressor_hears_its_channels_alike(
    comp: CompressorEffect<Fixed>,
    l: Fixed,
    r: Fixed,
)
    requires
        i64::MIN < l.raw <= 0x1000_0000_0000,
        i64::MIN < r.raw <= 0x1000_0000_0000,
        within(l, 0x1000_0000_0000),
        within(r, 0x1000_0000_0000),
        within(comp_gain(comp, l, r), 0x1000_0000_0000),
    ensures
        comp_next(comp, l, r) == comp_next(comp, r, l),
        comp_next(comp, l, r) == comp_next(comp, l.negated(), r),
        comp_out(comp, l, r) == (comp_out(comp, r, l).1, comp_out(comp, r, l).0),
        magnitude(FRACTION * comp_out(comp, l, r).0.raw - l.raw * comp_gain(comp, l, r).raw)
            < FRACTION,
        magnitude(FRACTION * comp_out(comp, l, r).1.raw - r.raw * comp_gain(comp, l, r).raw)
            < FRACTION,
{
    the_louder_channel_is_either(l, r);
    let gain = comp_gain(comp, l, r);
    lemma_amplified(l, gain);
    lemma_amplified(r, gain);
}

proof fn lemma_amplified(value: Fixed, gain: Fixed)
    requires
        within(value, 0x1000_0000_0000),
        within(gain, 0x1000_0000_0000),
    ensures
        magnitude(FRACTION * value.times(gain).raw - value.raw * gain.raw) < FRACTION,
{
    let v = value.raw as int;
    let g = gain.raw as int;
    let f = FRACTION as int;
    assert(-(0x7fff_ffff_ffff_ffff * f) <= v * g <= 0x7fff_ffff_ffff_ffff * f) by (nonlinear_arith)
        requires
            -0x1000_0000_0000 <= v <= 0x1000_0000_0000,
            -0x1000_0000_0000 <= g <= 0x1000_0000_0000,
            f == 0x1_0000_0000,
    ;
    a_product_is_exact_to_a_count(value, gain);
}

/// A control of the compressor takes its value where that lies in its range, and
/// the nearer end of the range where it does not; it moves its own lag's target,
/// and nothing that sounds jumps. The threshold goes from -60 dB to nothing, the
/// ratio from 1 to 20, the attack from a twentieth of a millisecond to 200, the
/// release from 5 to 2000, the knee and the makeup to 24 dB, the mix to one.
pub proof fn a_compressor_takes_its_controls(
    comp: CompressorEffect<Fixed>,
    id: u32,
    value: Fixed,
)
    ensures
        ({
            let after = comp_taking(comp, id, value);
            let was = comp.params;
            let now = after.params;
            let v = value.raw as int;
            let f = FRACTION as int;
            let target = |now: Smoothed<Fixed>, was: Smoothed<Fixed>, value: Fixed|
                now == (Smoothed { target: value, ..was });
            &&& id == 0 ==> held(v, -60 * f, 0, now.threshold_db) && now == (CompressorParams {
                threshold_db: now.threshold_db,
                ..was
            }) && target(after.threshold_db, comp.threshold_db, now.threshold_db)
            &&& id == 1 ==> held(v, f, 20 * f, now.ratio) && now == (CompressorParams {
                ratio: now.ratio,
                ..was
            }) && target(after.ratio, comp.ratio, now.ratio)
            &&& id == 2 ==> held(v, f / 20, 200 * f, now.attack_ms) && now == (CompressorParams {
                attack_ms: now.attack_ms,
                ..was
            })
            &&& id == 3 ==> held(v, 5 * f, 2_000 * f, now.release_ms) && now == (CompressorParams {
                release_ms: now.release_ms,
                ..was
            })
            &&& id == 4 ==> held(v, 0, 24 * f, now.knee_db) && now == (CompressorParams {
                knee_db: now.knee_db,
                ..was
            })
            &&& id == 5 ==> held(v, 0, 24 * f, now.makeup_db) && now == (CompressorParams {
                makeup_db: now.makeup_db,
                ..was
            }) && target(after.makeup_db, comp.makeup_db, now.makeup_db)
            &&& id == 6 ==> held(v, 0, f, now.mix) && now == (CompressorParams {
                mix: now.mix,
                ..was
            }) && target(after.mix, comp.mix, now.mix)
            &&& id > 6 ==> now == was
            &&& id != 0 ==> after.threshold_db == comp.threshold_db
            &&& id != 1 ==> after.ratio == comp.ratio
            &&& id != 5 ==> after.makeup_db == comp.makeup_db
            &&& id != 6 ==> after.mix == comp.mix
            &&& after.makeup == comp.makeup
            &&& after.detector.level == comp.detector.level
            &&& after.detector.attack == time_coeff_of(now.attack_ms, comp.sample_rate)
            &&& after.detector.release == time_coeff_of(now.release_ms, comp.sample_rate)
            &&& after.sample_rate == comp.sample_rate
            &&& after.block == comp.block
        }),
{
    a_ratio_is_exact_to_a_count(5, 100);
}

/// A compressor as it is made is at rest on its controls, each inside its range,
/// with the makeup's gain in place.
pub proof fn a_new_compressor_stands_on_its_controls(
    params: CompressorParams<Fixed>,
    sample_rate: u32,
)
    ensures
        ({
            let comp = comp_new(params, sample_rate);
            let f = FRACTION as int;
            &&& comp.params == params
            &&& held(params.threshold_db.raw as int, -60 * f, 0, comp.threshold_db.value)
            &&& held(params.ratio.raw as int, f, 20 * f, comp.ratio.value)
            &&& held(params.makeup_db.raw as int, 0, 24 * f, comp.makeup_db.value)
            &&& held(params.mix.raw as int, 0, f, comp.mix.value)
            &&& settled(comp.threshold_db)
            &&& settled(comp.ratio)
            &&& settled(comp.makeup_db)
            &&& settled(comp.mix)
            &&& comp.makeup == linear_of(comp.makeup_db.value)
            &&& comp.detector.level.raw == 0
            &&& comp.detector.attack == time_coeff_of(params.attack_ms, sample_rate)
            &&& comp.detector.release == time_coeff_of(params.release_ms, sample_rate)
        }),
{
}

/// A compressor's detector moves to the level of its louder channel: never past
/// it, and by its coefficients' share of the way.
pub proof fn a_compressor_detects_the_louder_channel(
    comp: CompressorEffect<Fixed>,
    l: Fixed,
    r: Fixed,
)
    requires
        is_gain(comp.detector.attack),
        is_gain(comp.detector.release),
        within(comp.detector.level, 0x1000_0000_0000_0000),
        within(l, 0x1000_0000_0000_0000),
        within(r, 0x1000_0000_0000_0000),
    ensures
        detects(comp.detector, comp_next(comp, l, r).detector, l, r),
{
    the_louder_channel_is_either(l, r);
    a_follower_keeps_its_share_of_the_distance(comp.detector, louder(l, r));
}

/// So does a gate's.
pub proof fn a_gate_detects_the_louder_channel(gate: GateEffect<Fixed>, l: Fixed, r: Fixed)
    requires
        is_gain(gate.detector.attack),
        is_gain(gate.detector.release),
        within(gate.detector.level, 0x1000_0000_0000_0000),
        within(l, 0x1000_0000_0000_0000),
        within(r, 0x1000_0000_0000_0000),
    ensures
        detects(gate.detector, gate_next(gate, l, r).detector, l, r),
{
    the_louder_channel_is_either(l, r);
    a_follower_keeps_its_share_of_the_distance(gate.detector, louder(l, r));
}

/// Whether a detector went on to the level of the louder of two channels by its
/// share of the way: the attack's up and the release's down.
pub open spec fn detects(
    before: EnvelopeFollower<Fixed>,
    after: EnvelopeFollower<Fixed>,
    l: Fixed,
    r: Fixed,
) -> bool {
    let heard = if magnitude(l.raw as int) < magnitude(r.raw as int) {
        magnitude(r.raw as int)
    } else {
        magnitude(l.raw as int)
    };
    let was = before.level.raw as int;
    let now = after.level.raw as int;
    let left = if was < heard {
        before.attack.raw
    } else {
        before.release.raw
    };
    &&& magnitude(FRACTION * (now - heard) - left * (was - heard)) <= 4_296 * FRACTION
    &&& was <= heard ==> was <= now <= heard
    &&& heard <= was ==> heard <= now <= was
    &&& after.attack == before.attack
    &&& after.release == before.release
}

} // verus!
