//! Levels: decibels, how a level is tracked, and how one maps to a gain.

use vstd::prelude::*;

use crate::curves::{
    a_decay_lies_between_its_bounds, decaying_exponentials_are_gains, exponentials_keep_order,
    ln_ten, logarithms_keep_order, the_exponential_of_nothing_is_one,
    the_logarithm_of_one_is_nothing, the_logarithm_of_ten, Curves,
};
use crate::num::{
    a_gain_shrinks, a_product_is_exact_to_a_count, a_quotient_keeps_its_sign,
    a_ratio_is_exact_to_a_count, a_share_is_a_gain, falling_products, is_gain, magnitude, max,
    max_of, min, min_of, nothing_times, products_commute, products_keep_order, quotients_keep_order,
    ratio, ratio_of, squares_are_not_negative, within, Fixed, Sample, FRACTION,
};
use crate::smooth::settle_distance;

verus! {

/// The gain of a level in decibels.
pub open spec fn linear_of<S: Curves>(db: S) -> S {
    S::of_spec(10).powf_spec(db.over(S::of_spec(20)))
}

pub fn db_to_linear_unfloored<S: Curves>(db: S) -> (gain: S)
    ensures
        gain == linear_of(db),
{
    S::of(10).powf(db.div(S::of(20)))
}

/// The level in decibels of a gain.
pub open spec fn decibels_of<S: Curves>(gain: S) -> S {
    S::of_spec(20).times(gain.log10_spec())
}

pub fn linear_to_db_unfloored<S: Curves>(gain: S) -> (db: S)
    ensures
        db == decibels_of(gain),
{
    S::of(20).mul(gain.log10())
}

/// A span of milliseconds in samples.
pub open spec fn span_of<S: Sample>(ms: S, sample_rate: u32) -> S {
    ms.times(ratio_of(1, 1000)).times(S::of_spec(sample_rate as nat))
}

/// What is left of a distance after one sample, for a level that covers about
/// 63% of it in `ms` milliseconds. Nothing, for a span of no length.
pub open spec fn time_coeff_of<S: Curves>(ms: S, sample_rate: u32) -> S {
    let span = span_of(ms, sample_rate);
    if S::of_spec(0).below(span) {
        S::of_spec(1).negated().over(span).exp_spec()
    } else {
        S::of_spec(0)
    }
}

pub fn time_coeff<S: Curves>(ms: S, sample_rate: u32) -> (coeff: S)
    ensures
        coeff == time_coeff_of(ms, sample_rate),
{
    let span = ms.mul(ratio(1, 1000)).mul(S::of(sample_rate as usize));
    if S::of(0).lt(span) {
        S::of(1).neg().div(span).exp()
    } else {
        S::of(0)
    }
}

/// A one-pole on its way from `value` to `target`.
pub open spec fn approached<S: Sample>(value: S, target: S, coeff: S) -> S {
    target.plus(coeff.times(value.minus(target)))
}

/// A level that rises with one time and falls with another, and lands on the
/// last of the gap rather than decaying through it forever. What is not finite
/// is heard as silence, so that it cannot stay in the level for good.
#[derive(Clone, Copy, Debug)]
pub struct EnvelopeFollower<S> {
    pub level: S,
    pub attack: S,
    pub release: S,
}

/// An input, or silence where it is not finite.
pub open spec fn audible<S: Sample>(input: S) -> S {
    if input.finite_spec() {
        input
    } else {
        S::of_spec(0)
    }
}

/// The follower's level after an input.
pub open spec fn followed<S: Sample>(follower: EnvelopeFollower<S>, input: S) -> S {
    let input = audible(input);
    let coeff = if follower.level.below(input) {
        follower.attack
    } else {
        follower.release
    };
    let next = approached(follower.level, input, coeff);
    if next.minus(input).abs_spec().at_most(settle_distance()) {
        input
    } else {
        next
    }
}

/// The follower with other times.
pub open spec fn timed<S: Curves>(
    follower: EnvelopeFollower<S>,
    attack_ms: S,
    release_ms: S,
    sample_rate: u32,
) -> EnvelopeFollower<S> {
    EnvelopeFollower {
        level: follower.level,
        attack: time_coeff_of(attack_ms, sample_rate),
        release: time_coeff_of(release_ms, sample_rate),
    }
}

/// A follower that has heard nothing, and follows at once.
pub open spec fn follower_new<S: Sample>() -> EnvelopeFollower<S> {
    EnvelopeFollower { level: S::of_spec(0), attack: S::of_spec(0), release: S::of_spec(0) }
}

impl<S: Sample> EnvelopeFollower<S> {
    pub fn new() -> (follower: Self)
        ensures
            follower == follower_new::<S>(),
    {
        EnvelopeFollower { level: S::of(0), attack: S::of(0), release: S::of(0) }
    }

    pub fn process(&mut self, input: S) -> (level: S)
        ensures
            *final(self) == (EnvelopeFollower {
                level: followed(*old(self), input),
                ..*old(self)
            }),
            level == final(self).level,
    {
        let input = if input.is_finite() {
            input
        } else {
            S::of(0)
        };
        let coeff = if self.level.lt(input) {
            self.attack
        } else {
            self.release
        };
        let next = input.add(coeff.mul(self.level.sub(input)));
        self.level = if next.sub(input).abs().le(ratio(1, 1_000_000)) {
            input
        } else {
            next
        };
        self.level
    }

    pub fn is_at_rest(&self) -> (answer: bool)
        ensures
            answer == self.level.equals_spec(S::of_spec(0)),
    {
        self.level.equals(S::of(0))
    }
}

impl<S: Curves> EnvelopeFollower<S> {
    pub fn set_times(&mut self, attack_ms: S, release_ms: S, sample_rate: u32)
        ensures
            *final(self) == timed(*old(self), attack_ms, release_ms, sample_rate),
    {
        self.attack = time_coeff(attack_ms, sample_rate);
        self.release = time_coeff(release_ms, sample_rate);
    }
}

/// The level of the louder channel, which is what every dynamics effect
/// detects on, so that one gain serves both.
pub open spec fn louder<S: Sample>(l: S, r: S) -> S {
    max_of(l.abs_spec(), r.abs_spec())
}

pub fn linked_peak<S: Sample>(l: S, r: S) -> (level: S)
    ensures
        level == louder(l, r),
{
    max(l.abs(), r.abs())
}

/// The static curve of a compressor: nothing below the knee, the ratio's slope
/// above it, and a parabola that joins the two across it.
pub open spec fn compression_of<S: Sample>(level_db: S, threshold_db: S, ratio: S, knee_db: S) -> S {
    let over = level_db.minus(threshold_db);
    let slope = S::of_spec(1).over(ratio).minus(S::of_spec(1));
    let half = knee_db.over(S::of_spec(2));
    if over.at_most(half.negated()) {
        S::of_spec(0)
    } else if over.below(half) {
        let into = over.plus(half);
        slope.times(into.times(into)).over(S::of_spec(2).times(knee_db))
    } else {
        slope.times(over)
    }
}

pub fn compressor_gain_db<S: Sample>(level_db: S, threshold_db: S, ratio: S, knee_db: S) -> (gain: S)
    ensures
        gain == compression_of(level_db, threshold_db, ratio, knee_db),
{
    let over = level_db.sub(threshold_db);
    let slope = S::of(1).div(ratio).sub(S::of(1));
    let half = knee_db.div(S::of(2));
    if over.le(half.neg()) {
        S::of(0)
    } else if over.lt(half) {
        let into = over.add(half);
        slope.mul(into.mul(into)).div(S::of(2).mul(knee_db))
    } else {
        slope.mul(over)
    }
}

/// The static curve of a gate: nothing at its threshold and above, its range
/// below.
pub open spec fn gating_of<S: Sample>(level_db: S, threshold_db: S, range_db: S) -> S {
    if threshold_db.at_most(level_db) {
        S::of_spec(0)
    } else {
        min_of(range_db, S::of_spec(0))
    }
}

pub fn gate_gain_db<S: Sample>(level_db: S, threshold_db: S, range_db: S) -> (gain: S)
    ensures
        gain == gating_of(level_db, threshold_db, range_db),
{
    if threshold_db.le(level_db) {
        S::of(0)
    } else {
        min(range_db, S::of(0))
    }
}

/// What a dynamics effect did in a block, for its display.
#[derive(Clone, Copy, Debug, PartialEq)]
pub struct DynamicsFrame<S> {
    pub detector_db: S,
    pub reduction_db: S,
}

/// The running block extremes each dynamics effect reports. Extremes rather
/// than the last sample: a device can clamp a transient and be halfway
/// released again inside one buffer.
#[derive(Clone, Copy, Debug)]
pub struct DynamicsBlock<S> {
    /// Loudest detector level of the block, linear, referred to node input.
    pub detector: S,
    /// Deepest reduction of the block in decibels.
    pub reduction_db: S,
}

/// A block of which nothing has been seen.
pub open spec fn block_begun<S: Sample>() -> DynamicsBlock<S> {
    DynamicsBlock { detector: S::of_spec(0), reduction_db: S::of_spec(0) }
}

/// The extremes with one more frame seen.
pub open spec fn observed<S: Sample>(
    block: DynamicsBlock<S>,
    detector: S,
    reduction_db: S,
) -> DynamicsBlock<S> {
    DynamicsBlock {
        detector: max_of(block.detector, detector),
        reduction_db: min_of(block.reduction_db, reduction_db),
    }
}

impl<S: Sample> DynamicsBlock<S> {
    pub fn new() -> (block: Self)
        ensures
            block == block_begun::<S>(),
    {
        DynamicsBlock { detector: S::of(0), reduction_db: S::of(0) }
    }

    pub fn begin(&mut self)
        ensures
            *final(self) == block_begun::<S>(),
    {
        self.detector = S::of(0);
        self.reduction_db = S::of(0);
    }

    pub fn observe(&mut self, detector: S, reduction_db: S)
        ensures
            *final(self) == observed(*old(self), detector, reduction_db),
    {
        self.detector = max(self.detector, detector);
        self.reduction_db = min(self.reduction_db, reduction_db);
    }
}

impl<S: Curves> DynamicsBlock<S> {
    pub fn frame(&self) -> (frame: DynamicsFrame<S>)
        ensures
            frame == (DynamicsFrame {
                detector_db: decibels_of(self.detector),
                reduction_db: self.reduction_db,
            }),
    {
        DynamicsFrame {
            detector_db: linear_to_db_unfloored(self.detector),
            reduction_db: self.reduction_db,
        }
    }
}

/// What is left of a distance after one sample is a share of it.
pub proof fn a_time_coefficient_is_a_gain(ms: Fixed, sample_rate: u32)
    ensures
        is_gain(time_coeff_of(ms, sample_rate)),
{
    let span = span_of(ms, sample_rate);
    if Fixed::of_spec(0).below(span) {
        a_quotient_keeps_its_sign(Fixed::of_spec(1).negated(), span);
        decaying_exponentials_are_gains(Fixed::of_spec(1).negated().over(span));
    }
}

/// What is not finite is heard as silence: a detector never holds on to it.
pub proof fn what_is_not_finite_is_silence<S: Sample>(follower: EnvelopeFollower<S>, input: S)
    requires
        !input.finite_spec(),
    ensures
        followed(follower, input) == followed(follower, S::of_spec(0)),
{
}

/// A follower's level after some samples of silence.
pub open spec fn silenced_level<S: Sample>(follower: EnvelopeFollower<S>, frames: nat) -> S
    decreases frames,
{
    if frames == 0 {
        follower.level
    } else {
        followed(
            EnvelopeFollower {
                level: silenced_level(follower, (frames - 1) as nat),
                ..follower
            },
            S::of_spec(0),
        )
    }
}

/// Silence brings a follower to rest, and it stays there.
pub proof fn silence_brings_a_follower_to_rest(follower: EnvelopeFollower<Fixed>, frames: nat)
    requires
        0 <= follower.level.raw,
        0 <= follower.release.raw < FRACTION,
    ensures
        0 <= silenced_level(follower, frames).raw <= follower.level.raw,
        follower.level.raw <= frames ==> silenced_level(follower, frames).raw == 0,
        silenced_level(follower, frames).raw == 0 || silenced_level(follower, frames).raw + frames
            <= follower.level.raw,
    decreases frames,
{
    if frames > 0 {
        silence_brings_a_follower_to_rest(follower, (frames - 1) as nat);
        let x = silenced_level(follower, (frames - 1) as nat).raw as int;
        let c = follower.release.raw as int;
        let f = FRACTION as int;
        assert(0 <= c * x && 0 <= c * x / f && (x > 0 ==> c * x / f < x) && (x == 0 ==> c * x / f
            == 0)) by (nonlinear_arith)
            requires
                0 <= x,
                0 <= c < f,
                f == 0x1_0000_0000,
        ;
        assert(ratio_of::<Fixed>(1, 1_000_000).raw >= 0) by {
            a_share_is_a_gain(Fixed::of_spec(1), Fixed::of_spec(1_000_000));
        }
    }
}

/// A compressor only ever turns down.
pub proof fn a_compressor_never_lifts(
    level_db: Fixed,
    threshold_db: Fixed,
    ratio: Fixed,
    knee_db: Fixed,
)
    requires
        ratio.raw >= FRACTION,
        knee_db.raw >= 0,
    ensures
        compression_of(level_db, threshold_db, ratio, knee_db).raw <= 0,
{
    let over = level_db.minus(threshold_db);
    let one = Fixed::of_spec(1);
    let slope = one.over(ratio).minus(one);
    let half = knee_db.over(Fixed::of_spec(2));
    a_share_is_a_gain(one, ratio);
    assert(slope.raw <= 0);
    if over.at_most(half.negated()) {
    } else if over.below(half) {
        let into = over.plus(half);
        squares_are_not_negative(into);
        falling_products(slope, into.times(into));
        if knee_db.raw > 0 {
            let under = Fixed::of_spec(2).times(knee_db);
            let k = knee_db.raw as int;
            let f = FRACTION as int;
            assert((2 * f) * k / f == 2 * k && (2 * f) * k >= 0) by (nonlinear_arith)
                requires
                    f == 0x1_0000_0000,
                    0 <= k,
            ;
            a_quotient_keeps_its_sign(slope.times(into.times(into)), under);
        }
    } else {
        falling_products(slope, over);
    }
}

/// A span is its milliseconds' share of the rate: a thousand of it are the
/// milliseconds times the rate, but for rounding.
pub proof fn a_span_is_its_milliseconds(ms: Fixed, sample_rate: u32)
    requires
        0 <= ms.raw <= 0x1000_0000_0000,
        sample_rate <= 0x10_0000,
    ensures
        magnitude(1000 * span_of(ms, sample_rate).raw - ms.raw * sample_rate) <= sample_rate * (
        ms.raw / 4_000_000 + 2_000),
        span_of(ms, sample_rate).raw >= 0,
{
    let f = FRACTION as int;
    let m = ms.raw as int;
    let n = sample_rate as int;
    a_ratio_is_exact_to_a_count(1, 1000);
    let a = ratio_of::<Fixed>(1, 1000);
    let c = a.raw as int;
    assert(c == 4_294_967);
    assert(0 <= m * c <= 0x7fff_ffff_ffff_ffff * f) by (nonlinear_arith)
        requires
            0 <= m <= 0x1000_0000_0000,
            c == 4_294_967,
            f == 0x1_0000_0000,
    ;
    a_product_is_exact_to_a_count(ms, a);
    let share = ms.times(a);
    let p = share.raw as int;
    assert(0 <= p <= m) by (nonlinear_arith)
        requires
            f * p <= m * c,
            c <= f,
            0 <= m,
            0 <= p,
            f == 0x1_0000_0000,
    ;
    assert(0 <= p * n <= 0x7fff_ffff_ffff_ffff) by (nonlinear_arith)
        requires
            0 <= p <= 0x4_2000_0000,
            0 <= n <= 0x10_0000,
    ;
    assert((p * (n * f)) / f == p * n && 0 <= p * (n * f)) by (nonlinear_arith)
        requires
            f == 0x1_0000_0000,
            0 <= p,
            0 <= n,
    {
        assert(p * (n * f) == (p * n) * f);
        assert(0 <= p * n);
    }
    assert(span_of(ms, sample_rate).raw == p * n);
    let off = m / 4_000_000 + 2_000;
    assert(-off <= 1000 * p - m <= off) by (nonlinear_arith)
        requires
            -f < f * p - m * c < f,
            c == 4_294_967,
            0 <= m,
            off == m / 4_000_000 + 2_000,
            f == 0x1_0000_0000,
    ;
    assert(magnitude(1000 * (p * n) - m * n) <= n * off) by (nonlinear_arith)
        requires
            -off <= 1000 * p - m <= off,
            0 <= n,
            magnitude(1000 * (p * n) - m * n) == (if 1000 * (p * n) - m * n < 0 {
                -(1000 * (p * n) - m * n)
            } else {
                1000 * (p * n) - m * n
            }),
    {
        assert(1000 * (p * n) - m * n == (1000 * p - m) * n);
    }
}

/// A level that covers most of a distance in a span loses about one part in the
/// span of what is left on each sample: between one in the span and one in a
/// span and a sample, but for rounding. With no span, nothing is left.
pub proof fn a_time_coefficient_loses_one_in_its_span(ms: Fixed, sample_rate: u32)
    ensures
        ({
            let span = span_of(ms, sample_rate).raw as int;
            let left = time_coeff_of(ms, sample_rate).raw as int;
            &&& span <= 0 ==> left == 0
            &&& span * 256 >= FRACTION ==> (FRACTION - left) * span <= FRACTION * FRACTION + 255
                * span
            &&& span * 256 >= FRACTION ==> left * (FRACTION * span + FRACTION * FRACTION - 256
                * span) <= FRACTION * FRACTION * span
        }),
{
    let f = FRACTION as int;
    let span = span_of(ms, sample_rate);
    let s = span.raw as int;
    if s * 256 >= f {
        let x = Fixed::of_spec(1).negated().over(span);
        let w = (f * f) / s;
        assert(w * s <= f * f < w * s + s && 0 <= w <= 256 * f) by (nonlinear_arith)
            requires
                w == (f * f) / s,
                s * 256 >= f,
                f == 0x1_0000_0000,
        ;
        assert((-f) * f == -(f * f) && 0 < f * f) by (nonlinear_arith)
            requires
                f == 0x1_0000_0000,
        ;
        assert(x.raw == -w);
        a_decay_lies_between_its_bounds(x);
        let left = x.exp_spec().raw as int;
        assert((f - left) * s <= f * f + 255 * s) by (nonlinear_arith)
            requires
                f - w - 255 <= left,
                w * s <= f * f,
                0 < s,
        ;
        assert(left * (f * s + f * f - 256 * s) <= f * f * s) by (nonlinear_arith)
            requires
                left * (f + w - 255) <= f * f,
                f * f < w * s + s,
                0 <= left,
                0 < s,
        {
            assert((left * (f + w - 255)) * s <= (f * f) * s);
            assert(f * s + f * f - 256 * s <= (f + w - 255) * s);
            assert(left * (f * s + f * f - 256 * s) <= left * ((f + w - 255) * s));
        }
    }
}

/// A follower keeps its coefficient's share of the distance to what it hears:
/// the attack's where it rises and the release's where it falls, to within the
/// millionth at which it lands.
pub proof fn a_follower_keeps_its_share_of_the_distance(
    follower: EnvelopeFollower<Fixed>,
    input: Fixed,
)
    requires
        is_gain(follower.attack),
        is_gain(follower.release),
        within(follower.level, 0x1000_0000_0000_0000),
        within(input, 0x1000_0000_0000_0000),
    ensures
        ({
            let next = followed(follower, input).raw;
            let share = if follower.level.raw < input.raw {
                follower.attack.raw
            } else {
                follower.release.raw
            };
            &&& magnitude(
                FRACTION * (next - input.raw) - share * (follower.level.raw - input.raw),
            ) <= 4_296 * FRACTION
            &&& follower.level.raw <= input.raw ==> follower.level.raw <= next <= input.raw
            &&& input.raw <= follower.level.raw ==> input.raw <= next <= follower.level.raw
        }),
{
    let f = FRACTION as int;
    let coeff = if follower.level.below(input) {
        follower.attack
    } else {
        follower.release
    };
    let way = follower.level.minus(input);
    a_gain_shrinks(coeff, way);
    assert(magnitude(coeff.raw * way.raw) <= 0x7fff_ffff_ffff_ffff * f) by (nonlinear_arith)
        requires
            0 <= coeff.raw <= f,
            -0x2000_0000_0000_0000 <= way.raw <= 0x2000_0000_0000_0000,
            f == 0x1_0000_0000,
            magnitude(coeff.raw * way.raw) == (if coeff.raw * way.raw < 0 {
                -(coeff.raw * way.raw)
            } else {
                coeff.raw * way.raw
            }),
    ;
    a_product_is_exact_to_a_count(coeff, way);
    a_ratio_is_exact_to_a_count(1, 1_000_000);
}

/// A compressor divides what is over its threshold by its ratio: the ratio times
/// what is left of it is what there was, but for rounding; and below the knee it
/// does nothing.
pub proof fn a_compressor_divides_by_its_ratio(
    level_db: Fixed,
    threshold_db: Fixed,
    ratio: Fixed,
    knee_db: Fixed,
)
    requires
        within(level_db, 0x1_0000_0000_0000),
        within(threshold_db, 0x1_0000_0000_0000),
        FRACTION <= ratio.raw <= 0x100_0000_0000,
        0 <= knee_db.raw <= 0x1_0000_0000_0000,
    ensures
        ({
            let over = level_db.raw - threshold_db.raw;
            let reduction = compression_of(level_db, threshold_db, ratio, knee_db).raw;
            &&& 2 * over + knee_db.raw <= 0 ==> reduction == 0
            &&& knee_db.raw <= 2 * over && 0 < over ==> magnitude(
                ratio.raw * (over + reduction) - FRACTION * over,
            ) <= ratio.raw * (over / 4_000_000_000 + 3)
            &&& 0 < 2 * over + knee_db.raw ==> reduction <= 1
        }),
{
    let f = FRACTION as int;
    let one = Fixed::of_spec(1);
    let over = level_db.minus(threshold_db);
    let o = over.raw as int;
    let r = ratio.raw as int;
    let half = knee_db.over(Fixed::of_spec(2));
    let k = knee_db.raw as int;
    assert((k * f) / (2 * f) == k / 2 && 0 <= k * f) by (nonlinear_arith)
        requires
            0 <= k,
            f == 0x1_0000_0000,
    ;
    assert(half.raw == k / 2);
    a_compressor_never_lifts(level_db, threshold_db, ratio, knee_db);
    let q = (f * f) / r;
    assert(q * r <= f * f < q * r + r && 0 <= q <= f && 0 <= f * f) by (nonlinear_arith)
        requires
            q == (f * f) / r,
            f <= r,
            f == 0x1_0000_0000,
    ;
    let slope = one.over(ratio).minus(one);
    assert(slope.raw == q - f);
    if k <= 2 * o && 0 < o {
        let n = (f - q) * o;
        assert(0 <= n <= f * o && (q - f) * o == -n) by (nonlinear_arith)
            requires
                n == (f - q) * o,
                0 <= q <= f,
                0 < o,
        ;
        assert(f * o <= 0x7fff_ffff_ffff_ffff * f) by (nonlinear_arith)
            requires
                o <= 0x4_0000_0000_0000,
                f == 0x1_0000_0000,
        ;
        a_product_is_exact_to_a_count(slope, over);
        let red = slope.times(over).raw as int;
        assert(compression_of(level_db, threshold_db, ratio, knee_db).raw == red);
        let bound = r * (o / 4_000_000_000 + 3);
        assert(magnitude(r * (o + red) - f * o) <= bound) by (nonlinear_arith)
            requires
                -f < f * red + n < f,
                n == (f - q) * o,
                q * r <= f * f < q * r + r,
                0 < o,
                f <= r,
                bound == r * (o / 4_000_000_000 + 3),
                f == 0x1_0000_0000,
                magnitude(r * (o + red) - f * o) == (if r * (o + red) - f * o < 0 {
                    -(r * (o + red) - f * o)
                } else {
                    r * (o + red) - f * o
                }),
        {
            let e = f * red + n;
            assert(f * (o + red) == q * o + e);
            assert(f * (r * (o + red)) == (q * r) * o + r * e);
            let y = f * f - q * r;
            assert((q * r) * o == (f * f) * o - y * o);
            assert(0 <= y * o <= r * o);
            assert(-(r * f) <= r * e <= r * f);
            assert(f * (r * (o + red) - f * o) == r * e - y * o);
            let d = r * (o + red) - f * o;
            assert(-(r * f) - r * o <= f * d <= r * f);
            let m = o / 4_000_000_000;
            assert(o <= 4_000_000_000 * m + 4_000_000_000);
            assert(r * o <= r * (f * (m + 1)));
            assert(f * d >= -(f * (r * (m + 2))));
            assert(d >= -(r * (m + 2)));
            assert(d <= r);
        }
    }
}

/// Gains keep the order of their decibels, and nothing in decibels is one.
pub proof fn decibels_keep_order(low: Fixed, high: Fixed)
    requires
        low.raw <= high.raw,
    ensures
        linear_of(low).raw <= linear_of(high).raw,
        linear_of(Fixed::of_spec(0)) == Fixed::of_spec(1),
        decibels_of(low).raw <= decibels_of(high).raw,
        decibels_of(Fixed::of_spec(1)) == Fixed::of_spec(0),
{
    let ten = Fixed::of_spec(10);
    let twenty = Fixed::of_spec(20);
    the_logarithm_of_ten();
    quotients_keep_order(low, high, twenty);
    products_keep_order(low.over(twenty), high.over(twenty), ten.ln_spec());
    exponentials_keep_order(
        low.over(twenty).times(ten.ln_spec()),
        high.over(twenty).times(ten.ln_spec()),
    );
    nothing_times(ten.ln_spec());
    the_exponential_of_nothing_is_one();
    assert(Fixed::of_spec(0).over(twenty) == Fixed::of_spec(0)) by {
        assert(0int / (20int * 0x1_0000_0000) == 0);
    }
    logarithms_keep_order(low, high);
    the_logarithm_of_one_is_nothing();
    a_ratio_is_exact_to_a_count(9_657_742, 4_194_304);
    quotients_keep_order(low.ln_spec(), high.ln_spec(), ln_ten());
    products_keep_order(low.log10_spec(), high.log10_spec(), twenty);
    let d = ln_ten().raw as int;
    assert(0int / d == 0) by (nonlinear_arith)
        requires
            0 < d,
    ;
    nothing_times(twenty);
    products_commute(twenty, Fixed::of_spec(0));
}

/// An attenuation in decibels lies between the bounds of its exponential: a
/// twentieth of it times the logarithm of ten.
pub proof fn an_attenuation_lies_between_its_bounds(db: Fixed)
    requires
        -2_000 * FRACTION <= db.raw <= 0,
    ensures
        1_000 * FRACTION + 116 * db.raw - 1_000_000 <= 1_000 * linear_of(db).raw,
        linear_of(db).raw * (1_000 * FRACTION - 115 * db.raw - 1_000_000) <= 1_000 * (FRACTION
            * FRACTION),
        is_gain(linear_of(db)),
{
    let f = FRACTION as int;
    let ten = Fixed::of_spec(10).ln_spec();
    let t = ten.raw as int;
    the_logarithm_of_ten();
    let n = -db.raw;
    let share = db.over(Fixed::of_spec(20));
    let q = n / 20;
    assert((n * f) / (20 * f) == q && 0 <= n * f && (-n) * f == -(n * f)) by (nonlinear_arith)
        requires
            q == n / 20,
            0 <= n,
            f == 0x1_0000_0000,
    ;
    assert(0int / (20 * f) == 0);
    assert(share.raw == -q);
    let p = q * t / f;
    assert(p * f <= q * t < p * f + f && 0 <= p && 0 <= q * t && (-q) * t == -(q * t))
        by (nonlinear_arith)
        requires
            p == q * t / f,
            0 <= q,
            0 <= t,
            f == 0x1_0000_0000,
    ;
    assert(0int / f == 0);
    let x = share.times(ten);
    assert(p <= 232 * f) by (nonlinear_arith)
        requires
            p * f <= q * t,
            q <= 100 * f,
            100 * t <= 232 * f,
            0 <= q,
            f == 0x1_0000_0000,
    ;
    assert(x.raw == -p);
    a_decay_lies_between_its_bounds(x);
    let g = linear_of(db).raw as int;
    assert(g == x.exp_spec().raw);
    assert(1_000 * p <= 116 * n) by (nonlinear_arith)
        requires
            p * f <= q * t,
            20 * q <= n,
            0 <= q,
            100 * t <= 232 * f,
            f == 0x1_0000_0000,
    {
        assert(100 * (q * t) <= q * (232 * f));
        assert(100 * p <= 232 * q);
    }
    assert(1_000 * p >= 115 * n - 10_000) by (nonlinear_arith)
        requires
            q * t < p * f + f,
            n < 20 * q + 20,
            0 <= q,
            10 * t >= 23 * f,
            f == 0x1_0000_0000,
    {
        assert(10 * (q * t) >= q * (23 * f));
        assert(10 * (p + 1) > 23 * q - 1);
    }
    assert(g * (1_000 * f + 115 * n - 1_000_000) <= 1_000 * (f * f)) by (nonlinear_arith)
        requires
            g * (f + p - 255) <= f * f,
            1_000 * p >= 115 * n - 10_000,
            0 <= g,
    {
        assert(1_000 * f + 115 * n - 1_000_000 <= 1_000 * (f + p - 255));
        assert(g * (1_000 * f + 115 * n - 1_000_000) <= g * (1_000 * (f + p - 255)));
    }
}

/// An attenuation is a gain: it never lifts.
pub proof fn an_attenuation_is_a_gain(db: Fixed)
    requires
        db.raw <= 0,
    ensures
        is_gain(linear_of(db)),
{
    the_logarithm_of_ten();
    let ten = Fixed::of_spec(10).ln_spec();
    let share = db.over(Fixed::of_spec(20));
    a_quotient_keeps_its_sign(db, Fixed::of_spec(20));
    falling_products(share, ten);
    decaying_exponentials_are_gains(share.times(ten));
}

/// The louder channel is whichever it is, the sign of either aside.
pub proof fn the_louder_channel_is_either(l: Fixed, r: Fixed)
    requires
        l.raw > i64::MIN,
        r.raw > i64::MIN,
    ensures
        louder(l, r) == louder(r, l),
        louder(l, r) == louder(l.negated(), r),
        louder(l, r) == louder(l, r.negated()),
        louder(l, r).raw >= l.raw,
        louder(l, r).raw >= -l.raw,
        louder(l, r).raw >= r.raw,
        louder(l, r).raw >= -r.raw,
        louder(l, r).raw == magnitude(l.raw as int) || louder(l, r).raw == magnitude(r.raw as int),
{
}

} // verus!
