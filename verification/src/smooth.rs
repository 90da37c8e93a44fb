//! A control value that glides to where it was last set.

use vstd::prelude::*;

use crate::curves::{a_decay_lies_between_its_bounds, decaying_exponentials_are_gains, Curves};
use crate::num::{
    a_gain_shrinks, a_product_is_exact_to_a_count, a_ratio_is_exact_to_a_count, is_gain, magnitude,
    max, max_of, nothing_times, products_commute, ratio, ratio_of, within, Fixed, Sample, FRACTION,
};

verus! {

/// A one-pole lag: each sample the value moves a fixed share of what is left
/// to its target, and lands on the target once the rest is inaudible or too
/// small to move it.
#[derive(Clone, Copy, Debug)]
pub struct Smoothed<S> {
    pub value: S,
    pub target: S,
    pub coeff: S,
}

/// The one-pole coefficient that covers about 63% of a step in `time_s`
/// seconds.
pub open spec fn glide_coeff_of<S: Curves>(time_s: S, sample_rate: u32) -> S {
    let rate = S::of_spec(if sample_rate < 1 { 1 } else { sample_rate as nat });
    let samples = max_of(max_of(time_s, ratio_of(1, 100_000)).times(rate), S::of_spec(1));
    S::of_spec(1).minus(S::of_spec(1).negated().over(samples).exp_spec())
}

pub fn glide_coeff<S: Curves>(time_s: S, sample_rate: u32) -> (coeff: S)
    ensures
        coeff == glide_coeff_of(time_s, sample_rate),
{
    let rate: S = S::of(at_least_one(sample_rate) as usize);
    let samples = max(max(time_s, ratio(1, 100_000)).mul(rate), S::of(1));
    S::of(1).sub(S::of(1).neg().div(samples).exp())
}

/// A rate that can be divided by.
pub fn at_least_one(sample_rate: u32) -> (rate: u32)
    ensures
        rate == (if sample_rate < 1 { 1 } else { sample_rate }),
{
    if sample_rate < 1 {
        1
    } else {
        sample_rate
    }
}

/// A value one step closer to a target.
pub open spec fn glided<S: Sample>(value: S, target: S, coeff: S) -> S {
    value.plus(target.minus(value).times(coeff))
}

/// The distance at which a control value is as good as there: a millionth.
pub open spec fn settle_distance<S: Sample>() -> S {
    ratio_of(1, 1_000_000)
}

/// The lag after one sample.
pub open spec fn smoothed_next<S: Sample>(lag: Smoothed<S>) -> Smoothed<S> {
    let next = glided(lag.value, lag.target, lag.coeff);
    if next == lag.value || lag.target.minus(next).abs_spec().at_most(settle_distance()) {
        Smoothed { value: lag.target, ..lag }
    } else {
        Smoothed { value: next, ..lag }
    }
}

/// The lag after a number of samples.
pub open spec fn smoothed_after<S: Sample>(lag: Smoothed<S>, frames: nat) -> Smoothed<S>
    decreases frames,
{
    if frames == 0 {
        lag
    } else {
        smoothed_next(smoothed_after(lag, (frames - 1) as nat))
    }
}

/// Whether a lag has arrived.
pub open spec fn settled<S: Sample>(lag: Smoothed<S>) -> bool {
    lag.value == lag.target
}

impl<S: Curves> Smoothed<S> {
    /// A lag at rest on `value`.
    pub fn new(value: S, time_s: S, sample_rate: u32) -> (lag: Self)
        ensures
            lag == (Smoothed { value, target: value, coeff: glide_coeff_of(time_s, sample_rate) }),
    {
        Smoothed { value, target: value, coeff: glide_coeff(time_s, sample_rate) }
    }

    pub fn set_time(&mut self, time_s: S, sample_rate: u32)
        ensures
            *final(self) == (Smoothed {
                coeff: glide_coeff_of(time_s, sample_rate),
                ..*old(self)
            }),
    {
        self.coeff = glide_coeff(time_s, sample_rate);
    }
}

impl<S: Sample> Smoothed<S> {
    pub fn value(&self) -> (value: S)
        ensures
            value == self.value,
    {
        self.value
    }

    pub fn set_target(&mut self, target: S)
        ensures
            *final(self) == (Smoothed { target, ..*old(self) }),
    {
        self.target = target;
    }

    /// Jump to a value, with nothing left to glide.
    pub fn reset_to(&mut self, value: S)
        ensures
            *final(self) == (Smoothed { value, target: value, ..*old(self) }),
    {
        self.value = value;
        self.target = value;
    }

    /// Move one sample on and return where the value now is.
    pub fn advance(&mut self) -> (value: S)
        ensures
            *final(self) == smoothed_next(*old(self)),
            value == final(self).value,
    {
        let next = self.value.add(self.target.sub(self.value).mul(self.coeff));
        let left = self.target.sub(next).abs();
        if next.same(self.value) || left.le(ratio(1, 1_000_000)) {
            self.value = self.target;
        } else {
            self.value = next;
        }
        self.value
    }

    /// Move `frames` samples on: exactly where that many single steps land.
    pub fn advance_by(&mut self, frames: usize) -> (value: S)
        ensures
            *final(self) == smoothed_after(*old(self), frames as nat),
            value == final(self).value,
    {
        let mut at: usize = 0;
        while at < frames
            invariant
                at <= frames,
                *self == smoothed_after(*old(self), at as nat),
            decreases frames - at,
        {
            self.advance();
            at = at + 1;
        }
        self.value
    }

    pub fn is_settled(&self) -> (answer: bool)
        ensures
            answer == settled(*self),
    {
        self.value.same(self.target)
    }
}

/// However a block is cut, a lag ends it in the same place.
pub proof fn advancing_in_pieces_is_advancing<S: Sample>(
    lag: Smoothed<S>,
    first: nat,
    second: nat,
)
    ensures
        smoothed_after(smoothed_after(lag, first), second) == smoothed_after(lag, first + second),
    decreases second,
{
    if second > 0 {
        advancing_in_pieces_is_advancing(lag, first, (second - 1) as nat);
    }
}

/// A lag keeps its target and its time whatever it is advanced by.
pub proof fn advancing_keeps_the_target<S: Sample>(lag: Smoothed<S>, frames: nat)
    ensures
        smoothed_after(lag, frames).target == lag.target,
        smoothed_after(lag, frames).coeff == lag.coeff,
    decreases frames,
{
    if frames > 0 {
        advancing_keeps_the_target(lag, (frames - 1) as nat);
    }
}

/// A lag that has arrived stays where it is.
pub proof fn a_settled_lag_stays(lag: Smoothed<Fixed>)
    requires
        settled(lag),
    ensures
        smoothed_next(lag) == lag,
{
    nothing_times(lag.coeff);
}

/// A step of a lag moves it toward its target and never past it, and by at
/// least one unit where it has not arrived.
proof fn lemma_a_step_closes_in(lag: Smoothed<Fixed>)
    requires
        is_gain(lag.coeff),
        within(lag.value, 0x2000_0000_0000_0000),
        within(lag.target, 0x2000_0000_0000_0000),
    ensures
        lag.value.raw <= lag.target.raw ==> lag.value.raw <= smoothed_next(lag).value.raw
            <= lag.target.raw,
        lag.target.raw <= lag.value.raw ==> lag.target.raw <= smoothed_next(lag).value.raw
            <= lag.value.raw,
        lag.value != lag.target ==> smoothed_next(lag).value != lag.value,
{
    let gap = lag.target.minus(lag.value);
    assert(gap.raw == lag.target.raw - lag.value.raw);
    a_gain_shrinks(lag.coeff, gap);
    products_commute(lag.coeff, gap);
}

/// A lag never overshoots, and arrives: wherever it starts, it is on its target
/// after as many samples as there are units between them, if not long before.
pub proof fn a_lag_arrives(lag: Smoothed<Fixed>, frames: nat)
    requires
        is_gain(lag.coeff),
        within(lag.value, 0x2000_0000_0000_0000),
        within(lag.target, 0x2000_0000_0000_0000),
    ensures
        ({
            let after = smoothed_after(lag, frames);
            &&& lag.value.raw <= lag.target.raw ==> lag.value.raw <= after.value.raw
                <= lag.target.raw
            &&& lag.target.raw <= lag.value.raw ==> lag.target.raw <= after.value.raw
                <= lag.value.raw
            &&& magnitude(lag.target.raw - lag.value.raw) <= frames ==> settled(after)
        }),
{
    lemma_lag_progress(lag, frames);
}

proof fn lemma_lag_progress(lag: Smoothed<Fixed>, frames: nat)
    requires
        is_gain(lag.coeff),
        within(lag.value, 0x2000_0000_0000_0000),
        within(lag.target, 0x2000_0000_0000_0000),
    ensures
        ({
            let after = smoothed_after(lag, frames);
            &&& after.target == lag.target
            &&& after.coeff == lag.coeff
            &&& lag.value.raw <= lag.target.raw ==> lag.value.raw <= after.value.raw
                <= lag.target.raw
            &&& lag.target.raw <= lag.value.raw ==> lag.target.raw <= after.value.raw
                <= lag.value.raw
            &&& settled(after) || magnitude(after.target.raw - after.value.raw) + frames
                <= magnitude(lag.target.raw - lag.value.raw)
        }),
    decreases frames,
{
    if frames > 0 {
        lemma_lag_progress(lag, (frames - 1) as nat);
        let before = smoothed_after(lag, (frames - 1) as nat);
        lemma_a_step_closes_in(before);
        if settled(before) {
            a_settled_lag_stays(before);
        }
    }
}

/// A step of a lag covers its share of the way: what is left is what the share
/// leaves, to within the millionth at which it lands. Where the share of the way
/// is less than a count, the step is the last.
pub proof fn a_lag_covers_its_share(lag: Smoothed<Fixed>)
    requires
        is_gain(lag.coeff),
        within(lag.value, 0x1000_0000_0000_0000),
        within(lag.target, 0x1000_0000_0000_0000),
    ensures
        ({
            let way = lag.target.raw - lag.value.raw;
            let left = lag.target.raw - smoothed_next(lag).value.raw;
            &&& smoothed_next(lag).target == lag.target
            &&& smoothed_next(lag).coeff == lag.coeff
            &&& magnitude(lag.coeff.raw * way) >= FRACTION ==> magnitude(
                FRACTION * left - (FRACTION - lag.coeff.raw) * way,
            ) <= 4_296 * FRACTION
            &&& magnitude(lag.coeff.raw * way) < FRACTION ==> left == 0
        }),
{
    let f = FRACTION as int;
    let gap = lag.target.minus(lag.value);
    let g = gap.raw as int;
    let c = lag.coeff.raw as int;
    a_gain_shrinks(lag.coeff, gap);
    products_commute(lag.coeff, gap);
    assert(-(0x7fff_ffff_ffff_ffff * f) <= c * g <= 0x7fff_ffff_ffff_ffff * f) by (nonlinear_arith)
        requires
            0 <= c <= f,
            -0x2000_0000_0000_0000 <= g <= 0x2000_0000_0000_0000,
            f == 0x1_0000_0000,
    ;
    a_product_is_exact_to_a_count(lag.coeff, gap);
    a_ratio_is_exact_to_a_count(1, 1_000_000);
    assert((f - c) * g == f * g - c * g) by (nonlinear_arith);
}

/// A glide covers about one part in its time of what is left on each sample:
/// between one in its samples and one in a sample more, but for rounding. A glide
/// of a sample or less is as long as a sample.
pub proof fn a_glide_covers_one_in_its_time(time_s: Fixed, sample_rate: u32)
    requires
        0 <= time_s.raw <= 1_000 * FRACTION,
        1 <= sample_rate <= 0x10_0000,
    ensures
        ({
            let share = glide_coeff_of(time_s, sample_rate).raw as int;
            let span = if time_s.raw * sample_rate > FRACTION {
                time_s.raw * sample_rate
            } else {
                FRACTION as int
            };
            &&& is_gain(glide_coeff_of(time_s, sample_rate))
            &&& time_s.raw >= 42_950 ==> share * span <= FRACTION * FRACTION + 255 * span
            &&& time_s.raw >= 42_950 ==> FRACTION * FRACTION <= (share + 256) * (span + FRACTION)
        }),
{
    let f = FRACTION as int;
    let t = time_s.raw as int;
    let n = sample_rate as int;
    a_ratio_is_exact_to_a_count(1, 100_000);
    let floor = ratio_of::<Fixed>(1, 100_000);
    assert(floor.raw == 42_949);
    let time = max_of(time_s, floor);
    let s0 = time.raw as int;
    let rate = Fixed::of_spec(sample_rate as nat);
    assert((s0 * (n * f)) / f == s0 * n && 0 <= s0 * (n * f) && 0 <= s0 * n
        <= 0x4000_0000_0000_0000) by (nonlinear_arith)
        requires
            0 <= s0 <= 1_000 * f,
            1 <= n <= 0x10_0000,
            f == 0x1_0000_0000,
    {
        assert(s0 * (n * f) == (s0 * n) * f);
    }
    let samples = max_of(time.times(rate), Fixed::of_spec(1));
    let s = samples.raw as int;
    assert(s == if s0 * n > f { s0 * n } else { f });
    let x = Fixed::of_spec(1).negated().over(samples);
    let w = (f * f) / s;
    assert(w * s <= f * f < w * s + s && 0 <= w <= f) by (nonlinear_arith)
        requires
            w == (f * f) / s,
            s >= f,
            f == 0x1_0000_0000,
    ;
    assert((-f) * f == -(f * f) && 0 < f * f) by (nonlinear_arith)
        requires
            f == 0x1_0000_0000,
    ;
    assert(x.raw == -w);
    a_decay_lies_between_its_bounds(x);
    decaying_exponentials_are_gains(x);
    let left = x.exp_spec().raw as int;
    let share = f - left;
    assert(share * s <= f * f + 255 * s) by (nonlinear_arith)
        requires
            f - w - 255 <= left,
            share == f - left,
            w * s <= f * f,
            0 < s,
    ;
    assert(f * f <= (share + 256) * (s + f)) by (nonlinear_arith)
        requires
            left * (f + w - 255) <= f * f,
            share == f - left,
            w * s <= f * f < w * s + s,
            0 <= w <= f,
            0 <= left <= f,
            s >= f,
            f == 0x1_0000_0000,
    {
        let a = f + w - 255;
        assert(left * a <= f * f);
        assert((f - share) * a == f * a - share * a);
        assert(share * a >= f * a - f * f);
        assert(f * a - f * f == f * (w - 255));
        assert(share * (f + w) >= f * (w - 255));
        assert(s * (share * (f + w)) >= s * (f * (w - 255)));
        assert(s * w >= f * f - s);
        assert(s * (f * (w - 255)) == f * (s * w) - 255 * (f * s));
        assert(f * (s * w) >= f * (f * f - s));
        assert(s * (f + w) <= f * (s + f));
        assert(share * (s * (f + w)) <= share * (f * (s + f)));
        assert(share * (s * (f + w)) == s * (share * (f + w)));
        assert(share * (f * (s + f)) == f * (share * (s + f)));
        assert(f * (share * (s + f)) >= f * (f * f - 256 * s));
        assert(share * (s + f) >= f * f - 256 * s);
    }
}

} // verus!
