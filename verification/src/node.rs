//! What the host tells a node about the block it is to render.

use vstd::prelude::*;

use crate::curves::{
    a_root_is_a_root, a_root_is_positive, lemma_logarithm, lemma_root_bound, lemma_root_share,
    rooted, Curves,
};
use crate::num::{is_gain, quotient, ratio, ratio_of, saturated, Fixed, Sample, FRACTION};

verus! {

/// The trips it takes a signal that keeps `gain` of itself on each to fall 140
/// decibels: `ln 10^-7 / ln gain`.
pub open spec fn trips_of<S: Curves>(gain: S) -> S {
    let least = ratio_of::<S>(1, 10_000_000);
    least.ln_spec().over(gain.ln_spec())
}

/// The frames a feedback loop goes on sounding: one trip for what is in it,
/// and one for each trip it takes to fall silent. For good, where nothing is
/// lost.
pub open spec fn feedback_tail_of<S: Curves>(gain: S, trip: S) -> u32 {
    if S::of_spec(1).at_most(gain) {
        u32::MAX
    } else {
        let trips = if ratio_of::<S>(1, 1_000_000).below(gain) {
            trips_of(gain)
        } else {
            S::of_spec(0)
        };
        let whole = trip.times(trips.plus(S::of_spec(1))).ceil_spec().whole_spec();
        if whole > u32::MAX {
            u32::MAX
        } else {
            whole as u32
        }
    }
}

pub fn feedback_tail_frames<S: Curves>(gain: S, trip: S) -> (frames: u32)
    ensures
        frames == feedback_tail_of(gain, trip),
{
    if S::of(1).le(gain) {
        return u32::MAX;
    }
    let trips = if ratio::<S>(1, 1_000_000).lt(gain) {
        ratio::<S>(1, 10_000_000).ln().div(gain.ln())
    } else {
        S::of(0)
    };
    let whole: usize = trip.mul(trips.add(S::of(1))).ceil().whole();
    if whole > 0xffff_ffff {
        u32::MAX
    } else {
        whole as u32
    }
}

/// The block being rendered.
#[derive(Clone, Copy, Debug, PartialEq, Eq)]
pub struct ProcessContext {
    pub sample_rate: u32,
    pub frames: usize,
}

/// A break in the transport's time.
#[derive(Clone, Copy, Debug, PartialEq, Eq)]
pub enum Discontinuity {
    /// The transport moved to another place.
    Seek,
    /// The transport wrapped from the end of its loop to the start.
    LoopFold,
    /// The player looked at another pattern; time went on.
    ProgramChange,
}

impl Discontinuity {
    /// Whether a tail that is still sounding belongs to a part of the song
    /// that the transport has left. Only a seek leaves: a tail wraps from the
    /// end of a loop into its start, and a program change leaves time alone.
    pub open spec fn leaves(self) -> bool {
        self is Seek
    }

    pub fn invalidates_tails(&self) -> (answer: bool)
        ensures
            answer == self.leaves(),
    {
        match self {
            Discontinuity::Seek => true,
            Discontinuity::LoopFold => false,
            Discontinuity::ProgramChange => false,
        }
    }
}

/// What is left of a level after some trips that each keep `gain` of it.
pub open spec fn fallen(level: int, gain: Fixed, trips: nat) -> int
    decreases trips,
{
    if trips == 0 {
        level
    } else {
        fallen(level, gain, (trips - 1) as nat) * gain.raw / (FRACTION as int)
    }
}

spec fn raised(x: int, times: nat) -> int
    decreases times,
{
    if times == 0 {
        1
    } else {
        raised(x, (times - 1) as nat) * x
    }
}

proof fn lemma_raised_is_positive(x: int, times: nat)
    requires
        0 <= x,
    ensures
        0 <= raised(x, times),
        0 < x ==> 0 < raised(x, times),
    decreases times,
{
    if times > 0 {
        lemma_raised_is_positive(x, (times - 1) as nat);
        let before = raised(x, (times - 1) as nat);
        assert(0 <= before * x && (0 < x && 0 < before ==> 0 < before * x)) by (nonlinear_arith)
            requires
                0 <= before,
                0 <= x,
        ;
    }
}

proof fn lemma_fallen(level: int, gain: Fixed, trips: nat)
    requires
        0 <= level,
        is_gain(gain),
    ensures
        0 <= fallen(level, gain, trips),
        fallen(level, gain, trips) * raised(FRACTION as int, trips) <= level * raised(
            gain.raw as int,
            trips,
        ),
    decreases trips,
{
    if trips > 0 {
        let fewer = (trips - 1) as nat;
        lemma_fallen(level, gain, fewer);
        let f = FRACTION as int;
        let g = gain.raw as int;
        let was = fallen(level, gain, fewer);
        let now = was * g / f;
        let a = raised(f, fewer);
        let b = raised(g, fewer);
        lemma_raised_is_positive(f, fewer);
        assert(0 <= now && now * f <= was * g) by (nonlinear_arith)
            requires
                now == was * g / f,
                0 <= was,
                0 <= g,
                f == 0x1_0000_0000,
        {
            assert(0 <= was * g);
        }
        assert(now * (a * f) <= level * (b * g)) by (nonlinear_arith)
            requires
                now * f <= was * g,
                was * a <= level * b,
                0 <= a,
                0 <= g,
        {
            assert((now * f) * a <= (was * g) * a);
            assert((was * a) * g <= (level * b) * g);
        }
    } else {
        assert(level * 1 == level);
    }
}

proof fn lemma_raised_roots(low: int, high: int, whole: int, times: nat)
    requires
        0 <= low,
        0 <= high,
        0 <= whole,
        low * whole <= high * high,
    ensures
        raised(low, times) * raised(whole, times) <= raised(high, times) * raised(high, times),
    decreases times,
{
    if times > 0 {
        let fewer = (times - 1) as nat;
        lemma_raised_roots(low, high, whole, fewer);
        let a = raised(low, fewer);
        let b = raised(whole, fewer);
        let c = raised(high, fewer);
        lemma_raised_is_positive(low, fewer);
        lemma_raised_is_positive(whole, fewer);
        lemma_raised_is_positive(high, fewer);
        assert((a * low) * (b * whole) <= (c * high) * (c * high)) by (nonlinear_arith)
            requires
                a * b <= c * c,
                low * whole <= high * high,
                0 <= a * b,
                0 <= low * whole,
        {
            assert((a * low) * (b * whole) == (a * b) * (low * whole));
            assert((c * high) * (c * high) == (c * c) * (high * high));
            assert((a * b) * (low * whole) <= (c * c) * (low * whole));
            assert((c * c) * (low * whole) <= (c * c) * (high * high));
        }
    }
}

/// Falling by a share some times over is at least falling by as many of it.
proof fn lemma_raised_falls(whole: int, share: int, times: nat)
    requires
        0 <= share <= whole,
    ensures
        raised(whole - share, times) * (whole + times * share) <= raised(whole, times) * whole,
    decreases times,
{
    if times > 0 {
        let fewer = (times - 1) as nat;
        lemma_raised_falls(whole, share, fewer);
        let s = whole - share;
        let a = raised(s, fewer);
        let b = raised(whole, fewer);
        lemma_raised_is_positive(s, fewer);
        let had = whole + fewer * share;
        let has = whole + times * share;
        assert(has == had + share) by (nonlinear_arith)
            requires
                times == fewer + 1,
                had == whole + fewer * share,
                has == whole + times * share,
        ;
        assert(whole <= had) by (nonlinear_arith)
            requires
                had == whole + fewer * share,
                0 <= share,
                0 <= fewer,
        ;
        assert(s * has <= whole * had) by (nonlinear_arith)
            requires
                s == whole - share,
                has == had + share,
                0 <= share,
                whole <= had,
        ;
        assert((a * s) * has <= (b * whole) * whole) by (nonlinear_arith)
            requires
                a * had <= b * whole,
                s * has <= whole * had,
                0 <= a,
                0 <= whole,
        {
            assert(a * (s * has) <= a * (whole * had));
            assert(whole * (a * had) <= whole * (b * whole));
        }
    } else {
        assert(1 * (whole + 0 * share) == 1 * whole) by (nonlinear_arith);
    }
}

proof fn lemma_ratio_squared(low: int, high: int, whole: int, parts: int, squared: int)
    requires
        0 < whole,
        0 <= low,
        0 <= high,
        0 <= parts,
        low * whole <= high * high,
        high * 1_000_000_000 <= whole * parts,
        parts * parts <= squared * 1_000_000_000,
    ensures
        low * 1_000_000_000 <= whole * squared,
{
    let n: int = 1_000_000_000;
    assert((high * n) * (high * n) <= (whole * parts) * (whole * parts)) by (nonlinear_arith)
        requires
            0 <= high * n <= whole * parts,
    ;
    assert((low * whole) * (n * n) <= (whole * whole) * (parts * parts)) by (nonlinear_arith)
        requires
            low * whole <= high * high,
            (high * n) * (high * n) <= (whole * parts) * (whole * parts),
            n == 1_000_000_000,
    {
        assert((high * n) * (high * n) == (high * high) * (n * n));
        assert((whole * parts) * (whole * parts) == (whole * whole) * (parts * parts));
        assert((low * whole) * (n * n) <= (high * high) * (n * n));
    }
    assert((whole * whole) * (parts * parts) <= (whole * whole) * (squared * n)) by (nonlinear_arith)
        requires
            parts * parts <= squared * n,
    ;
    assert(low * n <= whole * squared) by (nonlinear_arith)
        requires
            (low * whole) * (n * n) <= (whole * whole) * (squared * n),
            0 < whole,
            n == 1_000_000_000,
    {
        assert((low * whole) * (n * n) == (low * n) * (whole * n));
        assert((whole * whole) * (squared * n) == (whole * squared) * (whole * n));
        assert(0 < whole * n);
        if low * n > whole * squared {
            assert((low * n) * (whole * n) > (whole * squared) * (whole * n));
        }
    }
}

/// A number and some more are no more than the square of its root and some more.
proof fn lemma_root_and_more(x: Fixed, share: int, more: int, extra: int)
    requires
        0 < x.raw,
        0 < share,
        FRACTION <= share * x.sqrt_spec().raw,
        0 <= more,
        0 <= extra,
        share * (1 + more) <= 2 * extra,
    ensures
        (x.raw + 1 + more) * FRACTION <= (x.sqrt_spec().raw + 1 + extra) * (x.sqrt_spec().raw + 1
            + extra),
{
    a_root_is_a_root(x);
    let f = FRACTION as int;
    let p = x.raw as int;
    let r = x.sqrt_spec().raw as int;
    assert((p + 1 + more) * f <= (r + 1 + extra) * (r + 1 + extra)) by (nonlinear_arith)
        requires
            p * f < (r + 1) * (r + 1),
            0 <= r,
            0 < share,
            f <= share * r,
            0 <= more,
            0 <= extra,
            share * (1 + more) <= 2 * extra,
            f == 0x1_0000_0000,
    {
        assert((1 + more) * f <= (1 + more) * (share * r));
        assert((1 + more) * (share * r) == (share * (1 + more)) * r);
        assert((share * (1 + more)) * r <= (2 * extra) * r);
        assert((r + 1 + extra) * (r + 1 + extra) >= (r + 1) * (r + 1) + (2 * extra) * r);
    }
}

/// How far down the logarithm is that a tail is measured by.
proof fn lemma_least_logarithm()
    ensures
        -256 * FRACTION <= ratio_of::<Fixed>(1, 10_000_000).ln_spec().raw <= -256 * (FRACTION
            - 4_032_869_325),
{
    let f = FRACTION as int;
    let x = ratio_of::<Fixed>(1, 10_000_000);
    assert(x.raw == 429) by {
        assert((1 * f) * f == 0x1_0000_0000_0000_0000) by (nonlinear_arith)
            requires
                f == 0x1_0000_0000,
        ;
        assert(0x1_0000_0000_0000_0000int / (10_000_000int * 0x1_0000_0000) == 429);
    }
    let x1 = x.sqrt_spec();
    let x2 = x1.sqrt_spec();
    let x3 = x2.sqrt_spec();
    let x4 = x3.sqrt_spec();
    let x5 = x4.sqrt_spec();
    let x6 = x5.sqrt_spec();
    let x7 = x6.sqrt_spec();
    lemma_root_bound(x, 1_357_403);
    a_root_is_positive(x);
    lemma_root_bound(x1, 76_354_447);
    a_root_is_positive(x1);
    lemma_root_bound(x2, 572_660_330);
    a_root_is_positive(x2);
    lemma_root_bound(x3, 1_568_297_609);
    a_root_is_positive(x3);
    lemma_root_bound(x4, 2_595_339_466);
    a_root_is_positive(x4);
    lemma_root_bound(x5, 3_338_697_071);
    a_root_is_positive(x5);
    lemma_root_bound(x6, 3_786_765_735);
    a_root_is_positive(x6);
    lemma_root_bound(x7, 4_032_869_325);
    a_root_is_positive(x7);
    assert(rooted(x, 8) == x7.sqrt_spec()) by {
        reveal_with_fuel(rooted, 9);
    }
    lemma_logarithm(x);
}

/// The trips a tail is given are enough. A level that keeps `gain` of itself on
/// each is, once as many whole trips have passed as the tail counts, under a
/// three millionth of what it was: within a few of the ten millionths that
/// count as silence.
pub proof fn the_trips_of_a_tail_are_enough(level: int, gain: Fixed, trips: nat)
    requires
        0 <= level,
        FRACTION <= 1001 * gain.raw,
        100 * gain.raw <= 98 * FRACTION,
        trips_of(gain).raw <= trips * FRACTION,
    ensures
        3_800_000 * fallen(level, gain, trips) <= level,
{
    let f = FRACTION as int;
    let g = gain.raw as int;
    let x1 = gain.sqrt_spec();
    let x2 = x1.sqrt_spec();
    let x3 = x2.sqrt_spec();
    let x4 = x3.sqrt_spec();
    let x5 = x4.sqrt_spec();
    let x6 = x5.sqrt_spec();
    let x7 = x6.sqrt_spec();
    let x8 = x7.sqrt_spec();
    assert(rooted(gain, 8) == x8) by {
        reveal_with_fuel(rooted, 9);
    }
    lemma_root_share(gain, 1001, 32);
    lemma_root_share(x1, 32, 6);
    lemma_root_share(x2, 6, 3);
    lemma_root_share(x3, 3, 2);
    lemma_root_share(x4, 2, 2);
    lemma_root_share(x5, 2, 2);
    lemma_root_share(x6, 2, 2);
    lemma_root_share(x7, 2, 2);
    lemma_root_bound(gain, 4_251_800_700);
    lemma_root_bound(x1, 4_273_329_493);
    lemma_root_bound(x2, 4_284_134_734);
    lemma_root_bound(x3, 4_289_547_596);
    lemma_root_bound(x4, 4_292_256_591);
    lemma_root_bound(x5, 4_293_611_730);
    lemma_root_bound(x6, 4_294_289_460);
    lemma_root_bound(x7, 4_294_628_365);
    lemma_root_and_more(gain, 32, 0, 16);
    lemma_root_and_more(x1, 6, 16, 51);
    lemma_root_and_more(x2, 3, 51, 78);
    lemma_root_and_more(x3, 2, 78, 79);
    lemma_root_and_more(x4, 2, 79, 80);
    lemma_root_and_more(x5, 2, 80, 81);
    lemma_root_and_more(x6, 2, 81, 82);
    lemma_root_and_more(x7, 2, 82, 83);
    let whole = raised(f, trips);
    lemma_raised_is_positive(f, trips);
    let s1 = x1.raw + 17;
    let s2 = x2.raw + 52;
    let s3 = x3.raw + 79;
    let s4 = x4.raw + 80;
    let s5 = x5.raw + 81;
    let s6 = x6.raw + 82;
    let s7 = x7.raw + 83;
    let s8 = x8.raw + 84;
    let short = f - s8;
    lemma_enough_trips(gain, trips, f - x8.raw);
    lemma_raised_falls(f, short, trips);
    lemma_raised_is_positive(s8, trips);
    assert(raised(s8, trips) * 1_000_000_000 <= whole * 942_498_912) by {
        let p = raised(s8, trips);
        let grown = f + trips * short;
        assert(p * 1_000_000_000 <= whole * 942_498_912) by (nonlinear_arith)
            requires
                p * grown <= whole * f,
                0 <= p,
                0 <= whole,
                4000 * grown >= 4000 * f + 3999 * 262_097_970,
                f == 0x1_0000_0000,
        {
            assert(p * (4000 * f + 3999 * 262_097_970) <= p * (4000 * grown));
            assert(p * (4000 * grown) <= 4000 * (whole * f));
            assert(p * 18_227_998_966_214 <= whole * 17_179_869_184_000);
        }
    }
    lemma_square_down(g + 1, s1, trips);
    lemma_square_down(s1, s2, trips);
    lemma_square_down(s2, s3, trips);
    lemma_square_down(s3, s4, trips);
    lemma_square_down(s4, s5, trips);
    lemma_square_down(s5, s6, trips);
    lemma_square_down(s6, s7, trips);
    lemma_square_down(s7, s8, trips);
    lemma_ratio_squared(raised(s7, trips), raised(s8, trips), whole, 942_498_912, 888_304_200);
    lemma_ratio_squared(raised(s6, trips), raised(s7, trips), whole, 888_304_200, 789_084_352);
    lemma_ratio_squared(raised(s5, trips), raised(s6, trips), whole, 789_084_352, 622_654_115);
    lemma_ratio_squared(raised(s4, trips), raised(s5, trips), whole, 622_654_115, 387_698_147);
    lemma_ratio_squared(raised(s3, trips), raised(s4, trips), whole, 387_698_147, 150_309_854);
    lemma_ratio_squared(raised(s2, trips), raised(s3, trips), whole, 150_309_854, 22_593_053);
    lemma_ratio_squared(raised(s1, trips), raised(s2, trips), whole, 22_593_053, 510_447);
    lemma_ratio_squared(raised(g + 1, trips), raised(s1, trips), whole, 510_447, 261);
    lemma_fallen(level, gain, trips);
    lemma_raised_grows(g, g + 1, trips);
    let left = fallen(level, gain, trips);
    let a = raised(g, trips);
    let b = raised(g + 1, trips);
    assert(3_800_000 * left <= level) by (nonlinear_arith)
        requires
            left * whole <= level * a,
            a <= b,
            b * 1_000_000_000 <= whole * 261,
            0 <= level,
            0 <= left,
            0 < whole,
    {
        assert(level * a <= level * b);
        assert((level * b) * 1_000_000_000 <= level * (whole * 261));
        assert((left * whole) * 1_000_000_000 <= (level * 261) * whole);
        assert(left * 1_000_000_000 <= level * 261) by {
            if left * 1_000_000_000 > level * 261 {
                assert((left * 1_000_000_000) * whole > (level * 261) * whole);
            }
        }
    }
}

proof fn lemma_square_down(low: int, high: int, times: nat)
    requires
        0 <= low,
        0 <= high,
        low * FRACTION <= high * high,
    ensures
        raised(low, times) * raised(FRACTION as int, times) <= raised(high, times) * raised(
            high,
            times,
        ),
        0 <= raised(low, times),
        0 <= raised(high, times),
{
    lemma_raised_roots(low, high, FRACTION as int, times);
    lemma_raised_is_positive(low, times);
    lemma_raised_is_positive(high, times);
}

proof fn lemma_raised_grows(low: int, high: int, times: nat)
    requires
        0 <= low <= high,
    ensures
        raised(low, times) <= raised(high, times),
    decreases times,
{
    if times > 0 {
        let fewer = (times - 1) as nat;
        lemma_raised_grows(low, high, fewer);
        lemma_raised_is_positive(low, fewer);
        let a = raised(low, fewer);
        let b = raised(high, fewer);
        assert(a * low <= b * high) by (nonlinear_arith)
            requires
                0 <= a <= b,
                0 <= low <= high,
        ;
    }
}

/// The trips cover the way down, even with each of them a little short.
proof fn lemma_enough_trips(gain: Fixed, trips: nat, root_gap: int)
    requires
        root_gap == FRACTION - rooted(gain, 8).raw,
        338_931 <= root_gap <= FRACTION,
        trips_of(gain).raw <= trips * FRACTION,
    ensures
        4000 * (FRACTION + trips * (root_gap - 84)) >= 4000 * FRACTION + 3999 * 262_097_970,
{
    let f = FRACTION as int;
    let q = root_gap;
    let k = trips as int;
    lemma_least_logarithm();
    lemma_logarithm(gain);
    let way = ratio_of::<Fixed>(1, 10_000_000).ln_spec();
    let w = -way.raw;
    let d = 256 * q;
    assert(gain.ln_spec().raw == -d);
    let t = w * f / d;
    assert(t * d <= w * f < t * d + d && 0 <= t && 0 <= w * f) by (nonlinear_arith)
        requires
            t == w * f / d,
            0 <= w,
            0 < d,
            f == 0x1_0000_0000,
    ;
    assert((-w) * f == -(w * f)) by (nonlinear_arith);
    assert(trips_of(gain).raw == t || t > i64::MAX) by {
        assert(way.over(gain.ln_spec()) == saturated(
            quotient(way.raw * f, gain.ln_spec().raw as int),
        ));
        assert(0int / d == 0) by (nonlinear_arith)
            requires
                0 < d,
        ;
    }
    assert(t <= i64::MAX) by (nonlinear_arith)
        requires
            t * d <= w * f,
            0 <= w <= 256 * f,
            256 * 338_931 <= d,
            f == 0x1_0000_0000,
    ;
    assert(k * q >= 262_097_970) by (nonlinear_arith)
        requires
            t <= k * f,
            w * f < t * d + d,
            d == 256 * q,
            w >= 256 * (f - 4_032_869_325),
            0 < q <= f,
            0 <= k,
            f == 0x1_0000_0000,
    {
        assert(t * d <= (k * f) * d);
        assert(w * f < (k * f) * d + d);
        assert((k * f) * d == (256 * (k * q)) * f);
        assert(d <= 256 * f);
        assert(w * f < (256 * (k * q) + 256) * f);
        assert(w < 256 * (k * q) + 256);
    }
    assert(4000 * (k * (q - 84)) >= 3999 * (k * q)) by (nonlinear_arith)
        requires
            336_000 <= q,
            0 <= k,
    ;
}

/// A tail lasts for as many trips as it counts, and one more.
pub proof fn a_tail_covers_its_trips(gain: Fixed, trip: Fixed, frames: int, trips: nat)
    requires
        FRACTION <= 1001 * gain.raw,
        gain.raw < FRACTION,
        0 <= frames,
        frames * FRACTION <= trip.raw,
        0 <= trips_of(gain).raw < 0x1000_0000_0000,
        (trips - 1) * FRACTION < trips_of(gain).raw,
        trips * frames <= 0x7fff_ffff,
    ensures
        trips * frames <= feedback_tail_of(gain, trip),
{
    let f = FRACTION as int;
    let t = trips_of(gain).raw as int;
    let k = trips as int;
    assert(ratio_of::<Fixed>(1, 1_000_000).raw == 4294) by {
        assert((1 * f) * f == 0x1_0000_0000_0000_0000) by (nonlinear_arith)
            requires
                f == 0x1_0000_0000,
        ;
        assert(0x1_0000_0000_0000_0000int / (1_000_000int * 0x1_0000_0000) == 4294);
    }
    let more = trips_of(gain).plus(Fixed::of_spec(1));
    assert(more.raw == t + f);
    let product = trip.raw * (t + f) / f;
    assert(k * frames * f <= product && 0 <= trip.raw * (t + f)) by (nonlinear_arith)
        requires
            product == trip.raw * (t + f) / f,
            frames * f <= trip.raw,
            (k - 1) * f < t,
            0 <= frames,
            0 <= k,
            0 <= t,
            f == 0x1_0000_0000,
    {
        assert((frames * f) * (t + f) <= trip.raw * (t + f));
        assert(k * f <= t + f);
        assert(frames * (k * f) <= frames * (t + f));
        assert((k * frames * f) * f == (frames * (k * f)) * f);
        assert((k * frames * f) * f <= trip.raw * (t + f));
    }
    let span = trip.times(more);
    assert(k * frames * f <= span.raw) by {
        assert(k * frames * f <= 0x7fff_ffff * f) by (nonlinear_arith)
            requires
                k * frames <= 0x7fff_ffff,
                f == 0x1_0000_0000,
        ;
    }
    let up = span.ceil_spec();
    let n = k * frames;
    assert(0 <= n) by (nonlinear_arith)
        requires
            n == k * frames,
            0 <= k,
            0 <= frames,
    ;
    assert(n * f <= up.raw);
    assert(n <= up.raw as int / f) by (nonlinear_arith)
        requires
            n * f <= up.raw,
            f == 0x1_0000_0000,
    ;
}

} // verus!
