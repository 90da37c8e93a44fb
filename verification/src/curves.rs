//! The curved functions: roots, exponentials, logarithms and the circle.
//!
//! [`Curves`] names them the way [`Sample`] names arithmetic. A format answers
//! them as well as it can; what the rest of the crate relies on is only that
//! one argument has one answer. [`Fixed`] answers with short limits and
//! parabolas, each of which is stated here.

use vstd::prelude::*;

use crate::num::{
    a_quotient_keeps_its_sign, gains_multiply_to_gains, is_gain, magnitude, max, max_of,
    nothing_times, one_times, products_commute, products_stay_within, quotients_keep_order,
    quotients_stay_within, ratio, ratio_of, squares_are_not_negative, within, Fixed, Sample,
    FRACTION,
};

verus! {

/// A number with the functions a filter's design and an envelope's curve need.
/// As with [`Sample`], a format that keeps the bodies given here is outside
/// what is instantiated.
pub trait Curves: Sample {
    /// Half a turn in radians, as near as the format comes.
    closed spec fn pi_spec() -> Self {
        arbitrary()
    }

    closed spec fn sqrt_spec(self) -> Self {
        arbitrary()
    }

    closed spec fn sin_spec(self) -> Self {
        arbitrary()
    }

    closed spec fn cos_spec(self) -> Self {
        arbitrary()
    }

    closed spec fn tan_spec(self) -> Self {
        arbitrary()
    }

    closed spec fn tanh_spec(self) -> Self {
        arbitrary()
    }

    closed spec fn exp_spec(self) -> Self {
        arbitrary()
    }

    closed spec fn exp2_spec(self) -> Self {
        arbitrary()
    }

    closed spec fn ln_spec(self) -> Self {
        arbitrary()
    }

    closed spec fn log2_spec(self) -> Self {
        arbitrary()
    }

    closed spec fn log10_spec(self) -> Self {
        arbitrary()
    }

    /// This number raised to the power `exponent`.
    closed spec fn powf_spec(self, exponent: Self) -> Self {
        arbitrary()
    }

    fn pi() -> (value: Self)
        ensures
            value == Self::pi_spec(),
    ;

    fn sqrt(self) -> (value: Self)
        ensures
            value == self.sqrt_spec(),
    ;

    fn sin(self) -> (value: Self)
        ensures
            value == self.sin_spec(),
    ;

    fn cos(self) -> (value: Self)
        ensures
            value == self.cos_spec(),
    ;

    fn tan(self) -> (value: Self)
        ensures
            value == self.tan_spec(),
    ;

    fn tanh(self) -> (value: Self)
        ensures
            value == self.tanh_spec(),
    ;

    fn exp(self) -> (value: Self)
        ensures
            value == self.exp_spec(),
    ;

    fn exp2(self) -> (value: Self)
        ensures
            value == self.exp2_spec(),
    ;

    fn ln(self) -> (value: Self)
        ensures
            value == self.ln_spec(),
    ;

    fn log2(self) -> (value: Self)
        ensures
            value == self.log2_spec(),
    ;

    fn log10(self) -> (value: Self)
        ensures
            value == self.log10_spec(),
    ;

    fn powf(self, exponent: Self) -> (value: Self)
        ensures
            value == self.powf_spec(exponent),
    ;
}

/// Half a turn in radians.
pub open spec fn pi_of<S: Curves>() -> S {
    S::pi_spec()
}

/// A whole turn in radians.
pub open spec fn tau_of<S: Curves>() -> S {
    S::of_spec(2).times(S::pi_spec())
}

pub fn pi<S: Curves>() -> (value: S)
    ensures
        value == pi_of::<S>(),
{
    S::pi()
}

pub fn tau<S: Curves>() -> (value: S)
    ensures
        value == tau_of::<S>(),
{
    S::of(2).mul(S::pi())
}

/// The greatest whole number whose square is at most `square`.
pub open spec fn is_root(root: int, square: int) -> bool {
    root >= 0 && root * root <= square < (root + 1) * (root + 1)
}

/// Whether `root` is the greatest value whose square is at most `x`.
pub open spec fn is_square_root(x: Fixed, root: Fixed) -> bool {
    is_root(root.raw as int, x.raw * FRACTION)
}

proof fn lemma_root_is_unique(a: int, b: int, square: int)
    requires
        is_root(a, square),
        is_root(b, square),
    ensures
        a == b,
{
    if a < b {
        assert((a + 1) * (a + 1) <= b * b) by (nonlinear_arith)
            requires
                0 <= a + 1 <= b,
        ;
    }
    if b < a {
        assert((b + 1) * (b + 1) <= a * a) by (nonlinear_arith)
            requires
                0 <= b + 1 <= a,
        ;
    }
}

/// The whole root of a number below `2^96`, found by halving an interval.
fn whole_root(square: u128) -> (root: u128)
    requires
        square < 0x1_0000_0000_0000_0000_0000_0000,
    ensures
        is_root(root as int, square as int),
        root < 0x1_0000_0000_0000,
{
    let mut low: u128 = 0;
    let mut high: u128 = 0x1_0000_0000_0000;
    while high - low > 1
        invariant
            low < high <= 0x1_0000_0000_0000,
            low * low <= square < high * high,
        decreases high - low,
    {
        let middle: u128 = low + (high - low) / 2;
        assert(middle * middle <= 0x1_0000_0000_0000 * 0x1_0000_0000_0000) by (nonlinear_arith)
            requires
                middle <= 0x1_0000_0000_0000,
        ;
        if middle * middle <= square {
            low = middle;
        } else {
            high = middle;
        }
    }
    assert(high == low + 1);
    low
}

/// `x` multiplied by itself `times` times over.
pub open spec fn squared(x: Fixed, times: nat) -> Fixed
    decreases times,
{
    if times == 0 {
        x
    } else {
        squared(x.times(x), (times - 1) as nat)
    }
}

/// The square root of `x` taken `times` times over.
pub open spec fn rooted(x: Fixed, times: nat) -> Fixed
    decreases times,
{
    if times == 0 {
        x
    } else {
        rooted(x.sqrt_spec(), (times - 1) as nat)
    }
}

/// `ln 2`, as a fraction of `2^24`.
pub open spec fn ln_two() -> Fixed {
    ratio_of(11_629_080, 16_777_216)
}

/// `ln 10`, as a fraction of `2^22`.
pub open spec fn ln_ten() -> Fixed {
    ratio_of(9_657_742, 4_194_304)
}

/// A whole turn in radians, in counts of [`Fixed`].
pub const TURN: i64 = 26_986_076_160;

/// Half a turn in radians, in counts of [`Fixed`].
pub const HALF_TURN: i64 = 13_493_038_080;

/// The angle `x` brought into one turn around zero.
pub open spec fn wrapped(x: Fixed) -> Fixed {
    Fixed { raw: ((x.raw + HALF_TURN) % (TURN as int) - HALF_TURN) as i64 }
}

fn wrap(x: Fixed) -> (angle: Fixed)
    ensures
        angle == wrapped(x),
{
    let turns: i128 = TURN as i128 * 400_000_000;
    let lifted: u128 = (x.raw as i128 + HALF_TURN as i128 + turns) as u128;
    proof {
        vstd::arithmetic::div_mod::lemma_mod_multiples_vanish(
            400_000_000,
            x.raw + HALF_TURN,
            TURN as int,
        );
    }
    Fixed { raw: ((lifted % TURN as u128) as i128 - HALF_TURN as i128) as i64 }
}

impl Curves for Fixed {
    open spec fn pi_spec() -> Self {
        Fixed { raw: HALF_TURN }
    }

    /// The nearest root from below, and zero for a negative number.
    open spec fn sqrt_spec(self) -> Self {
        if self.raw <= 0 {
            Fixed { raw: 0 }
        } else {
            choose|root: Fixed| is_square_root(self, root)
        }
    }

    /// A parabola over each half turn.
    open spec fn sin_spec(self) -> Self {
        let x = wrapped(self);
        let four = Fixed::of_spec(4);
        let pi = Fixed { raw: HALF_TURN };
        four.times(x).over(pi).minus(four.times(x).over(pi).times(x.abs_spec()).over(pi))
    }

    open spec fn cos_spec(self) -> Self {
        self.plus(Fixed { raw: HALF_TURN }.over(Fixed::of_spec(2))).sin_spec()
    }

    open spec fn tan_spec(self) -> Self {
        self.sin_spec().over(self.cos_spec())
    }

    open spec fn tanh_spec(self) -> Self {
        let e = self.plus(self).exp_spec();
        e.minus(Fixed::of_spec(1)).over(e.plus(Fixed::of_spec(1)))
    }

    /// `(1 + x / 256)` to the power 256, and zero where that base is negative.
    open spec fn exp_spec(self) -> Self {
        squared(
            max_of(
                Fixed::of_spec(0),
                Fixed::of_spec(1).plus(self.over(Fixed::of_spec(256))),
            ),
            8,
        )
    }

    open spec fn exp2_spec(self) -> Self {
        self.times(ln_two()).exp_spec()
    }

    /// The inverse of the exponential's limit: `256 (x^(1/256) - 1)`.
    open spec fn ln_spec(self) -> Self {
        Fixed::of_spec(256).times(rooted(self, 8).minus(Fixed::of_spec(1)))
    }

    open spec fn log2_spec(self) -> Self {
        self.ln_spec().over(ln_two())
    }

    open spec fn log10_spec(self) -> Self {
        self.ln_spec().over(ln_ten())
    }

    open spec fn powf_spec(self, exponent: Self) -> Self {
        exponent.times(self.ln_spec()).exp_spec()
    }

    fn pi() -> (value: Self) {
        Fixed { raw: HALF_TURN }
    }

    fn sqrt(self) -> (value: Self) {
        if self.raw <= 0 {
            return Fixed { raw: 0 };
        }
        let root: u128 = whole_root(self.raw as u128 * 0x1_0000_0000);
        let value = Fixed { raw: root as i64 };
        proof {
            assert(is_square_root(self, value));
            lemma_root_is_unique(
                value.raw as int,
                self.sqrt_spec().raw as int,
                self.raw * FRACTION,
            );
        }
        value
    }

    fn sin(self) -> (value: Self) {
        let x = wrap(self);
        let four = Fixed::of(4);
        let pi = Fixed { raw: HALF_TURN };
        let ramp = four.mul(x).div(pi);
        ramp.sub(ramp.mul(x.abs()).div(pi))
    }

    fn cos(self) -> (value: Self) {
        self.add(Fixed { raw: HALF_TURN }.div(Fixed::of(2))).sin()
    }

    fn tan(self) -> (value: Self) {
        self.sin().div(self.cos())
    }

    fn tanh(self) -> (value: Self) {
        let e = self.add(self).exp();
        e.sub(Fixed::of(1)).div(e.add(Fixed::of(1)))
    }

    fn exp(self) -> (value: Self) {
        let mut power = max(Fixed::of(0), Fixed::of(1).add(self.div(Fixed::of(256))));
        let ghost base = power;
        let mut left: usize = 8;
        while left > 0
            invariant
                left <= 8,
                squared(power, left as nat) == squared(base, 8),
            decreases left,
        {
            power = power.mul(power);
            left = left - 1;
        }
        power
    }

    fn exp2(self) -> (value: Self) {
        self.mul(ratio(11_629_080, 16_777_216)).exp()
    }

    fn ln(self) -> (value: Self) {
        let mut root = self;
        let mut left: usize = 8;
        while left > 0
            invariant
                left <= 8,
                rooted(root, left as nat) == rooted(self, 8),
            decreases left,
        {
            root = root.sqrt();
            left = left - 1;
        }
        Fixed::of(256).mul(root.sub(Fixed::of(1)))
    }

    fn log2(self) -> (value: Self) {
        self.ln().div(ratio(11_629_080, 16_777_216))
    }

    fn log10(self) -> (value: Self) {
        self.ln().div(ratio(9_657_742, 4_194_304))
    }

    fn powf(self, exponent: Self) -> (value: Self) {
        exponent.mul(self.ln()).exp()
    }
}

/// The exponential is never negative.
pub proof fn exponentials_are_not_negative(x: Fixed)
    ensures
        x.exp_spec().raw >= 0,
{
    let base = max_of(
        Fixed::of_spec(0),
        Fixed::of_spec(1).plus(x.over(Fixed::of_spec(256))),
    );
    lemma_squared_is_not_negative(base, 8);
}

proof fn lemma_squared_is_not_negative(x: Fixed, times: nat)
    requires
        x.raw >= 0 || times > 0,
    ensures
        squared(x, times).raw >= 0,
    decreases times,
{
    if times > 0 {
        squares_are_not_negative(x);
        lemma_squared_is_not_negative(x.times(x), (times - 1) as nat);
    }
}

/// The exponential of what is not positive is a gain.
pub proof fn decaying_exponentials_are_gains(x: Fixed)
    requires
        x.raw <= 0,
    ensures
        is_gain(x.exp_spec()),
{
    let base = max_of(
        Fixed::of_spec(0),
        Fixed::of_spec(1).plus(x.over(Fixed::of_spec(256))),
    );
    a_quotient_keeps_its_sign(x, Fixed::of_spec(256));
    assert(is_gain(base));
    lemma_squared_gain_is_a_gain(base, 8);
}

proof fn lemma_squared_gain_is_a_gain(x: Fixed, times: nat)
    requires
        is_gain(x),
    ensures
        is_gain(squared(x, times)),
    decreases times,
{
    if times > 0 {
        gains_multiply_to_gains(x, x);
        lemma_squared_gain_is_a_gain(x.times(x), (times - 1) as nat);
    }
}

proof fn lemma_root_exists(square: int) -> (root: int)
    requires
        square >= 0,
    ensures
        is_root(root, square),
    decreases square,
{
    if square == 0 {
        0
    } else {
        let before = lemma_root_exists(square - 1);
        if (before + 1) * (before + 1) <= square {
            let root = before + 1;
            assert((root + 1) * (root + 1) > root * root) by (nonlinear_arith)
                requires
                    root >= 0,
            ;
            assert(root * root == square);
            root
        } else {
            before
        }
    }
}

/// The square root of a positive number is its greatest root from below.
pub proof fn a_root_is_a_root(x: Fixed)
    requires
        x.raw > 0,
    ensures
        is_square_root(x, x.sqrt_spec()),
{
    let root = lemma_root_exists(x.raw * FRACTION);
    assert(root < 0x1_0000_0000_0000) by (nonlinear_arith)
        requires
            root >= 0,
            root * root <= x.raw * FRACTION,
            x.raw < 0x8000_0000_0000_0000,
            FRACTION == 0x1_0000_0000,
    ;
    assert(is_square_root(x, Fixed { raw: root as i64 }));
}

/// The hyperbolic tangent lies between minus one and one.
pub proof fn tanh_is_bounded(x: Fixed)
    ensures
        within(x.tanh_spec(), FRACTION as int),
{
    let e = x.plus(x).exp_spec();
    exponentials_are_not_negative(x.plus(x));
    let over = e.minus(Fixed::of_spec(1));
    let under = e.plus(Fixed::of_spec(1));
    assert(magnitude(over.raw as int) <= under.raw);
    assert(magnitude(over.raw as int) * FRACTION <= FRACTION * under.raw) by (nonlinear_arith)
        requires
            0 <= magnitude(over.raw as int) <= under.raw,
            FRACTION == 0x1_0000_0000,
    ;
    quotients_stay_within(over, under, FRACTION as int);
}

/// The parabolas of the sine stay within eight of nothing.
pub proof fn sine_is_bounded(x: Fixed)
    ensures
        within(x.sin_spec(), 8 * FRACTION),
{
    let angle = wrapped(x);
    let four = Fixed::of_spec(4);
    let pi = Fixed { raw: HALF_TURN };
    let half = HALF_TURN as int;
    let f = FRACTION as int;
    assert(within(angle, half));
    products_stay_within(four, angle, 4 * f, half, 4 * half);
    quotients_stay_within(four.times(angle), pi, 4 * f);
    let ramp = four.times(angle).over(pi);
    products_stay_within(ramp, angle.abs_spec(), 4 * f, half, 4 * half);
    quotients_stay_within(ramp.times(angle.abs_spec()), pi, 4 * f);
}

proof fn lemma_square_between(x: Fixed, bound: int, above: int)
    requires
        FRACTION <= x.raw <= bound,
        bound * bound <= above * FRACTION,
        above <= i64::MAX,
    ensures
        FRACTION <= x.times(x).raw <= above,
{
    let f = FRACTION as int;
    let r = x.raw as int;
    assert(f * f <= r * r <= bound * bound) by (nonlinear_arith)
        requires
            f <= r <= bound,
            0 <= f,
    ;
    assert(f <= r * r / f <= above) by (nonlinear_arith)
        requires
            f * f <= r * r <= above * f,
            f == 0x1_0000_0000,
    ;
}

/// The exponential of what lies between nothing and `ln 10000` lies between one
/// and ten thousand.
pub proof fn exponentials_over_a_decay_stay_between(x: Fixed)
    requires
        0 <= x.raw <= 39_558_107_136,
    ensures
        FRACTION <= x.exp_spec().raw <= 10_000 * FRACTION,
{
    let part = x.over(Fixed::of_spec(256));
    let f = FRACTION as int;
    assert(0 <= x.raw * f / (256 * f) <= 154_523_856 && 0 <= x.raw * f) by (nonlinear_arith)
        requires
            0 <= x.raw <= 39_558_107_136,
            f == 0x1_0000_0000,
    ;
    let x0 = max_of(Fixed::of_spec(0), Fixed::of_spec(1).plus(part));
    let x1 = x0.times(x0);
    let x2 = x1.times(x1);
    let x3 = x2.times(x2);
    let x4 = x3.times(x3);
    let x5 = x4.times(x4);
    let x6 = x5.times(x5);
    let x7 = x6.times(x6);
    lemma_square_between(x0, 4_449_491_154, 4_609_574_455);
    lemma_square_between(x1, 4_609_574_455, 4_947_226_648);
    lemma_square_between(x2, 4_947_226_648, 5_698_541_996);
    lemma_square_between(x3, 5_698_541_996, 7_560_798_172);
    lemma_square_between(x4, 7_560_798_172, 13_309_919_508);
    lemma_square_between(x5, 13_309_919_508, 41_246_869_907);
    lemma_square_between(x6, 41_246_869_907, 396_115_769_895);
    lemma_square_between(x7, 396_115_769_895, 36_532_921_520_879);
    reveal_with_fuel(squared, 9);
}

/// The exponential of nothing is one.
pub proof fn the_exponential_of_nothing_is_one()
    ensures
        Fixed::of_spec(0).exp_spec() == Fixed::of_spec(1),
{
    let one = Fixed::of_spec(1);
    one_times(one);
    assert(Fixed::of_spec(0).over(Fixed::of_spec(256)) == Fixed::of_spec(0)) by {
        assert(0int / (256int * 0x1_0000_0000) == 0);
    }
    reveal_with_fuel(squared, 9);
}

/// The logarithm of one is nothing.
pub proof fn the_logarithm_of_one_is_nothing()
    ensures
        Fixed::of_spec(1).ln_spec() == Fixed::of_spec(0),
{
    let one = Fixed::of_spec(1);
    let f = FRACTION as int;
    a_root_is_a_root(one);
    assert(is_root(f, f * f)) by (nonlinear_arith)
        requires
            f == 0x1_0000_0000,
    ;
    lemma_root_is_unique(f, one.sqrt_spec().raw as int, f * f);
    assert(one.sqrt_spec() == one);
    reveal_with_fuel(rooted, 9);
    nothing_times(Fixed::of_spec(256));
    products_commute(Fixed::of_spec(256), Fixed::of_spec(0));
}

/// The hyperbolic tangent of nothing is nothing.
pub proof fn tanh_of_nothing_is_nothing()
    ensures
        Fixed::of_spec(0).tanh_spec() == Fixed::of_spec(0),
{
    the_exponential_of_nothing_is_one();
    assert(0int / 0x2_0000_0000 == 0);
}

/// The logarithm of 256 is positive.
pub proof fn the_logarithm_of_256_is_positive()
    ensures
        Fixed::of_spec(256).ln_spec().raw > 0,
{
    let f = FRACTION as int;
    let x0 = Fixed::of_spec(256);
    let x1 = x0.sqrt_spec();
    let x2 = x1.sqrt_spec();
    let x3 = x2.sqrt_spec();
    let x4 = x3.sqrt_spec();
    let x5 = x4.sqrt_spec();
    let x6 = x5.sqrt_spec();
    let x7 = x6.sqrt_spec();
    let x8 = x7.sqrt_spec();
    lemma_root_step(x0, 32_768, 2_048);
    lemma_root_step(x1, 2_048, 512);
    lemma_root_step(x2, 512, 256);
    lemma_root_step(x3, 256, 181);
    lemma_root_step(x4, 181, 152);
    lemma_root_step(x5, 152, 139);
    lemma_root_step(x6, 139, 133);
    lemma_root_step(x7, 133, 130);
    assert(rooted(x0, 8) == x8) by {
        reveal_with_fuel(rooted, 9);
    }
    let rise = x8.minus(Fixed::of_spec(1));
    let raised = rise.raw as int;
    assert(raised > 0);
    assert((256 * f) * raised / f == 256 * raised && (256 * f) * raised >= 0) by (nonlinear_arith)
        requires
            f == 0x1_0000_0000,
            raised > 0,
    ;
}

/// The root of a number counted in parts of `1 / 128`, from below.
proof fn lemma_root_step(x: Fixed, parts: int, least: int)
    requires
        parts * 0x200_0000 <= x.raw,
        0 < parts,
        0 < least,
        least * least <= 128 * parts,
    ensures
        least * 0x200_0000 <= x.sqrt_spec().raw,
{
    a_root_is_a_root(x);
    let root = x.sqrt_spec().raw as int;
    let raw = x.raw as int;
    let f = FRACTION as int;
    if root < least * 0x200_0000 {
        assert((root + 1) * (root + 1) <= raw * f) by (nonlinear_arith)
            requires
                0 <= root < least * 0x200_0000,
                least * least <= 128 * parts,
                parts * 0x200_0000 <= raw,
                f == 0x1_0000_0000,
        {
            let bound = least * 0x200_0000;
            assert((root + 1) * (root + 1) <= bound * bound);
            assert(bound * bound == (least * least) * 0x4_0000_0000_0000);
            assert((least * least) * 0x4_0000_0000_0000 <= (128 * parts) * 0x4_0000_0000_0000);
            assert((128 * parts) * 0x4_0000_0000_0000 == (parts * 0x200_0000) * f);
        }
    }
}

/// Whether a number lies near another: within `parts` counts for every one of
/// the other's whole.
pub open spec fn is_near(value: Fixed, other: Fixed, parts: int) -> bool {
    &&& 0 <= value.raw
    &&& FRACTION * magnitude(value.raw - other.raw) <= parts * other.raw
}

proof fn lemma_square_above(p: int, r: int, s: int, a: int)
    requires
        0 <= r,
        0 <= s,
        0 <= p,
        0 <= a <= 4096,
        r * r <= p * FRACTION,
        FRACTION * (s - r) <= a * r,
    ensures
        FRACTION * (s * s / (FRACTION as int) - p) <= (2 * a + 1) * p,
{
    let f = FRACTION as int;
    let t = s * s / f;
    assert(t * f <= s * s) by (nonlinear_arith)
        requires
            t == s * s / f,
            f == 0x1_0000_0000,
    ;
    assert(f * s <= (f + a) * r) by (nonlinear_arith)
        requires
            f * (s - r) <= a * r,
    ;
    assert((f * s) * (f * s) <= ((f + a) * r) * ((f + a) * r)) by (nonlinear_arith)
        requires
            0 <= f * s <= (f + a) * r,
    ;
    let g = (f + a) * (f + a);
    assert(((f + a) * r) * ((f + a) * r) == g * (r * r)) by (nonlinear_arith)
        requires
            g == (f + a) * (f + a),
    ;
    assert(g * (r * r) <= g * (p * f)) by (nonlinear_arith)
        requires
            r * r <= p * f,
            0 <= g,
    ;
    assert((f * s) * (f * s) == (f * f) * (s * s)) by (nonlinear_arith);
    assert((f * f) * (t * f) <= (f * f) * (s * s)) by (nonlinear_arith)
        requires
            t * f <= s * s,
    ;
    assert((f * f) * t <= g * p) by (nonlinear_arith)
        requires
            (f * f) * (t * f) <= g * (p * f),
            f == 0x1_0000_0000,
    ;
    assert(g <= f * f + (2 * a + 1) * f) by (nonlinear_arith)
        requires
            g == (f + a) * (f + a),
            0 <= a <= 4096,
            f == 0x1_0000_0000,
    ;
    assert(g * p <= (f * f + (2 * a + 1) * f) * p) by (nonlinear_arith)
        requires
            g <= f * f + (2 * a + 1) * f,
            0 <= p,
    ;
    assert(f * (t - p) <= (2 * a + 1) * p) by (nonlinear_arith)
        requires
            (f * f) * t <= (f * f + (2 * a + 1) * f) * p,
            f == 0x1_0000_0000,
    ;
}

proof fn lemma_square_below(p: int, r: int, s: int, a: int, m: int, c: int)
    requires
        0 <= r,
        0 <= s,
        0 < p,
        0 <= a <= 4096,
        0 < m,
        0 < c <= m * m,
        FRACTION <= c * p,
        r * r <= p * FRACTION < (r + 1) * (r + 1),
        FRACTION * (r - s) <= a * r,
    ensures
        FRACTION * (p - s * s / (FRACTION as int)) <= (2 * a + 2 * m + c) * p,
{
    let f = FRACTION as int;
    let t = s * s / f;
    assert(s * s < t * f + f) by (nonlinear_arith)
        requires
            t == s * s / f,
            f == 0x1_0000_0000,
    ;
    let k = f - a;
    assert(k * r <= f * s) by (nonlinear_arith)
        requires
            f * (r - s) <= a * r,
            k == f - a,
    ;
    assert((k * r) * (k * r) <= (f * s) * (f * s)) by (nonlinear_arith)
        requires
            0 <= k,
            0 <= r,
            k * r <= f * s,
    ;
    assert((k * r) * (k * r) == (k * k) * (r * r)) by (nonlinear_arith);
    assert((f * s) * (f * s) == (f * f) * (s * s)) by (nonlinear_arith);
    let h = f - 2 * a;
    assert((f * h) * (r * r) <= (k * k) * (r * r)) by (nonlinear_arith)
        requires
            k == f - a,
            h == f - 2 * a,
    ;
    assert(h * (r * r) <= f * (s * s)) by (nonlinear_arith)
        requires
            (f * h) * (r * r) <= (f * f) * (s * s),
            f == 0x1_0000_0000,
    ;
    assert(r * r >= p * f - 2 * r) by (nonlinear_arith)
        requires
            p * f < (r + 1) * (r + 1),
    ;
    assert(h * (p * f - 2 * r) <= h * (r * r)) by (nonlinear_arith)
        requires
            r * r >= p * f - 2 * r,
            0 <= h,
    ;
    assert(h * (p * f - 2 * r) >= f * (f * p) - f * ((2 * a) * p) - f * (2 * r)) by (nonlinear_arith)
        requires
            h == f - 2 * a,
            0 <= a,
            0 <= r,
    ;
    assert(f * (s * s) <= f * (t * f + f)) by (nonlinear_arith)
        requires
            s * s < t * f + f,
            f == 0x1_0000_0000,
    ;
    assert(f * p - (2 * a) * p - 2 * r <= t * f + f) by (nonlinear_arith)
        requires
            f * (f * p) - f * ((2 * a) * p) - f * (2 * r) <= f * (t * f + f),
            f == 0x1_0000_0000,
    ;
    assert(r <= m * p) by (nonlinear_arith)
        requires
            0 <= r,
            0 < m,
            0 < p,
            r * r <= p * f,
            f <= c * p,
            c <= m * m,
    {
        assert(p * f <= p * (c * p));
        assert(p * (c * p) <= (m * p) * (m * p));
        if r > m * p {
            assert(r * r > (m * p) * (m * p));
        }
    }
    assert(f * (p - t) <= (2 * a + 2 * m + c) * p) by (nonlinear_arith)
        requires
            f * p - (2 * a) * p - 2 * r <= t * f + f,
            r <= m * p,
            f <= c * p,
    ;
}

/// Squaring what is near a root comes near the number.
proof fn lemma_square_back(x: Fixed, s: Fixed, a: int, m: int, c: int)
    requires
        0 < x.raw <= 0x1000_0000_0000_0000,
        is_near(s, x.sqrt_spec(), a),
        0 <= a <= 4096,
        0 < m <= 4096,
        0 < c <= m * m,
        c <= 4096,
        FRACTION <= c * x.raw,
    ensures
        is_near(s.times(s), x, 2 * a + 2 * m + c),
{
    a_root_is_a_root(x);
    let f = FRACTION as int;
    let p = x.raw as int;
    let r = x.sqrt_spec().raw as int;
    let v = s.raw as int;
    let t = v * v / f;
    let parts = 2 * a + 2 * m + c;
    lemma_square_above(p, r, v, a);
    lemma_square_below(p, r, v, a, m, c);
    assert((2 * a + 1) * p <= parts * p) by (nonlinear_arith)
        requires
            0 <= p,
            2 * a + 1 <= parts,
    ;
    assert(t <= 2 * p) by (nonlinear_arith)
        requires
            f * (t - p) <= parts * p,
            parts <= 32768,
            0 < p,
            f == 0x1_0000_0000,
    ;
    assert(0 <= v * v && 0 <= t) by (nonlinear_arith)
        requires
            t == v * v / f,
            f == 0x1_0000_0000,
    ;
    assert(s.times(s).raw == t);
}

/// A root is at least the lesser share of the whole.
pub(crate) proof fn lemma_root_share(x: Fixed, c: int, m: int)
    requires
        0 < x.raw,
        0 < c <= 4096,
        0 < m <= 4096,
        FRACTION <= c * x.raw,
        c * ((FRACTION + m) * (FRACTION + m)) <= (m * m) * (FRACTION * FRACTION),
    ensures
        FRACTION <= m * x.sqrt_spec().raw,
{
    a_root_is_a_root(x);
    let f = FRACTION as int;
    let p = x.raw as int;
    let r = x.sqrt_spec().raw as int;
    if m * r < f {
        let w = (r + 1) * (r + 1);
        assert(f * f < c * w) by (nonlinear_arith)
            requires
                f <= c * p,
                p * f < w,
                0 < c,
                f == 0x1_0000_0000,
        {
            assert(f * f <= (c * p) * f);
            assert((c * p) * f == c * (p * f));
        }
        assert((m * m) * w <= (f + m) * (f + m)) by (nonlinear_arith)
            requires
                w == (r + 1) * (r + 1),
                0 <= r,
                0 < m,
                m * r < f,
        {
            assert(0 <= m * (r + 1) <= f + m);
            assert((m * (r + 1)) * (m * (r + 1)) == (m * m) * w);
        }
        assert(c * ((m * m) * w) <= c * ((f + m) * (f + m))) by (nonlinear_arith)
            requires
                (m * m) * w <= (f + m) * (f + m),
                0 < c,
        ;
        assert((m * m) * (f * f) < (m * m) * (c * w)) by (nonlinear_arith)
            requires
                f * f < c * w,
                0 < m,
        ;
        assert((m * m) * (c * w) == c * ((m * m) * w)) by (nonlinear_arith);
    }
}

/// A logarithm is the root's distance from one, multiplied out.
pub(crate) proof fn lemma_logarithm(x: Fixed)
    requires
        0 <= rooted(x, 8).raw <= 2 * FRACTION,
    ensures
        x.ln_spec().raw == 256 * (rooted(x, 8).raw - FRACTION),
{
    let f = FRACTION as int;
    let rise = rooted(x, 8).minus(Fixed::of_spec(1));
    let d = magnitude(rise.raw as int);
    assert((256 * f) * d / f == 256 * d && (256 * f) * d >= 0) by (nonlinear_arith)
        requires
            f == 0x1_0000_0000,
            0 <= d,
    ;
    if rise.raw < 0 {
        let raw = rise.raw as int;
        assert((256 * f) * raw == -((256 * f) * d)) by (nonlinear_arith)
            requires
                d == -raw,
        ;
    }
}

/// A logarithm to the base of two, taken back to the natural one and shared out
/// over the exponential's factors, is a count short of the root at the most.
proof fn lemma_log_and_back(x: Fixed)
    requires
        0 < x.raw,
        FRACTION <= 2 * rooted(x, 8).raw <= 4 * FRACTION,
    ensures
        ({
            let base = Fixed::of_spec(1).plus(
                x.log2_spec().times(ln_two()).over(Fixed::of_spec(256)),
            );
            -1 <= base.raw - rooted(x, 8).raw <= 1
        }),
{
    let f = FRACTION as int;
    let l = ln_two().raw as int;
    assert(l == 2_977_044_480) by {
        assert((11_629_080 * f) * f == 11_629_080 * 0x1_0000_0000_0000_0000) by (nonlinear_arith)
            requires
                f == 0x1_0000_0000,
        ;
        assert((11_629_080int * 0x1_0000_0000_0000_0000) / (16_777_216int * 0x1_0000_0000)
            == 2_977_044_480);
    }
    let rise = rooted(x, 8).minus(Fixed::of_spec(1));
    let d = magnitude(rise.raw as int);
    lemma_logarithm(x);
    let ln = x.ln_spec();
    let n = 256 * d;
    assert(ln.raw == if rise.raw < 0 { -n } else { n });
    let q = n * f / l;
    assert(q * l <= n * f < q * l + l && 0 <= q && 0 <= n * f) by (nonlinear_arith)
        requires
            q == n * f / l,
            0 <= n,
            l == 2_977_044_480,
            f == 0x1_0000_0000,
    ;
    assert(q <= 2 * n) by (nonlinear_arith)
        requires
            q * l <= n * f,
            0 <= n,
            l == 2_977_044_480,
            f == 0x1_0000_0000,
    ;
    let log = x.log2_spec();
    assert(log.raw == if rise.raw < 0 { -q } else { q }) by {
        if rise.raw < 0 {
            assert((-n) * f == -(n * f)) by (nonlinear_arith);
        }
        assert(0int / l == 0);
    }
    let m = q * l / f;
    assert(n - 1 <= m <= n && 0 <= q * l) by (nonlinear_arith)
        requires
            m == q * l / f,
            q * l <= n * f < q * l + l,
            0 <= q,
            l == 2_977_044_480,
            f == 0x1_0000_0000,
    ;
    let natural = log.times(ln_two());
    assert(0int / f == 0);
    assert(natural.raw == if rise.raw < 0 { -m } else { m }) by {
        if rise.raw < 0 {
            assert((-q) * l == -(q * l)) by (nonlinear_arith);
        }
    }
    assert(0 <= m) by (nonlinear_arith)
        requires
            m == q * l / f,
            0 <= q * l,
            f == 0x1_0000_0000,
    ;
    let shared = natural.over(Fixed::of_spec(256));
    assert((m * f) / (256 * f) == m / 256 && 0 <= m * f) by (nonlinear_arith)
        requires
            0 <= m,
            f == 0x1_0000_0000,
    ;
    assert(0int / (256 * f) == 0);
    assert(shared.raw == if rise.raw < 0 { -(m / 256) } else { m / 256 }) by {
        if rise.raw < 0 {
            assert((-m) * f == -(m * f)) by (nonlinear_arith);
        }
    }
}

/// Two to a number's own logarithm is the number again, to within a millionth of
/// it, from a thousandth up.
pub proof fn exp2_undoes_log2(x: Fixed)
    requires
        FRACTION <= 1001 * x.raw,
        x.raw <= 0x1000_0000_0000_0000,
    ensures
        1_000_000 * magnitude(x.log2_spec().exp2_spec().raw - x.raw) <= x.raw,
{
    let f = FRACTION as int;
    let x1 = x.sqrt_spec();
    let x2 = x1.sqrt_spec();
    let x3 = x2.sqrt_spec();
    let x4 = x3.sqrt_spec();
    let x5 = x4.sqrt_spec();
    let x6 = x5.sqrt_spec();
    let x7 = x6.sqrt_spec();
    let x8 = x7.sqrt_spec();
    assert(rooted(x, 8) == x8) by {
        reveal_with_fuel(rooted, 9);
    }
    lemma_root_share(x, 1001, 32);
    lemma_root_share(x1, 32, 6);
    lemma_root_share(x2, 6, 3);
    lemma_root_share(x3, 3, 2);
    lemma_root_share(x4, 2, 2);
    lemma_root_share(x5, 2, 2);
    lemma_root_share(x6, 2, 2);
    lemma_root_share(x7, 2, 2);
    lemma_root_bound(x, 0x1_0000_0000_0000);
    lemma_root_bound(x1, 0x100_0000_0000);
    lemma_root_bound(x2, 0x10_0000_0000);
    lemma_root_bound(x3, 0x4_0000_0000);
    lemma_root_bound(x4, 0x2_0000_0000);
    lemma_root_bound(x5, 0x2_0000_0000);
    lemma_root_bound(x6, 0x2_0000_0000);
    lemma_root_bound(x7, 0x2_0000_0000);
    lemma_log_and_back(x);
    let s8 = Fixed::of_spec(1).plus(x.log2_spec().times(ln_two()).over(Fixed::of_spec(256)));
    assert(is_near(s8, x8, 2));
    let s7 = s8.times(s8);
    let s6 = s7.times(s7);
    let s5 = s6.times(s6);
    let s4 = s5.times(s5);
    let s3 = s4.times(s4);
    let s2 = s3.times(s3);
    let s1 = s2.times(s2);
    lemma_square_back(x7, s8, 2, 2, 2);
    lemma_square_back(x6, s7, 10, 2, 2);
    lemma_square_back(x5, s6, 26, 2, 2);
    lemma_square_back(x4, s5, 58, 2, 2);
    lemma_square_back(x3, s4, 122, 2, 3);
    lemma_square_back(x2, s3, 251, 3, 6);
    lemma_square_back(x1, s2, 514, 6, 32);
    lemma_square_back(x, s1, 1072, 32, 1001);
    assert(squared(s8, 8) == s1.times(s1)) by {
        reveal_with_fuel(squared, 9);
    }
    assert(x.log2_spec().exp2_spec() == s1.times(s1));
    let off = magnitude(s1.times(s1).raw - x.raw);
    let raw = x.raw as int;
    assert(1_000_000 * off <= raw) by (nonlinear_arith)
        requires
            f * off <= 3_209 * raw,
            0 <= off,
            f == 0x1_0000_0000,
    ;
}

/// A root is no more than a number whose square is.
pub(crate) proof fn lemma_root_bound(x: Fixed, bound: int)
    requires
        0 < x.raw,
        0 < bound,
        x.raw * FRACTION <= bound * bound,
    ensures
        x.sqrt_spec().raw <= bound,
{
    a_root_is_a_root(x);
    let r = x.sqrt_spec().raw as int;
    if r > bound {
        assert(r * r > bound * bound) by (nonlinear_arith)
            requires
                r > bound,
                0 < bound,
        ;
    }
}

/// A positive number has a positive root.
pub(crate) proof fn a_root_is_positive(x: Fixed)
    requires
        0 < x.raw,
    ensures
        0 < x.sqrt_spec().raw,
{
    a_root_is_a_root(x);
}

proof fn lemma_squared_between(base: Fixed, fall: int, times: nat, grown: int)
    requires
        0 <= fall,
        0 <= grown,
        0 <= base.raw <= FRACTION,
        FRACTION - fall <= base.raw,
        base.raw * (FRACTION + grown) <= FRACTION * FRACTION,
        times <= 8,
    ensures
        0 <= squared(base, times).raw <= FRACTION,
        times == 8 ==> FRACTION - 256 * fall - 255 <= squared(base, times).raw,
        times == 7 ==> FRACTION - 128 * fall - 127 <= squared(base, times).raw,
        times == 6 ==> FRACTION - 64 * fall - 63 <= squared(base, times).raw,
        times == 5 ==> FRACTION - 32 * fall - 31 <= squared(base, times).raw,
        times == 4 ==> FRACTION - 16 * fall - 15 <= squared(base, times).raw,
        times == 3 ==> FRACTION - 8 * fall - 7 <= squared(base, times).raw,
        times == 2 ==> FRACTION - 4 * fall - 3 <= squared(base, times).raw,
        times == 1 ==> FRACTION - 2 * fall - 1 <= squared(base, times).raw,
        times == 0 ==> FRACTION - fall <= squared(base, times).raw,
        squared(base, times).raw * (FRACTION + two_to(times) * grown) <= FRACTION * FRACTION,
    decreases times,
{
    let f = FRACTION as int;
    if times > 0 {
        let b = base.raw as int;
        let next = base.times(base);
        let q = b * b / f;
        assert(q * f <= b * b < q * f + f && 0 <= q <= f && 0 <= b * b) by (nonlinear_arith)
            requires
                q == b * b / f,
                0 <= b <= f,
                f == 0x1_0000_0000,
        ;
        assert(next.raw == q);
        assert(f - (2 * fall + 1) <= q) by (nonlinear_arith)
            requires
                b * b < q * f + f,
                f - fall <= b,
                0 <= fall,
                0 <= b,
                f == 0x1_0000_0000,
        {
            if fall <= f {
                assert((f - fall) * (f - fall) <= b * b);
                assert((f - fall) * (f - fall) >= f * f - 2 * (f * fall));
            }
        }
        assert(q * (f + 2 * grown) <= f * f) by (nonlinear_arith)
            requires
                q * f <= b * b,
                b * (f + grown) <= f * f,
                0 <= b,
                0 <= q,
                0 <= grown,
                f == 0x1_0000_0000,
        {
            let g = f + grown;
            assert((b * g) * (b * g) <= (f * f) * (f * f));
            assert((b * b) * (g * g) == (b * g) * (b * g));
            assert((q * f) * (g * g) <= (b * b) * (g * g));
            assert(g * g >= f * (f + 2 * grown));
            assert((q * f) * (f * (f + 2 * grown)) <= (q * f) * (g * g));
            assert((q * f) * (f * (f + 2 * grown)) == (f * f) * (q * (f + 2 * grown)));
            assert((f * f) * (q * (f + 2 * grown)) <= (f * f) * (f * f));
        }
        lemma_squared_between(next, 2 * fall + 1, (times - 1) as nat, 2 * grown);
        assert(two_to((times - 1) as nat) * (2 * grown) == two_to(times) * grown) by (nonlinear_arith)
            requires
                two_to(times) == 2 * two_to((times - 1) as nat),
        ;
    } else {
        assert(1 * grown == grown);
    }
}

/// Two multiplied by itself.
pub open spec fn two_to(times: nat) -> int
    decreases times,
{
    if times == 0 {
        1
    } else {
        2 * two_to((times - 1) as nat)
    }
}

/// The exponential of a negative number lies between its two simplest bounds:
/// one and the number, and one over one less the number; but for a few hundred
/// counts.
pub proof fn a_decay_lies_between_its_bounds(x: Fixed)
    requires
        -256 * FRACTION <= x.raw <= 0,
    ensures
        FRACTION + x.raw - 255 <= x.exp_spec().raw,
        x.exp_spec().raw * (FRACTION - x.raw - 255) <= FRACTION * FRACTION,
        0 <= x.exp_spec().raw <= FRACTION,
{
    let f = FRACTION as int;
    let w = -x.raw;
    let d = w / 256;
    let share = x.over(Fixed::of_spec(256));
    assert((w * f) / (256 * f) == d && 0 <= w * f) by (nonlinear_arith)
        requires
            d == w / 256,
            0 <= w,
            f == 0x1_0000_0000,
    ;
    assert((-w) * f == -(w * f)) by (nonlinear_arith);
    assert(0int / (256 * f) == 0);
    assert(share.raw == -d);
    let base = max_of(Fixed::of_spec(0), Fixed::of_spec(1).plus(share));
    assert(base.raw == f - d);
    assert((f - d) * (f + d) <= f * f) by (nonlinear_arith);
    lemma_squared_between(base, d, 8, d);
    assert(two_to(8) == 256) by {
        reveal_with_fuel(two_to, 9);
    }
    let e = x.exp_spec().raw as int;
    assert(e * (f + w - 255) <= f * f) by (nonlinear_arith)
        requires
            e * (f + 256 * d) <= f * f,
            w - 255 <= 256 * d,
            0 <= e,
    ;
}

proof fn lemma_root_at_least(x: Fixed, least: int)
    requires
        0 < x.raw,
        0 < least,
        least * least <= x.raw * FRACTION,
    ensures
        least <= x.sqrt_spec().raw,
{
    a_root_is_a_root(x);
    let r = x.sqrt_spec().raw as int;
    if r < least {
        assert((r + 1) * (r + 1) <= least * least) by (nonlinear_arith)
            requires
                0 <= r + 1 <= least,
        ;
    }
}

/// Roots keep the order of what they are taken of.
pub proof fn roots_keep_order(low: Fixed, high: Fixed)
    requires
        low.raw <= high.raw,
    ensures
        low.sqrt_spec().raw <= high.sqrt_spec().raw,
        0 <= low.sqrt_spec().raw,
{
    if high.raw > 0 {
        a_root_is_a_root(high);
    }
    if low.raw > 0 {
        a_root_is_a_root(low);
        let a = low.sqrt_spec().raw as int;
        let b = high.sqrt_spec().raw as int;
        let f = FRACTION as int;
        assert(low.raw * f <= high.raw * f) by (nonlinear_arith)
            requires
                low.raw <= high.raw,
                f == 0x1_0000_0000,
        ;
        if b < a {
            assert((b + 1) * (b + 1) <= a * a) by (nonlinear_arith)
                requires
                    0 <= b + 1 <= a,
            ;
        }
    }
}

/// Logarithms keep the order of what they are taken of.
pub proof fn logarithms_keep_order(low: Fixed, high: Fixed)
    requires
        low.raw <= high.raw,
    ensures
        low.ln_spec().raw <= high.ln_spec().raw,
{
    lemma_rooted_order(low, high, 8);
    lemma_rooted_reach(low);
    lemma_rooted_reach(high);
    lemma_logarithm(low);
    lemma_logarithm(high);
}

proof fn lemma_rooted_reach(x: Fixed)
    ensures
        0 <= rooted(x, 8).raw <= 2 * FRACTION,
{
    let most = Fixed { raw: i64::MAX };
    lemma_rooted_order(x, most, 8);
    let x1 = most.sqrt_spec();
    let x2 = x1.sqrt_spec();
    let x3 = x2.sqrt_spec();
    let x4 = x3.sqrt_spec();
    let x5 = x4.sqrt_spec();
    let x6 = x5.sqrt_spec();
    let x7 = x6.sqrt_spec();
    lemma_root_bound(most, 0x1_0000_0000_0000);
    a_root_is_positive(most);
    lemma_root_bound(x1, 0x100_0000_0000);
    a_root_is_positive(x1);
    lemma_root_bound(x2, 0x10_0000_0000);
    a_root_is_positive(x2);
    lemma_root_bound(x3, 0x4_0000_0000);
    a_root_is_positive(x3);
    lemma_root_bound(x4, 0x2_0000_0000);
    a_root_is_positive(x4);
    lemma_root_bound(x5, 0x2_0000_0000);
    a_root_is_positive(x5);
    lemma_root_bound(x6, 0x2_0000_0000);
    a_root_is_positive(x6);
    lemma_root_bound(x7, 0x2_0000_0000);
    assert(rooted(most, 8) == x7.sqrt_spec()) by {
        reveal_with_fuel(rooted, 9);
    }
}

proof fn lemma_rooted_order(low: Fixed, high: Fixed, times: nat)
    requires
        low.raw <= high.raw,
    ensures
        rooted(low, times).raw <= rooted(high, times).raw,
        times > 0 ==> 0 <= rooted(low, times).raw,
    decreases times,
{
    if times > 0 {
        roots_keep_order(low, high);
        lemma_rooted_order(low.sqrt_spec(), high.sqrt_spec(), (times - 1) as nat);
    }
}

/// Exponentials keep the order of what they are taken of.
pub proof fn exponentials_keep_order(low: Fixed, high: Fixed)
    requires
        low.raw <= high.raw,
    ensures
        low.exp_spec().raw <= high.exp_spec().raw,
{
    quotients_keep_order(low, high, Fixed::of_spec(256));
    let a = max_of(
        Fixed::of_spec(0),
        Fixed::of_spec(1).plus(low.over(Fixed::of_spec(256))),
    );
    let b = max_of(
        Fixed::of_spec(0),
        Fixed::of_spec(1).plus(high.over(Fixed::of_spec(256))),
    );
    lemma_squared_order(a, b, 8);
}

proof fn lemma_squared_order(low: Fixed, high: Fixed, times: nat)
    requires
        0 <= low.raw <= high.raw,
    ensures
        squared(low, times).raw <= squared(high, times).raw,
    decreases times,
{
    if times > 0 {
        let f = FRACTION as int;
        let a = low.raw as int;
        let b = high.raw as int;
        assert(0 <= a * a <= b * b) by (nonlinear_arith)
            requires
                0 <= a <= b,
        ;
        let p = a * a / f;
        let q = b * b / f;
        assert(0 <= p <= q) by (nonlinear_arith)
            requires
                p == a * a / f,
                q == b * b / f,
                0 <= a * a <= b * b,
                f == 0x1_0000_0000,
        ;
        lemma_squared_order(low.times(low), high.times(high), (times - 1) as nat);
    }
}

/// The logarithm of ten is a little over two and three tenths.
pub proof fn the_logarithm_of_ten()
    ensures
        23 * FRACTION <= 10 * Fixed::of_spec(10).ln_spec().raw,
        100 * Fixed::of_spec(10).ln_spec().raw <= 232 * FRACTION,
{
    let x0 = Fixed::of_spec(10);
    let x1 = x0.sqrt_spec();
    let x2 = x1.sqrt_spec();
    let x3 = x2.sqrt_spec();
    let x4 = x3.sqrt_spec();
    let x5 = x4.sqrt_spec();
    let x6 = x5.sqrt_spec();
    let x7 = x6.sqrt_spec();
    lemma_root_at_least(x0, 13_581_879_131);
    lemma_root_bound(x0, 13_581_879_132);
    lemma_root_at_least(x1, 7_637_651_909);
    lemma_root_bound(x1, 7_637_651_910);
    lemma_root_at_least(x2, 5_727_430_939);
    lemma_root_bound(x2, 5_727_430_940);
    lemma_root_at_least(x3, 4_959_750_857);
    lemma_root_bound(x3, 4_959_750_859);
    lemma_root_at_least(x4, 4_615_405_478);
    lemma_root_bound(x4, 4_615_405_480);
    lemma_root_at_least(x5, 4_452_304_525);
    lemma_root_bound(x5, 4_452_304_527);
    lemma_root_at_least(x6, 4_372_928_346);
    lemma_root_bound(x6, 4_372_928_348);
    lemma_root_at_least(x7, 4_333_772_517);
    lemma_root_bound(x7, 4_333_772_519);
    assert(rooted(x0, 8) == x7.sqrt_spec()) by {
        reveal_with_fuel(rooted, 9);
    }
    lemma_logarithm(x0);
}

} // verus!
