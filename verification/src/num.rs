//! The number type audio is made of.
//!
//! Everything in this crate that does arithmetic on samples is generic over
//! [`Sample`]. The trait names each operation twice: once as a function on
//! values, which the contracts speak of, and once as a method, which computes
//! it. [`Fixed`] is the fixed-point sample this crate brings itself.

use vstd::prelude::*;

verus! {

/// A number that audio and control values are made of.
///
/// The operations are total: whatever two values are handed to them, they
/// answer, and they answer the same thing every time. Nothing else is asked of
/// them: a proof about any format does not ask what it answers. Sums need not
/// associate, products may round, and a value need not equal itself, which is
/// how a format says that a value is not a number.
///
/// A format that is verified says what each operation answers, as [`Fixed`]
/// does. The bodies given here stand in for that where a format is not: they
/// are one value whatever the arguments, which no format answers, so the
/// contracts are not statements about a format that keeps them. Such a format
/// is outside what is instantiated here.
pub trait Sample: Copy {
    closed spec fn plus(self, other: Self) -> Self {
        arbitrary()
    }

    closed spec fn minus(self, other: Self) -> Self {
        arbitrary()
    }

    closed spec fn times(self, other: Self) -> Self {
        arbitrary()
    }

    closed spec fn over(self, other: Self) -> Self {
        arbitrary()
    }

    closed spec fn negated(self) -> Self {
        arbitrary()
    }

    closed spec fn abs_spec(self) -> Self {
        arbitrary()
    }

    /// The nearest value to a count.
    closed spec fn of_spec(count: nat) -> Self {
        arbitrary()
    }

    /// The count a value truncates to: zero for a negative value and for one
    /// that is not a number.
    closed spec fn whole_spec(self) -> nat {
        arbitrary()
    }

    /// The nearest whole value, halves away from zero.
    closed spec fn round_spec(self) -> Self {
        arbitrary()
    }

    /// The least whole value that is not below this one.
    closed spec fn ceil_spec(self) -> Self {
        arbitrary()
    }

    closed spec fn below(self, other: Self) -> bool {
        arbitrary()
    }

    closed spec fn at_most(self, other: Self) -> bool {
        arbitrary()
    }

    /// Equal as numbers. Weaker than being the same value where a format has
    /// two zeros, and false of a value that is not a number and itself.
    closed spec fn equals_spec(self, other: Self) -> bool {
        arbitrary()
    }

    closed spec fn finite_spec(self) -> bool {
        arbitrary()
    }

    fn add(self, other: Self) -> (sum: Self)
        ensures
            sum == self.plus(other),
    ;

    fn sub(self, other: Self) -> (difference: Self)
        ensures
            difference == self.minus(other),
    ;

    fn mul(self, other: Self) -> (product: Self)
        ensures
            product == self.times(other),
    ;

    fn div(self, other: Self) -> (quotient: Self)
        ensures
            quotient == self.over(other),
    ;

    fn neg(self) -> (negated: Self)
        ensures
            negated == self.negated(),
    ;

    fn abs(self) -> (magnitude: Self)
        ensures
            magnitude == self.abs_spec(),
    ;

    fn of(count: usize) -> (value: Self)
        ensures
            value == Self::of_spec(count as nat),
    ;

    fn whole(self) -> (count: usize)
        ensures
            count == self.whole_spec(),
    ;

    fn round(self) -> (value: Self)
        ensures
            value == self.round_spec(),
    ;

    fn ceil(self) -> (value: Self)
        ensures
            value == self.ceil_spec(),
    ;

    fn lt(self, other: Self) -> (answer: bool)
        ensures
            answer == self.below(other),
    ;

    fn le(self, other: Self) -> (answer: bool)
        ensures
            answer == self.at_most(other),
    ;

    fn equals(self, other: Self) -> (answer: bool)
        ensures
            answer == self.equals_spec(other),
    ;

    /// Whether the two are one and the same value, in every bit.
    fn same(self, other: Self) -> (answer: bool)
        ensures
            answer == (self == other),
    ;

    fn is_finite(self) -> (answer: bool)
        ensures
            answer == self.finite_spec(),
    ;
}

/// A wider number, in which sums of many narrow ones keep their precision. As
/// with [`Sample`], a format that keeps the bodies given here is outside what is
/// instantiated.
pub trait Wide<S>: Sample {
    closed spec fn widen_spec(value: S) -> Self {
        arbitrary()
    }

    closed spec fn narrow_spec(self) -> S {
        arbitrary()
    }

    fn widen(value: S) -> (wide: Self)
        ensures
            wide == Self::widen_spec(value),
    ;

    fn narrow(self) -> (value: S)
        ensures
            value == self.narrow_spec(),
    ;
}

/// The least of two numbers, and the other one where one is not a number.
pub open spec fn min_of<S: Sample>(a: S, b: S) -> S {
    if !a.equals_spec(a) || b.below(a) {
        b
    } else {
        a
    }
}

/// The greatest of two numbers, and the other one where one is not a number.
pub open spec fn max_of<S: Sample>(a: S, b: S) -> S {
    if !a.equals_spec(a) || a.below(b) {
        b
    } else {
        a
    }
}

/// `x` moved to the nearer end of `low..=high` where it lies outside. A value
/// that is not a number compares with neither end and stays what it is.
pub open spec fn clamp_of<S: Sample>(x: S, low: S, high: S) -> S {
    if x.below(low) {
        low
    } else if high.below(x) {
        high
    } else {
        x
    }
}

/// A parameter held inside `low..=high` whatever it was: a value that is not
/// a number lands on `low`, so it can never reach a filter's coefficients.
pub open spec fn clamp_param_of<S: Sample>(x: S, low: S, high: S) -> S {
    if !low.at_most(x) {
        low
    } else if high.below(x) {
        high
    } else {
        x
    }
}

/// The value of a fraction.
pub open spec fn ratio_of<S: Sample>(numerator: nat, denominator: nat) -> S {
    S::of_spec(numerator).over(S::of_spec(denominator))
}

pub fn min<S: Sample>(a: S, b: S) -> (least: S)
    ensures
        least == min_of(a, b),
{
    if !a.equals(a) || b.lt(a) {
        b
    } else {
        a
    }
}

pub fn max<S: Sample>(a: S, b: S) -> (greatest: S)
    ensures
        greatest == max_of(a, b),
{
    if !a.equals(a) || a.lt(b) {
        b
    } else {
        a
    }
}

pub fn clamp<S: Sample>(x: S, low: S, high: S) -> (held: S)
    ensures
        held == clamp_of(x, low, high),
{
    if x.lt(low) {
        low
    } else if high.lt(x) {
        high
    } else {
        x
    }
}

pub fn clamp_param<S: Sample>(x: S, low: S, high: S) -> (held: S)
    ensures
        held == clamp_param_of(x, low, high),
{
    if !low.le(x) {
        low
    } else if high.lt(x) {
        high
    } else {
        x
    }
}

pub fn ratio<S: Sample>(numerator: usize, denominator: usize) -> (value: S)
    ensures
        value == ratio_of::<S>(numerator as nat, denominator as nat),
{
    S::of(numerator).div(S::of(denominator))
}

/// Fractional bits of a [`Fixed`].
pub const FRACTION: i128 = 0x1_0000_0000;

/// A fixed-point number: `raw` counts of `2^-32`. Every operation saturates
/// at the ends of the range, and products and quotients round toward zero.
#[derive(Clone, Copy, Debug, PartialEq, Eq, Structural)]
pub struct Fixed {
    pub raw: i64,
}

/// The value of a [`Fixed`] nearest to `raw` counts.
pub open spec fn saturated(raw: int) -> Fixed {
    Fixed {
        raw: if raw < i64::MIN {
            i64::MIN
        } else if raw > i64::MAX {
            i64::MAX
        } else {
            raw as i64
        },
    }
}

/// The absolute value of an integer.
pub open spec fn magnitude(x: int) -> int {
    if x < 0 {
        -x
    } else {
        x
    }
}

/// `n / d` rounded toward zero, for a `d` that is not zero.
pub open spec fn quotient(n: int, d: int) -> int {
    if (n < 0) == (d < 0) {
        magnitude(n) / magnitude(d)
    } else {
        -(magnitude(n) / magnitude(d))
    }
}

fn saturate(raw: i128) -> (value: Fixed)
    ensures
        value == saturated(raw as int),
{
    if raw < i64::MIN as i128 {
        Fixed { raw: i64::MIN }
    } else if raw > i64::MAX as i128 {
        Fixed { raw: i64::MAX }
    } else {
        Fixed { raw: raw as i64 }
    }
}

fn unsigned(x: i64) -> (value: u128)
    ensures
        value == magnitude(x as int),
{
    if x < 0 {
        (-(x as i128)) as u128
    } else {
        x as u128
    }
}

/// `magnitude` with a sign, saturated.
fn signed(negative: bool, magnitude: u128) -> (value: Fixed)
    ensures
        value == saturated(if negative { -(magnitude as int) } else { magnitude as int }),
{
    let capped: u128 = if magnitude > 0xffff_ffff_ffff_ffff {
        0xffff_ffff_ffff_ffff
    } else {
        magnitude
    };
    if negative {
        saturate(-(capped as i128))
    } else {
        saturate(capped as i128)
    }
}

impl Sample for Fixed {
    open spec fn plus(self, other: Self) -> Self {
        saturated(self.raw + other.raw)
    }

    open spec fn minus(self, other: Self) -> Self {
        saturated(self.raw - other.raw)
    }

    open spec fn times(self, other: Self) -> Self {
        saturated(quotient(self.raw * other.raw, FRACTION as int))
    }

    open spec fn over(self, other: Self) -> Self {
        if other.raw == 0 {
            saturated(if self.raw < 0 { i64::MIN as int } else { i64::MAX as int })
        } else {
            saturated(quotient(self.raw * FRACTION, other.raw as int))
        }
    }

    open spec fn negated(self) -> Self {
        saturated(-self.raw)
    }

    open spec fn abs_spec(self) -> Self {
        saturated(magnitude(self.raw as int))
    }

    open spec fn of_spec(count: nat) -> Self {
        saturated(count * FRACTION)
    }

    open spec fn whole_spec(self) -> nat {
        if self.raw < 0 {
            0
        } else {
            (self.raw as int / FRACTION as int) as nat
        }
    }

    open spec fn round_spec(self) -> Self {
        if self.raw < 0 {
            saturated(-((-self.raw + FRACTION / 2) / (FRACTION as int) * FRACTION))
        } else {
            saturated((self.raw + FRACTION / 2) / (FRACTION as int) * FRACTION)
        }
    }

    open spec fn ceil_spec(self) -> Self {
        saturated(-(-self.raw as int / FRACTION as int * FRACTION))
    }

    open spec fn below(self, other: Self) -> bool {
        self.raw < other.raw
    }

    open spec fn at_most(self, other: Self) -> bool {
        self.raw <= other.raw
    }

    open spec fn equals_spec(self, other: Self) -> bool {
        self.raw == other.raw
    }

    open spec fn finite_spec(self) -> bool {
        true
    }

    fn add(self, other: Self) -> (sum: Self) {
        saturate(self.raw as i128 + other.raw as i128)
    }

    fn sub(self, other: Self) -> (difference: Self) {
        saturate(self.raw as i128 - other.raw as i128)
    }

    fn mul(self, other: Self) -> (product: Self) {
        let a: u128 = unsigned(self.raw);
        let b: u128 = unsigned(other.raw);
        assert(a * b <= 0x8000_0000_0000_0000 * 0x8000_0000_0000_0000) by (nonlinear_arith)
            requires
                a <= 0x8000_0000_0000_0000,
                b <= 0x8000_0000_0000_0000,
        ;
        let product: u128 = a * b;
        proof {
            lemma_magnitude_of_product(self.raw as int, other.raw as int);
        }
        signed((self.raw < 0) != (other.raw < 0), product / 0x1_0000_0000)
    }

    fn div(self, other: Self) -> (quotient: Self) {
        if other.raw == 0 {
            return Fixed { raw: if self.raw < 0 { i64::MIN } else { i64::MAX } };
        }
        let a: u128 = unsigned(self.raw);
        let b: u128 = unsigned(other.raw);
        proof {
            lemma_magnitude_of_product(self.raw as int, FRACTION as int);
        }
        signed((self.raw < 0) != (other.raw < 0), a * 0x1_0000_0000 / b)
    }

    fn neg(self) -> (negated: Self) {
        saturate(-(self.raw as i128))
    }

    fn abs(self) -> (magnitude: Self) {
        signed(false, unsigned(self.raw))
    }

    fn of(count: usize) -> (value: Self) {
        signed(false, count as u128 * 0x1_0000_0000)
    }

    fn whole(self) -> (count: usize) {
        if self.raw < 0 {
            0
        } else {
            (self.raw / 0x1_0000_0000) as usize
        }
    }

    fn round(self) -> (value: Self) {
        let counts: u128 = (unsigned(self.raw) + 0x8000_0000) / 0x1_0000_0000 * 0x1_0000_0000;
        signed(self.raw < 0, counts)
    }

    fn ceil(self) -> (value: Self) {
        if self.raw > 0 {
            let counts: u128 = (unsigned(self.raw) + 0xffff_ffff) / 0x1_0000_0000 * 0x1_0000_0000;
            signed(false, counts)
        } else {
            let counts: u128 = unsigned(self.raw) / 0x1_0000_0000 * 0x1_0000_0000;
            signed(true, counts)
        }
    }

    fn lt(self, other: Self) -> (answer: bool) {
        self.raw < other.raw
    }

    fn le(self, other: Self) -> (answer: bool) {
        self.raw <= other.raw
    }

    fn equals(self, other: Self) -> (answer: bool) {
        self.raw == other.raw
    }

    fn same(self, other: Self) -> (answer: bool) {
        self.raw == other.raw
    }

    fn is_finite(self) -> (answer: bool) {
        true
    }
}

/// A [`Fixed`] is as wide as it needs to be: sums of it are exact.
impl Wide<Fixed> for Fixed {
    open spec fn widen_spec(value: Fixed) -> Self {
        value
    }

    open spec fn narrow_spec(self) -> Fixed {
        self
    }

    fn widen(value: Fixed) -> (wide: Self) {
        value
    }

    fn narrow(self) -> (value: Fixed) {
        self
    }
}

proof fn lemma_magnitude_of_product(a: int, b: int)
    ensures
        magnitude(a * b) == magnitude(a) * magnitude(b),
        a * b < 0 <==> (a < 0) != (b < 0) && a != 0 && b != 0,
{
    assert(magnitude(a * b) == magnitude(a) * magnitude(b) && (a * b < 0 <==> (a < 0) != (b < 0) && a
        != 0 && b != 0)) by (nonlinear_arith);
}

/// Whether a value is a gain: between nothing and one.
pub open spec fn is_gain(value: Fixed) -> bool {
    0 <= value.raw <= FRACTION
}

/// A product of a gain and a number lies between nothing and the number.
pub proof fn a_gain_shrinks(gain: Fixed, value: Fixed)
    requires
        is_gain(gain),
    ensures
        value.raw >= 0 ==> 0 <= gain.times(value).raw <= value.raw,
        value.raw <= 0 ==> value.raw <= gain.times(value).raw <= 0,
{
    let a = gain.raw as int;
    let b = magnitude(value.raw as int);
    let f = FRACTION as int;
    assert(0 <= a * b <= f * b) by (nonlinear_arith)
        requires
            0 <= a <= f,
            0 <= b,
    ;
    assert(0 <= (a * b) / f <= b) by (nonlinear_arith)
        requires
            0 <= a * b <= f * b,
            f == 0x1_0000_0000,
    ;
    if value.raw >= 0 {
        assert(gain.raw * value.raw == a * b);
        assert(quotient(a * b, f) == (a * b) / f);
    } else {
        assert(gain.raw * value.raw == -(a * b)) by (nonlinear_arith)
            requires
                a == gain.raw,
                b == -value.raw,
        ;
        assert(magnitude(-(a * b)) == a * b);
        if a * b == 0 {
            assert(quotient(0, f) == 0);
        } else {
            assert(quotient(-(a * b), f) == -((a * b) / f));
        }
    }
}

/// The product of two gains is a gain.
pub proof fn gains_multiply_to_gains(a: Fixed, b: Fixed)
    requires
        is_gain(a),
        is_gain(b),
    ensures
        is_gain(a.times(b)),
{
    a_gain_shrinks(a, b);
}

/// A square is never negative.
pub proof fn squares_are_not_negative(a: Fixed)
    ensures
        a.times(a).raw >= 0,
{
    let x = a.raw as int;
    assert(x * x >= 0) by (nonlinear_arith);
    assert(quotient(x * x, FRACTION as int) == (x * x) / (FRACTION as int));
}

/// A number over a larger one is a gain.
pub proof fn a_share_is_a_gain(part: Fixed, whole: Fixed)
    requires
        0 <= part.raw <= whole.raw,
        0 < whole.raw,
    ensures
        is_gain(part.over(whole)),
{
    let a = part.raw as int;
    let b = whole.raw as int;
    let f = FRACTION as int;
    assert(0 <= (a * f) / b <= f) by (nonlinear_arith)
        requires
            0 <= a <= b,
            0 < b,
            f == 0x1_0000_0000,
    ;
    assert(0 <= a * f) by (nonlinear_arith)
        requires
            0 <= a,
            f == 0x1_0000_0000,
    ;
    assert(quotient(a * f, b) == (a * f) / b);
}

/// What is not positive over what is positive is not positive.
pub proof fn a_quotient_keeps_its_sign(part: Fixed, whole: Fixed)
    requires
        part.raw <= 0,
        0 < whole.raw,
    ensures
        part.over(whole).raw <= 0,
{
    let a = -(part.raw * FRACTION);
    let b = whole.raw as int;
    assert(a >= 0) by (nonlinear_arith)
        requires
            a == -(part.raw * FRACTION),
            part.raw <= 0,
            FRACTION == 0x1_0000_0000,
    ;
    assert(a / b >= 0) by (nonlinear_arith)
        requires
            a >= 0,
            b > 0,
    ;
    assert(0int / b == 0) by (nonlinear_arith)
        requires
            b > 0,
    ;
}

/// Whether a value lies within `bound` counts of nothing.
pub open spec fn within(value: Fixed, bound: int) -> bool {
    -bound <= value.raw <= bound
}

/// A product is no further from nothing than the product of the bounds.
pub proof fn products_stay_within(a: Fixed, b: Fixed, first: int, second: int, bound: int)
    requires
        within(a, first),
        within(b, second),
        0 <= first,
        0 <= second,
        first * second <= bound * FRACTION,
    ensures
        within(a.times(b), bound),
        (a.raw >= 0) == (b.raw >= 0) ==> a.times(b).raw >= 0,
        (a.raw <= 0) == (b.raw <= 0) ==> a.times(b).raw >= 0,
{
    let x = magnitude(a.raw as int);
    let y = magnitude(b.raw as int);
    let f = FRACTION as int;
    assert(0 <= x * y <= first * second) by (nonlinear_arith)
        requires
            0 <= x <= first,
            0 <= y <= second,
    ;
    assert(0 <= (x * y) / f <= bound) by (nonlinear_arith)
        requires
            0 <= x * y <= bound * f,
            f == 0x1_0000_0000,
    ;
    lemma_magnitude_of_product(a.raw as int, b.raw as int);
}

/// A quotient is no further from nothing than `bound` where the first number
/// is no further than `bound` times the second.
pub proof fn quotients_stay_within(a: Fixed, b: Fixed, bound: int)
    requires
        b.raw > 0,
        0 <= bound,
        magnitude(a.raw as int) * FRACTION <= bound * b.raw,
    ensures
        within(a.over(b), bound),
        a.raw >= 0 ==> a.over(b).raw >= 0,
{
    let f = FRACTION as int;
    let x = magnitude(a.raw as int);
    let d = b.raw as int;
    assert(0 <= x * f) by (nonlinear_arith)
        requires
            0 <= x,
            f == 0x1_0000_0000,
    ;
    assert(0 <= (x * f) / d <= bound) by (nonlinear_arith)
        requires
            0 <= x * f <= bound * d,
            d > 0,
    ;
    assert(a.raw < 0 ==> a.raw * f == -(x * f)) by (nonlinear_arith)
        requires
            a.raw < 0 ==> x == -a.raw,
    ;
    assert(0int / d == 0) by (nonlinear_arith)
        requires
            d > 0,
    ;
}

/// One times a number is the number.
pub proof fn one_times(value: Fixed)
    ensures
        Fixed::of_spec(1).times(value) == value,
{
    let x = magnitude(value.raw as int);
    let f = FRACTION as int;
    lemma_magnitude_of_product(f, value.raw as int);
    assert((f * x) / f == x) by (nonlinear_arith)
        requires
            0 <= x,
            f == 0x1_0000_0000,
    ;
}

/// Nothing times a number is nothing.
pub proof fn nothing_times(value: Fixed)
    ensures
        Fixed::of_spec(0).times(value) == Fixed::of_spec(0),
{
    assert(0 * value.raw == 0) by (nonlinear_arith);
}

/// The order of a product does not matter.
pub proof fn products_commute(a: Fixed, b: Fixed)
    ensures
        a.times(b) == b.times(a),
{
    assert(a.raw * b.raw == b.raw * a.raw) by (nonlinear_arith);
}

/// The product with a negated number is the negated product.
pub proof fn products_mirror(a: Fixed, b: Fixed)
    requires
        a.raw > i64::MIN,
        a.times(b).raw > i64::MIN,
        a.times(b).raw < i64::MAX,
    ensures
        a.negated().times(b).raw == -a.times(b).raw,
{
    let f = FRACTION as int;
    lemma_magnitude_of_product(a.raw as int, b.raw as int);
    lemma_magnitude_of_product(-a.raw as int, b.raw as int);
    assert((-a.raw) * b.raw == -(a.raw * b.raw)) by (nonlinear_arith);
    assert(magnitude(a.raw * b.raw) == magnitude(-(a.raw * b.raw)));
    let n = magnitude(a.raw * b.raw);
    assert(n / f >= 0) by (nonlinear_arith)
        requires
            n >= 0,
            f == 0x1_0000_0000,
    ;
    assert(0int / f == 0);
}

/// Nothing of a wet signal mixed in is the dry one.
pub proof fn nothing_mixed_in_is_dry(dry: Fixed, wet: Fixed)
    ensures
        dry.plus(wet.minus(dry).times(Fixed::of_spec(0))) == dry,
{
    nothing_times(wet.minus(dry));
    products_commute(wet.minus(dry), Fixed::of_spec(0));
}

/// A number times one is the number.
pub proof fn times_one(value: Fixed)
    ensures
        value.times(Fixed::of_spec(1)) == value,
{
    one_times(value);
    products_commute(value, Fixed::of_spec(1));
}

/// A number that is not positive times one that is not negative is not
/// positive.
pub proof fn falling_products(a: Fixed, b: Fixed)
    requires
        a.raw <= 0,
        b.raw >= 0,
    ensures
        a.times(b).raw <= 0,
{
    let x = magnitude(a.raw as int);
    let y = b.raw as int;
    let f = FRACTION as int;
    lemma_magnitude_of_product(a.raw as int, y);
    assert(0 <= x * y && 0 <= (x * y) / f) by (nonlinear_arith)
        requires
            0 <= x,
            0 <= y,
            f == 0x1_0000_0000,
    ;
    assert(a.raw * y <= 0) by (nonlinear_arith)
        requires
            a.raw <= 0,
            0 <= y,
    ;
    if a.raw * y == 0 {
        assert(quotient(0, f) == 0);
    }
}

/// A gain's share of what lies within a bound lies within the gain's share of
/// the bound, rounded down.
pub proof fn a_gain_scales_a_bound(value: Fixed, gain: Fixed, bound: int)
    requires
        is_gain(gain),
        within(value, bound),
    ensures
        within(value.times(gain), bound * gain.raw / (FRACTION as int)),
        0 <= bound * gain.raw / (FRACTION as int) <= bound,
{
    let f = FRACTION as int;
    let x = magnitude(value.raw as int);
    let g = gain.raw as int;
    lemma_magnitude_of_product(value.raw as int, g);
    assert(0 <= x * g <= bound * g && bound * g <= bound * f) by (nonlinear_arith)
        requires
            0 <= x <= bound,
            0 <= g <= f,
    ;
    let p = x * g / f;
    let q = bound * g / f;
    assert(0 <= p <= q <= bound) by (nonlinear_arith)
        requires
            p == x * g / f,
            q == bound * g / f,
            0 <= x * g <= bound * g,
            bound * g <= bound * f,
            f == 0x1_0000_0000,
    ;
}

/// A blend of two numbers is no further from nothing than they are.
pub proof fn a_blend_stays_within(one: Fixed, other: Fixed, part: Fixed, bound: int)
    requires
        is_gain(part),
        within(one, bound),
        within(other, bound),
    ensures
        within(one.times(Fixed::of_spec(1).minus(part)).plus(other.times(part)), bound),
{
    let f = FRACTION as int;
    let rest = Fixed::of_spec(1).minus(part);
    a_gain_scales_a_bound(one, rest, bound);
    a_gain_scales_a_bound(other, part, bound);
    let t = part.raw as int;
    let u = f - t;
    let x = bound * u / f;
    let y = bound * t / f;
    assert(x + y <= bound) by (nonlinear_arith)
        requires
            x == bound * u / f,
            y == bound * t / f,
            u == f - t,
            f == 0x1_0000_0000,
    {
        assert(bound * u + bound * t == bound * f);
        assert(x * f <= bound * u);
        assert(y * f <= bound * t);
    }
}

/// A product that fits is exact to a count, and never further from nothing than
/// it should be.
pub proof fn a_product_is_exact_to_a_count(a: Fixed, b: Fixed)
    requires
        magnitude(a.raw * b.raw) <= 0x7fff_ffff_ffff_ffff * FRACTION,
    ensures
        magnitude(FRACTION * a.times(b).raw - a.raw * b.raw) < FRACTION,
        FRACTION * magnitude(a.times(b).raw as int) <= magnitude(a.raw * b.raw),
        a.raw * b.raw >= 0 ==> a.times(b).raw >= 0,
        a.raw * b.raw <= 0 ==> a.times(b).raw <= 0,
{
    let f = FRACTION as int;
    let n = magnitude(a.raw * b.raw);
    let q = n / f;
    assert(q * f <= n < q * f + f && 0 <= q <= 0x7fff_ffff_ffff_ffff) by (nonlinear_arith)
        requires
            q == n / f,
            0 <= n <= 0x7fff_ffff_ffff_ffff * f,
            f == 0x1_0000_0000,
    ;
    assert(0int / f == 0);
}

/// A quotient that fits is exact to a count of the divisor, and never further
/// from nothing than it should be.
pub proof fn a_quotient_is_exact_to_a_count(a: Fixed, b: Fixed)
    requires
        b.raw > 0,
        magnitude(a.raw as int) * FRACTION <= 0x7fff_ffff_ffff_ffff * b.raw,
    ensures
        magnitude(b.raw * a.over(b).raw - a.raw * FRACTION) < b.raw,
        b.raw * magnitude(a.over(b).raw as int) <= magnitude(a.raw as int) * FRACTION,
        a.raw >= 0 ==> a.over(b).raw >= 0,
        a.raw <= 0 ==> a.over(b).raw <= 0,
{
    let f = FRACTION as int;
    let d = b.raw as int;
    let x = magnitude(a.raw as int);
    let n = x * f;
    let q = n / d;
    assert(q * d <= n < q * d + d && 0 <= q <= 0x7fff_ffff_ffff_ffff && 0 <= n) by (nonlinear_arith)
        requires
            q == n / d,
            n == x * f,
            0 <= x,
            0 < d,
            n <= 0x7fff_ffff_ffff_ffff * d,
            f == 0x1_0000_0000,
    ;
    let raw = a.raw as int;
    assert(raw < 0 ==> raw * f == -n) by (nonlinear_arith)
        requires
            raw < 0 ==> x == -raw,
            n == x * f,
    ;
    assert(0int / d == 0) by (nonlinear_arith)
        requires
            0 < d,
    ;
    assert(d * -q == -(q * d) && d * q == q * d) by (nonlinear_arith);
    if raw >= 0 {
        assert(a.over(b).raw == q);
    } else {
        assert(n > 0) by (nonlinear_arith)
            requires
                n == x * f,
                x > 0,
                f == 0x1_0000_0000,
        ;
        assert(a.over(b).raw == -q);
    }
}

/// A fraction of two counts is exact to a count.
pub proof fn a_ratio_is_exact_to_a_count(numerator: nat, denominator: nat)
    requires
        numerator < 0x4000_0000,
        0 < denominator < 0x4000_0000,
    ensures
        denominator * ratio_of::<Fixed>(numerator, denominator).raw <= numerator * FRACTION
            < denominator * ratio_of::<Fixed>(numerator, denominator).raw + denominator,
        0 <= ratio_of::<Fixed>(numerator, denominator).raw,
{
    let f = FRACTION as int;
    let a = numerator as int;
    let b = denominator as int;
    let q = (a * f) * f / (b * f);
    assert(q == (a * f) / b) by (nonlinear_arith)
        requires
            q == (a * f) * f / (b * f),
            0 <= a,
            0 < b,
            f == 0x1_0000_0000,
    {
        vstd::arithmetic::div_mod::lemma_div_denominator(a * f * f, f, b);
        vstd::arithmetic::div_mod::lemma_div_multiples_vanish(a * f, f);
        assert((a * f) * f == f * (a * f));
        assert(b * f == f * b);
    }
    assert(b * q <= a * f < b * q + b && 0 <= q <= a * f && 0 <= (a * f) * f) by (nonlinear_arith)
        requires
            q == (a * f) / b,
            0 <= a,
            0 < b,
            f == 0x1_0000_0000,
    ;
}

/// Quotients by a positive number keep the order of what is divided.
pub proof fn quotients_keep_order(low: Fixed, high: Fixed, by: Fixed)
    requires
        low.raw <= high.raw,
        0 < by.raw,
    ensures
        low.over(by).raw <= high.over(by).raw,
{
    let f = FRACTION as int;
    let d = by.raw as int;
    let a = low.raw * f;
    let b = high.raw * f;
    assert(a <= b && (low.raw < 0 <==> a < 0) && (high.raw < 0 <==> b < 0)) by (nonlinear_arith)
        requires
            a == low.raw * f,
            b == high.raw * f,
            low.raw <= high.raw,
            f == 0x1_0000_0000,
    ;
    lemma_quotient_order(a, b, d);
}

proof fn lemma_quotient_order(a: int, b: int, d: int)
    requires
        a <= b,
        0 < d,
    ensures
        quotient(a, d) <= quotient(b, d),
{
    let x = magnitude(a);
    let y = magnitude(b);
    let p = x / d;
    let q = y / d;
    assert(0 <= p && 0 <= q && (x <= y ==> p <= q) && (y <= x ==> q <= p)) by (nonlinear_arith)
        requires
            p == x / d,
            q == y / d,
            0 <= x,
            0 <= y,
            0 < d,
    ;
}

/// Products with a number that is not negative keep the order of what is
/// multiplied.
pub proof fn products_keep_order(low: Fixed, high: Fixed, by: Fixed)
    requires
        low.raw <= high.raw,
        0 <= by.raw,
    ensures
        low.times(by).raw <= high.times(by).raw,
        by.times(low).raw <= by.times(high).raw,
{
    let f = FRACTION as int;
    let a = low.raw * by.raw;
    let b = high.raw * by.raw;
    assert(a <= b) by (nonlinear_arith)
        requires
            a == low.raw * by.raw,
            b == high.raw * by.raw,
            low.raw <= high.raw,
            0 <= by.raw,
    ;
    lemma_quotient_order(a, b, f);
    products_commute(low, by);
    products_commute(high, by);
}

/// Whether a value is what a range makes of `wanted` counts: those where they lie
/// in it, and the nearer end where they do not.
pub open spec fn held(wanted: int, low: int, high: int, value: Fixed) -> bool {
    &&& low <= value.raw <= high
    &&& low <= wanted <= high ==> value.raw == wanted
    &&& wanted < low ==> value.raw == low
    &&& wanted > high ==> value.raw == high
}

/// A gain's share of a number is exact to a count.
pub proof fn a_share_is_exact_to_a_count(value: Fixed, gain: Fixed)
    requires
        is_gain(gain),
    ensures
        magnitude(FRACTION * value.times(gain).raw - value.raw * gain.raw) < FRACTION,
        value.times(gain) == gain.times(value),
        value.raw >= 0 ==> 0 <= value.times(gain).raw <= value.raw,
        value.raw <= 0 ==> value.raw <= value.times(gain).raw <= 0,
{
    let f = FRACTION as int;
    let v = value.raw as int;
    let g = gain.raw as int;
    a_gain_shrinks(gain, value);
    products_commute(gain, value);
    if v > i64::MIN {
        assert(-(0x7fff_ffff_ffff_ffff * f) <= v * g <= 0x7fff_ffff_ffff_ffff * f)
            by (nonlinear_arith)
            requires
                0 <= g <= f,
                -0x7fff_ffff_ffff_ffff <= v <= 0x7fff_ffff_ffff_ffff,
        ;
        a_product_is_exact_to_a_count(value, gain);
    } else {
        let n = 0x8000_0000_0000_0000 * g;
        assert(v * g == -n && 0 <= n) by (nonlinear_arith)
            requires
                v == -0x8000_0000_0000_0000,
                n == 0x8000_0000_0000_0000 * g,
                0 <= g,
        ;
        assert(n / f == 0x8000_0000 * g) by (nonlinear_arith)
            requires
                n == 0x8000_0000_0000_0000 * g,
                f == 0x1_0000_0000,
        ;
        assert(0int / f == 0);
    }
}

} // verus!
