//! A mono delay ring with a linearly interpolated read head, and the diffuser
//! built on one.
//!
//! A ring is stated as what it remembers: the samples written to it, the
//! newest first. Where in memory they lie is nobody's business.

use vstd::prelude::*;

use crate::num::{
    a_blend_stays_within, a_gain_shrinks, clamp, clamp_of, is_gain, magnitude, products_commute,
    quotient, saturated, within, Fixed, Sample, FRACTION,
};
use crate::smooth::glided;

verus! {

/// A mono ring buffer.
pub struct Ring<S> {
    buffer: Vec<S>,
    write: usize,
}

/// A memory with one more sample in it, and the oldest forgotten.
pub open spec fn remembered<S>(past: Seq<S>, value: S) -> Seq<S> {
    seq![value] + past.drop_last()
}

/// A memory with nothing in it.
pub open spec fn forgotten<S: Sample>(capacity: nat) -> Seq<S> {
    Seq::new(capacity, |i: int| S::of_spec(0))
}

/// A delay held inside a memory.
pub open spec fn reachable<S: Sample>(capacity: nat, delay: S) -> S {
    clamp_of(delay, S::of_spec(1), S::of_spec(capacity).minus(S::of_spec(2)))
}

/// The whole samples of a delay, at least one and at most two less than the
/// memory holds.
pub open spec fn samples_back<S: Sample>(capacity: nat, delay: S) -> int {
    let whole = reachable(capacity, delay).whole_spec() as int;
    if whole < 1 {
        1
    } else if whole > capacity - 2 {
        capacity - 2
    } else {
        whole
    }
}

/// The memory read `delay` samples back, between two samples where the delay
/// is not whole. One sample back is the newest.
pub open spec fn heard<S: Sample>(past: Seq<S>, delay: S) -> S {
    let back = samples_back(past.len(), delay);
    let part = reachable(past.len(), delay).minus(S::of_spec(back as nat));
    past[back - 1].times(S::of_spec(1).minus(part)).plus(past[back].times(part))
}

impl<S> Ring<S> {
    /// Where the sample written `age` samples before the newest lies.
    closed spec fn place(&self, age: int) -> int {
        let at = self.write - 1 - age;
        if at < 0 {
            at + self.buffer@.len()
        } else {
            at
        }
    }
}

impl<S> View for Ring<S> {
    type V = Seq<S>;

    /// What the ring remembers, newest first.
    closed spec fn view(&self) -> Seq<S> {
        Seq::new(self.buffer@.len(), |age: int| self.buffer[self.place(age)])
    }
}

impl<S: Sample> Ring<S> {
    /// The head lies inside the ring, and the ring has room to interpolate in.
    pub closed spec fn well_formed(&self) -> bool {
        self.buffer@.len() >= 4 && self.write < self.buffer@.len()
    }

    /// A ring remembers as much as it holds.
    pub proof fn holds_enough(&self)
        requires
            self.well_formed(),
        ensures
            self@.len() >= 4,
    {
    }

    /// Allocates: construct off the audio thread.
    pub fn with_capacity(frames: usize) -> (ring: Self)
        ensures
            ring.well_formed(),
            ring@ == forgotten::<S>(if frames < 4 { 4 } else { frames as nat }),
    {
        let capacity: usize = if frames < 4 {
            4
        } else {
            frames
        };
        let mut buffer: Vec<S> = Vec::with_capacity(capacity);
        while buffer.len() < capacity
            invariant
                buffer@.len() <= capacity,
                forall|i: int| 0 <= i < buffer@.len() ==> buffer[i] == S::of_spec(0),
            decreases capacity - buffer@.len(),
        {
            buffer.push(S::of(0));
        }
        let ring = Ring { buffer, write: 0 };
        assert(ring@ =~= forgotten::<S>(capacity as nat));
        ring
    }

    /// Forget the stored audio. Touches the whole ring: for a discontinuity,
    /// not for a block.
    pub fn clear(&mut self)
        requires
            old(self).well_formed(),
        ensures
            final(self).well_formed(),
            final(self)@ == forgotten::<S>(old(self)@.len()),
    {
        let mut at: usize = 0;
        while at < self.buffer.len()
            invariant
                at <= self.buffer@.len() == old(self).buffer@.len(),
                self.write == old(self).write,
                forall|i: int| 0 <= i < at ==> self.buffer[i] == S::of_spec(0),
            decreases self.buffer@.len() - at,
        {
            self.buffer[at] = S::of(0);
            at = at + 1;
        }
        self.write = 0;
        assert(self@ =~= forgotten::<S>(old(self)@.len()));
    }

    pub fn capacity(&self) -> (frames: usize)
        ensures
            frames == self@.len(),
    {
        self.buffer.len()
    }

    pub fn write(&mut self, value: S)
        requires
            old(self).well_formed(),
        ensures
            final(self).well_formed(),
            final(self)@ == remembered(old(self)@, value),
    {
        let at: usize = self.write;
        let capacity: usize = self.buffer.len();
        self.buffer[at] = value;
        self.write = if at + 1 >= capacity {
            0
        } else {
            at + 1
        };
        assert(self@ =~= remembered(old(self)@, value));
    }

    /// The sample written `age` samples before the newest.
    pub fn sample(&self, age: usize) -> (value: S)
        requires
            self.well_formed(),
            age < self@.len(),
        ensures
            value == self@[age as int],
    {
        let capacity: usize = self.buffer.len();
        let index: usize = if self.write > age {
            self.write - 1 - age
        } else {
            capacity - 1 - (age - self.write)
        };
        self.buffer[index]
    }

    /// Read `delay` samples behind the write head. `delay` is clamped into
    /// the ring, so a parameter can never read what was never written.
    pub fn read(&self, delay: S) -> (value: S)
        requires
            self.well_formed(),
        ensures
            value == heard(self@, delay),
    {
        let capacity: usize = self.buffer.len();
        let held = clamp(delay, S::of(1), S::of(capacity).sub(S::of(2)));
        let whole: usize = held.whole();
        let back: usize = if whole < 1 {
            1
        } else if whole > capacity - 2 {
            capacity - 2
        } else {
            whole
        };
        let part = held.sub(S::of(back));
        // The head and the distance back both lie inside the ring, so their
        // difference is within one lap of it.
        let index: usize = if self.write >= back {
            self.write - back
        } else {
            capacity - (back - self.write)
        };
        let previous: usize = if index == 0 {
            capacity - 1
        } else {
            index - 1
        };
        assert(self@[back - 1] == self.buffer[index as int]);
        assert(self@[back as int] == self.buffer[previous as int]);
        self.buffer[index].mul(S::of(1).sub(part)).add(self.buffer[previous].mul(part))
    }
}

/// A sample that was written is remembered one place further back with every
/// sample written after it, until it is forgotten.
pub proof fn samples_age_one_place_at_a_time<S>(past: Seq<S>, value: S, age: int)
    requires
        0 <= age < past.len(),
    ensures
        remembered(past, value).len() == past.len(),
        remembered(past, value)[0] == value,
        age + 1 < past.len() ==> remembered(past, value)[age + 1] == past[age],
{
}

/// A row of samples of fixed length: one goes in, and the oldest comes out.
pub struct Shift<S> {
    buffer: Vec<S>,
    write: usize,
}

impl<S> Shift<S> {
    /// Where the sample that went in `age` samples before the newest lies.
    closed spec fn place(&self, age: int) -> int {
        let at = self.write - 1 - age;
        if at < 0 {
            at + self.buffer@.len()
        } else {
            at
        }
    }
}

impl<S> View for Shift<S> {
    type V = Seq<S>;

    /// What is in the row, newest first.
    closed spec fn view(&self) -> Seq<S> {
        Seq::new(self.buffer@.len(), |age: int| self.buffer[self.place(age)])
    }
}

impl<S: Copy> Shift<S> {
    /// The row holds something and the head lies inside it.
    pub closed spec fn well_formed(&self) -> bool {
        self.write < self.buffer@.len()
    }

    /// A row of `frames` samples, all of one value.
    pub fn filled(frames: usize, value: S) -> (row: Self)
        requires
            frames > 0,
        ensures
            row.well_formed(),
            row@ == Seq::new(frames as nat, |i: int| value),
    {
        let mut buffer: Vec<S> = Vec::with_capacity(frames);
        while buffer.len() < frames
            invariant
                buffer@.len() <= frames,
                forall|i: int| 0 <= i < buffer@.len() ==> buffer[i] == value,
            decreases frames - buffer@.len(),
        {
            buffer.push(value);
        }
        let row = Shift { buffer, write: 0 };
        assert(row@ =~= Seq::new(frames as nat, |i: int| value));
        row
    }

    /// Set every sample of the row to one value.
    pub fn fill(&mut self, value: S)
        requires
            old(self).well_formed(),
        ensures
            final(self).well_formed(),
            final(self)@ == Seq::new(old(self)@.len(), |i: int| value),
    {
        let mut at: usize = 0;
        while at < self.buffer.len()
            invariant
                at <= self.buffer@.len() == old(self).buffer@.len(),
                self.write == old(self).write,
                forall|i: int| 0 <= i < at ==> self.buffer[i] == value,
            decreases self.buffer@.len() - at,
        {
            self.buffer[at] = value;
            at = at + 1;
        }
        assert(self@ =~= Seq::new(old(self)@.len(), |i: int| value));
    }

    pub fn len(&self) -> (frames: usize)
        ensures
            frames == self@.len(),
    {
        self.buffer.len()
    }

    /// Put a sample in and take the oldest out.
    pub fn pass(&mut self, value: S) -> (leaving: S)
        requires
            old(self).well_formed(),
        ensures
            final(self).well_formed(),
            old(self)@.len() > 0,
            final(self)@ == remembered(old(self)@, value),
            leaving == old(self)@.last(),
    {
        let at: usize = self.write;
        let capacity: usize = self.buffer.len();
        let leaving = self.buffer[at];
        self.buffer[at] = value;
        self.write = if at + 1 >= capacity {
            0
        } else {
            at + 1
        };
        assert(self@ =~= remembered(old(self)@, value));
        leaving
    }
}

/// A sample comes out of a row of `past.len()` samples that many samples after
/// it went in, and nothing else does.
pub proof fn a_row_delays_by_its_length<S>(past: Seq<S>, values: Seq<S>)
    requires
        past.len() > 0,
        values.len() >= past.len(),
    ensures
        passed(past, values).len() == past.len(),
        forall|age: int|
            0 <= age < past.len() ==> passed(past, values)[age] == values[values.len() - 1 - age],
    decreases values.len(),
{
    lemma_passed(past, values);
}

/// A row after a number of samples were put in.
pub open spec fn passed<S>(past: Seq<S>, values: Seq<S>) -> Seq<S>
    decreases values.len(),
{
    if values.len() == 0 {
        past
    } else {
        remembered(passed(past, values.drop_last()), values.last())
    }
}

proof fn lemma_passed<S>(past: Seq<S>, values: Seq<S>)
    requires
        past.len() > 0,
    ensures
        passed(past, values).len() == past.len(),
        forall|age: int|
            0 <= age < past.len() && age < values.len() ==> passed(past, values)[age]
                == values[values.len() - 1 - age],
    decreases values.len(),
{
    if values.len() > 0 {
        lemma_passed(past, values.drop_last());
    }
}

/// A Schroeder allpass diffuser: a delay tap whose feedforward and feedback
/// gains cancel, so it reshapes echo density without colouring the response.
pub struct Diffuser<S> {
    pub ring: Ring<S>,
    pub len: S,
    pub target_len: S,
}

/// What a diffuser is, apart from where its samples lie.
pub struct DiffuserState<S> {
    pub past: Seq<S>,
    pub len: S,
    pub target_len: S,
}

/// A diffuser whose length has moved one step to its target.
pub open spec fn diffuser_glided<S: Sample>(d: DiffuserState<S>, glide: S) -> DiffuserState<S> {
    DiffuserState { len: glided(d.len, d.target_len, glide), ..d }
}

/// What a diffuser stores of an input.
pub open spec fn diffuser_stored<S: Sample>(d: DiffuserState<S>, input: S, gain: S) -> S {
    input.plus(heard(d.past, d.len).times(gain))
}

/// What a diffuser makes of an input, its length standing still.
pub open spec fn diffused_still<S: Sample>(d: DiffuserState<S>, input: S, gain: S) -> S {
    heard(d.past, d.len).minus(diffuser_stored(d, input, gain).times(gain))
}

/// A diffuser after an input, its length standing still.
pub open spec fn diffuser_after_still<S: Sample>(
    d: DiffuserState<S>,
    input: S,
    gain: S,
) -> DiffuserState<S> {
    DiffuserState { past: remembered(d.past, diffuser_stored(d, input, gain)), ..d }
}

/// What a diffuser makes of an input.
pub open spec fn diffused<S: Sample>(d: DiffuserState<S>, input: S, gain: S, glide: S) -> S {
    diffused_still(diffuser_glided(d, glide), input, gain)
}

/// A diffuser after an input.
pub open spec fn diffuser_after<S: Sample>(
    d: DiffuserState<S>,
    input: S,
    gain: S,
    glide: S,
) -> DiffuserState<S> {
    diffuser_after_still(diffuser_glided(d, glide), input, gain)
}

/// Whether one more step leaves the length where it is. Every later step then
/// does too, so the glide may be skipped until the target or the coefficient
/// changes.
pub open spec fn diffuser_at_rest<S: Sample>(d: DiffuserState<S>, glide: S) -> bool {
    glided(d.len, d.target_len, glide) == d.len
}

impl<S> View for Diffuser<S> {
    type V = DiffuserState<S>;

    open spec fn view(&self) -> DiffuserState<S> {
        DiffuserState { past: self.ring@, len: self.len, target_len: self.target_len }
    }
}

impl<S: Sample> Diffuser<S> {
    pub open spec fn well_formed(&self) -> bool {
        self.ring.well_formed()
    }

    /// A diffuser over a ring of `capacity` frames, at full length: four
    /// frames short of the ring.
    pub fn with_capacity(capacity: usize) -> (diffuser: Self)
        ensures
            diffuser.well_formed(),
            diffuser@ == (DiffuserState {
                past: forgotten::<S>(if capacity < 4 { 4 } else { capacity as nat }),
                len: S::of_spec(capacity as nat).minus(S::of_spec(4)),
                target_len: S::of_spec(capacity as nat).minus(S::of_spec(4)),
            }),
    {
        let len = S::of(capacity).sub(S::of(4));
        Diffuser { ring: Ring::with_capacity(capacity), len, target_len: len }
    }

    pub fn clear(&mut self)
        requires
            old(self).well_formed(),
        ensures
            final(self).well_formed(),
            final(self)@ == (DiffuserState {
                past: forgotten::<S>(old(self)@.past.len()),
                ..old(self)@
            }),
    {
        self.ring.clear();
    }

    pub fn set_len(&mut self, len: S)
        requires
            old(self).well_formed(),
        ensures
            final(self).well_formed(),
            final(self)@ == (DiffuserState {
                target_len: reachable(old(self)@.past.len(), len),
                ..old(self)@
            }),
    {
        self.target_len = clamp(len, S::of(1), S::of(self.ring.capacity()).sub(S::of(2)));
    }

    /// The part of `process` that runs on the clock rather than on the
    /// input, for a block the host skipped.
    pub fn step_silent(&mut self, glide: S)
        requires
            old(self).well_formed(),
        ensures
            final(self).well_formed(),
            final(self)@ == diffuser_glided(old(self)@, glide),
    {
        self.len = self.len.add(self.target_len.sub(self.len).mul(glide));
    }

    pub fn at_rest(&self, glide: S) -> (answer: bool)
        ensures
            answer == diffuser_at_rest(self@, glide),
    {
        self.len.add(self.target_len.sub(self.len).mul(glide)).same(self.len)
    }

    pub fn process(&mut self, input: S, gain: S, glide: S) -> (out: S)
        requires
            old(self).well_formed(),
        ensures
            final(self).well_formed(),
            final(self)@ == diffuser_after(old(self)@, input, gain, glide),
            out == diffused(old(self)@, input, gain, glide),
    {
        self.len = self.len.add(self.target_len.sub(self.len).mul(glide));
        self.process_at_rest(input, gain)
    }

    /// `process` without the glide, for a diffuser at rest.
    pub fn process_at_rest(&mut self, input: S, gain: S) -> (out: S)
        requires
            old(self).well_formed(),
        ensures
            final(self).well_formed(),
            final(self)@ == diffuser_after_still(old(self)@, input, gain),
            out == diffused_still(old(self)@, input, gain),
    {
        let delayed = self.ring.read(self.len);
        let stored = input.add(delayed.mul(gain));
        self.ring.write(stored);
        delayed.sub(stored.mul(gain))
    }
}

/// A diffuser at rest does without its glide exactly what it does with it, and
/// is at rest afterwards.
pub proof fn a_resting_diffuser_needs_no_glide<S: Sample>(
    d: DiffuserState<S>,
    input: S,
    gain: S,
    glide: S,
)
    requires
        diffuser_at_rest(d, glide),
    ensures
        diffuser_after(d, input, gain, glide) == diffuser_after_still(d, input, gain),
        diffused(d, input, gain, glide) == diffused_still(d, input, gain),
        diffuser_at_rest(diffuser_after(d, input, gain, glide), glide),
{
}

/// Whether the newest `count` samples of a memory lie within a bound.
pub open spec fn newest_within(past: Seq<Fixed>, count: int, bound: int) -> bool {
    forall|i: int| 0 <= i < count ==> within(#[trigger] past[i], bound)
}

/// A reading between two samples is no further from nothing than what it can
/// reach of the memory.
pub proof fn a_reading_stays_within(past: Seq<Fixed>, delay: Fixed, reach: int, bound: int)
    requires
        3 <= past.len() <= 0x4000_0000,
        samples_back(past.len(), delay) < reach,
        newest_within(past, reach, bound),
    ensures
        within(heard(past, delay), bound),
{
    let f = FRACTION as int;
    let capacity = past.len();
    let held = reachable(capacity, delay);
    let back = samples_back(capacity, delay);
    let raw = held.raw as int;
    assert(f <= raw <= (capacity - 2) * f);
    let whole = raw / f;
    assert(whole * f <= raw < whole * f + f && 1 <= whole <= capacity - 2) by (nonlinear_arith)
        requires
            whole == raw / f,
            f <= raw <= (capacity - 2) * f,
            f == 0x1_0000_0000,
    ;
    assert(back == whole);
    let part = held.minus(Fixed::of_spec(back as nat));
    assert(is_gain(part));
    assert(within(past[back - 1], bound) && within(past[back], bound));
    a_blend_stays_within(past[back - 1], past[back], part, bound);
}

/// What is left over a bound after some samples of a lag whose input is within
/// it.
pub open spec fn excess_left(excess: int, coeff: Fixed, frames: nat) -> int
    decreases frames,
{
    if frames == 0 {
        excess
    } else {
        let before = excess_left(excess, coeff, (frames - 1) as nat);
        before - before * coeff.raw / (FRACTION as int)
    }
}

/// A lag nears the bound of its input: what lies over it shrinks by the lag's
/// own share.
pub proof fn a_lag_nears_its_input(
    state: Fixed,
    input: Fixed,
    coeff: Fixed,
    bound: int,
    excess: int,
)
    requires
        is_gain(coeff),
        0 <= bound,
        0 <= excess,
        bound + excess <= 0x1000_0000_0000_0000,
        within(input, bound),
        within(state, bound + excess),
    ensures
        ({
            let left = excess - excess * coeff.raw / (FRACTION as int);
            &&& 0 <= left <= excess
            &&& within(state.plus(input.minus(state).times(coeff)), bound + left)
        }),
{
    let f = FRACTION as int;
    let c = coeff.raw as int;
    let rise = input.minus(state);
    a_gain_shrinks(coeff, rise);
    products_commute(coeff, rise);
    let over = magnitude(state.raw as int) - bound;
    let left = excess - excess * c / f;
    assert(0 <= left <= excess) by (nonlinear_arith)
        requires
            left == excess - excess * c / f,
            0 <= excess,
            0 <= c <= f,
            f == 0x1_0000_0000,
    {
        assert(0 <= excess * c <= excess * f);
    }
    if over > 0 {
        let n = magnitude(rise.raw as int);
        let moved = n * c / f;
        assert(n >= over);
        assert(magnitude(rise.times(coeff).raw as int) == moved) by {
            lemma_share_of(rise, coeff);
        }
        assert(over - moved <= left) by (nonlinear_arith)
            requires
                moved == n * c / f,
                left == excess - excess * c / f,
                0 < over <= n,
                over <= excess,
                0 <= c <= f,
                f == 0x1_0000_0000,
        {
            let a = over * c / f;
            let b = excess * c / f;
            assert(over * c <= n * c);
            assert(a <= moved);
            assert((excess - over) * c <= (excess - over) * f);
            assert(excess * c == over * c + (excess - over) * c);
            assert(excess * c <= over * c + (excess - over) * f);
            assert(b <= a + (excess - over));
        }
    }
}

proof fn lemma_share_of(value: Fixed, gain: Fixed)
    requires
        is_gain(gain),
    ensures
        magnitude(value.times(gain).raw as int) == magnitude(value.raw as int) * gain.raw / (
            FRACTION as int),
{
    let f = FRACTION as int;
    let x = magnitude(value.raw as int);
    let g = gain.raw as int;
    let raw = value.raw as int;
    assert(magnitude(raw * g) == x * g && 0 <= x * g) by (nonlinear_arith)
        requires
            x == (if raw < 0 { -raw } else { raw }),
            0 <= g,
            magnitude(raw * g) == (if raw * g < 0 { -(raw * g) } else { raw * g }),
    ;
    let p = x * g / f;
    assert(0 <= p <= x) by (nonlinear_arith)
        requires
            p == x * g / f,
            0 <= x,
            0 <= g <= f,
            f == 0x1_0000_0000,
    {
        assert(0 <= x * g <= x * f);
    }
    assert(magnitude(raw * g) / f == p);
    assert(quotient(raw * g, f) == p || quotient(raw * g, f) == -p);
    assert(raw * g >= 0 && raw < 0 ==> x * g == 0) by (nonlinear_arith)
        requires
            0 <= g,
            raw < 0 ==> x == -raw,
    ;
    assert(0int / f == 0);
    assert(raw * g >= 0 ==> p <= i64::MAX);
    assert(value.times(gain) == saturated(quotient(raw * g, f)));
}

} // verus!
