//! A stereo delay line read between its samples, and a head that can jump.

use vstd::prelude::*;

use crate::num::{
    clamp, clamp_of, magnitude, nothing_times, products_commute, ratio, ratio_of, within, Fixed,
    Sample, FRACTION,
};
use crate::ring::{forgotten, remembered, Ring};

verus! {

/// The nearest to the newest sample a line is read: the interpolator looks one
/// sample past the point.
pub const MIN_READ_OFFSET: usize = 1;

/// The fewest frames a line holds.
pub const MIN_LINE_FRAMES: usize = 8;

/// A stereo delay line.
pub struct DelayLine<S> {
    left: Ring<S>,
    right: Ring<S>,
}

/// What a line remembers, newest first.
pub struct Tape<S> {
    pub l: Seq<S>,
    pub r: Seq<S>,
}

impl<S> View for DelayLine<S> {
    type V = Tape<S>;

    closed spec fn view(&self) -> Tape<S> {
        Tape { l: self.left@, r: self.right@ }
    }
}

/// The furthest back a line of so many frames is read.
pub open spec fn furthest<S: Sample>(frames: nat) -> S {
    S::of_spec(frames).minus(S::of_spec(3))
}

/// An offset held inside a line.
pub open spec fn offset_in<S: Sample>(frames: nat, offset: S) -> S {
    clamp_of(offset, S::of_spec(MIN_READ_OFFSET as nat), furthest(frames))
}

/// The whole samples of an offset.
pub open spec fn whole_offset<S: Sample>(frames: nat, offset: S) -> int {
    let whole = offset_in(frames, offset).whole_spec() as int;
    if whole < 1 {
        1
    } else if whole > frames - 3 {
        frames - 3
    } else {
        whole
    }
}

/// A curve through four samples, `part` of the way from the second to the
/// third.
pub open spec fn hermite_of<S: Sample>(before: S, from: S, to: S, past: S, part: S) -> S {
    let half = ratio_of::<S>(1, 2);
    let c1 = half.times(to.minus(before));
    let c2 = before.minus(ratio_of::<S>(5, 2).times(from)).plus(S::of_spec(2).times(to)).minus(
        half.times(past),
    );
    let c3 = half.times(past.minus(before)).plus(ratio_of::<S>(3, 2).times(from.minus(to)));
    c3.times(part).plus(c2).times(part).plus(c1).times(part).plus(from)
}

fn hermite<S: Sample>(before: S, from: S, to: S, past: S, part: S) -> (value: S)
    ensures
        value == hermite_of(before, from, to, past, part),
{
    let half = ratio::<S>(1, 2);
    let c1 = half.mul(to.sub(before));
    let c2 = before.sub(ratio::<S>(5, 2).mul(from)).add(S::of(2).mul(to)).sub(half.mul(past));
    let c3 = half.mul(past.sub(before)).add(ratio::<S>(3, 2).mul(from.sub(to)));
    c3.mul(part).add(c2).mul(part).add(c1).mul(part).add(from)
}

/// One channel read `offset` samples before the newest.
pub open spec fn read_at<S: Sample>(past: Seq<S>, offset: S) -> S {
    let whole = whole_offset(past.len(), offset);
    hermite_of(
        past[whole - 1],
        past[whole],
        past[whole + 1],
        past[whole + 2],
        offset_in(past.len(), offset).minus(S::of_spec(whole as nat)),
    )
}

/// Both channels read at an offset.
pub open spec fn tape_at<S: Sample>(tape: Tape<S>, offset: S) -> (S, S) {
    (read_at(tape.l, offset), read_at(tape.r, offset))
}

/// A tape with one more frame on it.
pub open spec fn taped<S>(tape: Tape<S>, l: S, r: S) -> Tape<S> {
    Tape { l: remembered(tape.l, l), r: remembered(tape.r, r) }
}

/// A tape with nothing on it.
pub open spec fn blank<S: Sample>(frames: nat) -> Tape<S> {
    Tape { l: forgotten(frames), r: forgotten(frames) }
}

/// A tape with some frames of silence on it.
pub open spec fn taped_silence<S: Sample>(tape: Tape<S>, frames: nat) -> Tape<S>
    decreases frames,
{
    if frames == 0 {
        tape
    } else {
        taped(taped_silence(tape, (frames - 1) as nat), S::of_spec(0), S::of_spec(0))
    }
}

impl<S: Sample> DelayLine<S> {
    pub closed spec fn well_formed(&self) -> bool {
        &&& self.left.well_formed()
        &&& self.right.well_formed()
        &&& self.left@.len() == self.right@.len()
        &&& self.left@.len() >= MIN_LINE_FRAMES
    }

    /// Both channels of a line are of one length, with room to read in.
    pub proof fn has_room(&self)
        requires
            self.well_formed(),
        ensures
            self@.l.len() == self@.r.len(),
            self@.l.len() >= MIN_LINE_FRAMES,
    {
    }

    /// Allocates: construct off the audio thread.
    pub fn with_capacity_frames(frames: usize) -> (line: Self)
        ensures
            line.well_formed(),
            line@ == blank::<S>(
                if frames < MIN_LINE_FRAMES { MIN_LINE_FRAMES as nat } else { frames as nat },
            ),
    {
        let held: usize = if frames < MIN_LINE_FRAMES {
            MIN_LINE_FRAMES
        } else {
            frames
        };
        DelayLine { left: Ring::with_capacity(held), right: Ring::with_capacity(held) }
    }

    pub fn clear(&mut self)
        requires
            old(self).well_formed(),
        ensures
            final(self).well_formed(),
            final(self)@ == blank::<S>(old(self)@.l.len()),
    {
        self.left.clear();
        self.right.clear();
    }

    pub fn max_read_offset(&self) -> (offset: S)
        ensures
            offset == furthest::<S>(self@.l.len()),
    {
        S::of(self.left.capacity()).sub(S::of(3))
    }

    pub fn write(&mut self, l: S, r: S)
        requires
            old(self).well_formed(),
        ensures
            final(self).well_formed(),
            final(self)@ == taped(old(self)@, l, r),
    {
        self.left.write(l);
        self.right.write(r);
    }

    /// Write `frames` frames of silence.
    pub fn write_silence(&mut self, frames: usize)
        requires
            old(self).well_formed(),
        ensures
            final(self).well_formed(),
            final(self)@ == taped_silence(old(self)@, frames as nat),
    {
        let mut at: usize = 0;
        while at < frames
            invariant
                at <= frames,
                self.well_formed(),
                self@ == taped_silence(old(self)@, at as nat),
            decreases frames - at,
        {
            self.write(S::of(0), S::of(0));
            at = at + 1;
        }
    }

    /// Read both channels `offset` samples before the newest frame. The offset
    /// is clamped into the line.
    pub fn read(&self, offset: S) -> (frame: (S, S))
        requires
            self.well_formed(),
        ensures
            frame == tape_at(self@, offset),
    {
        let frames: usize = self.left.capacity();
        let held = clamp(
            offset,
            S::of(MIN_READ_OFFSET),
            S::of(frames).sub(S::of(3)),
        );
        let count: usize = held.whole();
        let whole: usize = if count < 1 {
            1
        } else if count > frames - 3 {
            frames - 3
        } else {
            count
        };
        let part = held.sub(S::of(whole));
        (
            hermite(
                self.left.sample(whole - 1),
                self.left.sample(whole),
                self.left.sample(whole + 1),
                self.left.sample(whole + 2),
                part,
            ),
            hermite(
                self.right.sample(whole - 1),
                self.right.sample(whole),
                self.right.sample(whole + 1),
                self.right.sample(whole + 2),
                part,
            ),
        )
    }
}

/// A read head: where it reads, and where it jumped from while it fades.
#[derive(Clone, Copy, Debug)]
pub struct ReadHead<S> {
    pub offset: S,
    pub from: S,
    pub fade_left: u32,
    pub fade_len: u32,
}

/// What a head reads: where it is, faded over from where it jumped.
pub open spec fn head_reads<S: Sample>(head: ReadHead<S>, tape: Tape<S>) -> (S, S) {
    let (l, r) = tape_at(tape, head.offset);
    if head.fade_left == 0 {
        (l, r)
    } else {
        let (old_l, old_r) = tape_at(tape, head.from);
        let left = S::of_spec(head.fade_left as nat).over(S::of_spec(head.fade_len as nat));
        let done = S::of_spec(1).minus(left);
        (
            l.times(done).plus(old_l.times(left)),
            r.times(done).plus(old_r.times(left)),
        )
    }
}

/// A head one frame on, drifted against the advancing line.
pub open spec fn head_after<S: Sample>(head: ReadHead<S>, drift: S) -> ReadHead<S> {
    ReadHead {
        offset: head.offset.plus(drift),
        from: head.from.plus(drift),
        fade_left: if head.fade_left > 0 {
            (head.fade_left - 1) as u32
        } else {
            0
        },
        ..head
    }
}

/// A head that has jumped and begins to fade.
pub open spec fn head_jumped<S: Sample>(head: ReadHead<S>, offset: S, fade: u32) -> ReadHead<S> {
    ReadHead { offset, from: head.offset, fade_left: fade, fade_len: fade }
}

impl<S: Sample> ReadHead<S> {
    pub fn new(offset: S) -> (head: Self)
        ensures
            head == (ReadHead { offset, from: offset, fade_left: 0, fade_len: 0 }),
    {
        ReadHead { offset, from: offset, fade_left: 0, fade_len: 0 }
    }

    pub fn offset(&self) -> (offset: S)
        ensures
            offset == self.offset,
    {
        self.offset
    }

    /// Jump to another offset, fading over from this one.
    pub fn jump_to(&mut self, offset: S, fade: u32)
        ensures
            *final(self) == head_jumped(*old(self), offset, fade),
    {
        self.from = self.offset;
        self.offset = offset;
        self.fade_left = fade;
        self.fade_len = fade;
    }

    pub fn read(&self, line: &DelayLine<S>) -> (frame: (S, S))
        requires
            line.well_formed(),
        ensures
            frame == head_reads(*self, line@),
    {
        let (l, r) = line.read(self.offset);
        if self.fade_left == 0 {
            return (l, r);
        }
        let (old_l, old_r) = line.read(self.from);
        let left = S::of(self.fade_left as usize).div(S::of(self.fade_len as usize));
        let done = S::of(1).sub(left);
        (l.mul(done).add(old_l.mul(left)), r.mul(done).add(old_r.mul(left)))
    }

    pub fn advance(&mut self, drift: S)
        ensures
            *final(self) == head_after(*old(self), drift),
    {
        self.offset = self.offset.add(drift);
        self.from = self.from.add(drift);
        if self.fade_left > 0 {
            self.fade_left = self.fade_left - 1;
        }
    }
}

/// A line read at a whole offset gives back the sample that lies there, exactly.
pub proof fn a_whole_offset_reads_its_sample(past: Seq<Fixed>, whole: int)
    requires
        MIN_LINE_FRAMES <= past.len() <= 0x4000_0000,
        1 <= whole <= past.len() - 3,
    ensures
        read_at(past, Fixed::of_spec(whole as nat)) == past[whole],
{
    let f = FRACTION as int;
    let zero = Fixed::of_spec(0);
    let offset = Fixed::of_spec(whole as nat);
    assert(offset_in(past.len(), offset) == offset);
    assert((whole * f) / f == whole) by (nonlinear_arith)
        requires
            f == 0x1_0000_0000,
    ;
    assert forall|c: Fixed| #[trigger] c.times(zero) == zero by {
        nothing_times(c);
        products_commute(c, zero);
    }
}

/// A product in counts, and what rounding took or gave.
proof fn lemma_rounded(a: Fixed, b: Fixed, scale: int) -> (rounding: int)
    requires
        0 <= a.raw <= scale * FRACTION,
        0 < scale <= 4,
        within(b, 0x400_0000_0000_0000),
    ensures
        FRACTION * a.times(b).raw == a.raw * b.raw + rounding,
        -FRACTION < rounding < FRACTION,
        within(a.times(b), scale * magnitude(b.raw as int)),
{
    let f = FRACTION as int;
    let m = magnitude(b.raw as int);
    let n = a.raw * m;
    let p = n / f;
    assert(0 <= n <= (scale * f) * m) by (nonlinear_arith)
        requires
            n == a.raw * m,
            0 <= a.raw <= scale * f,
            0 <= m,
    ;
    assert(p * f <= n < p * f + f && 0 <= p <= scale * m) by (nonlinear_arith)
        requires
            p == n / f,
            0 <= n <= (scale * f) * m,
            f == 0x1_0000_0000,
    ;
    assert(scale * m <= 4 * m) by (nonlinear_arith)
        requires
            scale <= 4,
            0 <= m,
    ;
    assert(0int / f == 0);
    if b.raw < 0 {
        assert(a.raw * b.raw == -n) by (nonlinear_arith)
            requires
                n == a.raw * m,
                m == -b.raw,
        ;
        assert(a.times(b).raw == -p);
        -(p * f) - a.raw * b.raw
    } else {
        assert(a.times(b).raw == p);
        p * f - a.raw * b.raw
    }
}

/// The weights of a curve through four samples, in counts, come to no more than
/// five quarters together.
proof fn lemma_weights(t: int, p0: int, p1: int, p2: int, p3: int, bound: int)
    requires
        0 <= t <= FRACTION,
        -bound <= p0 <= bound,
        -bound <= p1 <= bound,
        -bound <= p2 <= bound,
        -bound <= p3 <= bound,
    ensures
        ({
            let f = FRACTION as int;
            let u = f - t;
            let sum = (u * (2 * (f * f) + 2 * (f * t) - 3 * (t * t))) * p1 + (t * (f * f + 4 * (f
                * t) - 3 * (t * t))) * p2 - (t * (u * u)) * p0 - ((t * t) * u) * p3;
            -(5 * (f * (f * f)) * bound) <= 2 * sum <= 5 * (f * (f * f)) * bound
        }),
{
    let f = FRACTION as int;
    let u = f - t;
    let w1 = u * (2 * (f * f) + 2 * (f * t) - 3 * (t * t));
    let w2 = t * (f * f + 4 * (f * t) - 3 * (t * t));
    let w0 = t * (u * u);
    let w3 = (t * t) * u;
    assert(t * t <= f * t && f * t <= f * f) by (nonlinear_arith)
        requires
            0 <= t <= f,
    ;
    assert(0 <= w1) by (nonlinear_arith)
        requires
            w1 == u * (2 * (f * f) + 2 * (f * t) - 3 * (t * t)),
            0 <= u,
            t * t <= f * t,
            f * t <= f * f,
    ;
    assert(0 <= w2) by (nonlinear_arith)
        requires
            w2 == t * (f * f + 4 * (f * t) - 3 * (t * t)),
            0 <= t,
            t * t <= f * t,
            0 <= f * t,
            0 <= f * f,
    ;
    assert(0 <= w0 && 0 <= w3) by (nonlinear_arith)
        requires
            w0 == t * (u * u),
            w3 == (t * t) * u,
            0 <= t,
            0 <= u,
    ;
    lemma_weigh(w0, p0, bound);
    lemma_weigh(w1, p1, bound);
    lemma_weigh(w2, p2, bound);
    lemma_weigh(w3, p3, bound);
    let all = w0 + w1 + w2 + w3;
    let cube = f * (f * f);
    assert(all == 2 * cube + 2 * (f * (t * u))) by (nonlinear_arith)
        requires
            all == t * (u * u) + u * (2 * (f * f) + 2 * (f * t) - 3 * (t * t)) + t * (f * f + 4 * (f
                * t) - 3 * (t * t)) + (t * t) * u,
            u == f - t,
            cube == f * (f * f),
    ;
    assert(4 * (t * u) <= f * f) by (nonlinear_arith)
        requires
            u == f - t,
    {
        assert((f - 2 * t) * (f - 2 * t) >= 0);
        assert((f - 2 * t) * (f - 2 * t) == f * f - 4 * (t * (f - t)));
    }
    assert(4 * (f * (t * u)) <= cube) by (nonlinear_arith)
        requires
            4 * (t * u) <= f * f,
            cube == f * (f * f),
            f == 0x1_0000_0000,
    ;
    assert(w0 * bound + w1 * bound + w2 * bound + w3 * bound == all * bound) by (nonlinear_arith)
        requires
            all == w0 + w1 + w2 + w3,
    ;
    assert(2 * (all * bound) <= (5 * cube) * bound) by (nonlinear_arith)
        requires
            2 * all <= 5 * cube,
            0 <= bound,
    ;
}

proof fn lemma_weigh(weight: int, value: int, bound: int)
    requires
        0 <= weight,
        -bound <= value <= bound,
    ensures
        -(weight * bound) <= weight * value <= weight * bound,
{
    assert(-(weight * bound) <= weight * value <= weight * bound) by (nonlinear_arith)
        requires
            0 <= weight,
            -bound <= value <= bound,
    ;
}

/// The parts of a curve put together again, in counts: what is computed step by
/// step is the weighted sum of the four samples and a few counts of rounding.
proof fn lemma_horner(
    f: int,
    t: int,
    p0: int,
    p1: int,
    p2: int,
    p3: int,
    c1: int,
    c2: int,
    c3: int,
    h1: int,
    h2: int,
    h3: int,
    s1: int,
    s2: int,
    s3: int,
    r1: int,
    r2: int,
    r3: int,
)
    requires
        2 * c1 == p2 - p0 + s1,
        2 * c2 == 2 * p0 - 5 * p1 + 4 * p2 - p3 + s2,
        2 * c3 == p3 - p0 + 3 * (p1 - p2) + s3,
        f * h1 == c3 * t + r1,
        f * h2 == (h1 + c2) * t + r2,
        f * h3 == (h2 + c1) * t + r3,
    ensures
        ({
            let u = f - t;
            let sum = (u * (2 * (f * f) + 2 * (f * t) - 3 * (t * t))) * p1 + (t * (f * f + 4 * (f
                * t) - 3 * (t * t))) * p2 - (t * (u * u)) * p0 - ((t * t) * u) * p3;
            2 * (f * (f * (f * (h3 + p1)))) == sum + ((f * (f * t)) * s1 + (f * (t * t)) * s2 + (t
                * (t * t)) * s3) + 2 * (f * (f * r3) + f * (r2 * t) + r1 * (t * t))
        }),
{
    let u = f - t;
    let x = h2 + c1;
    let y = h1 + c2;
    assert(f * (f * (f * h3)) == f * (f * (x * t)) + f * (f * r3)) by (nonlinear_arith)
        requires
            f * h3 == x * t + r3,
    ;
    assert(f * (f * (x * t)) == f * ((f * h2) * t) + f * (f * (c1 * t))) by (nonlinear_arith)
        requires
            x == h2 + c1,
    ;
    let q = f * h2;
    assert(f * (q * t) == f * ((y * t) * t) + f * (r2 * t)) by (nonlinear_arith)
        requires
            q == y * t + r2,
    ;
    assert(f * ((y * t) * t) == (f * h1) * (t * t) + f * (c2 * (t * t))) by (nonlinear_arith)
        requires
            y == h1 + c2,
    ;
    let v = f * h1;
    assert(v * (t * t) == c3 * (t * (t * t)) + r1 * (t * t)) by (nonlinear_arith)
        requires
            v == c3 * t + r1,
    ;
    let t2 = t * t;
    let t3 = t * t2;
    let ft = f * (f * t);
    let ft2 = f * t2;
    assert(f * (f * (c1 * t)) == c1 * ft) by (nonlinear_arith)
        requires
            ft == f * (f * t),
    ;
    assert(f * (c2 * t2) == c2 * ft2) by (nonlinear_arith)
        requires
            ft2 == f * t2,
    ;
    assert(2 * (c1 * ft) == ft * p2 - ft * p0 + ft * s1) by (nonlinear_arith)
        requires
            2 * c1 == p2 - p0 + s1,
    ;
    assert(2 * (c2 * ft2) == 2 * (ft2 * p0) - 5 * (ft2 * p1) + 4 * (ft2 * p2) - ft2 * p3 + ft2 * s2)
        by (nonlinear_arith)
        requires
            2 * c2 == 2 * p0 - 5 * p1 + 4 * p2 - p3 + s2,
    ;
    assert(2 * (c3 * t3) == t3 * p3 - t3 * p0 + 3 * (t3 * p1) - 3 * (t3 * p2) + t3 * s3)
        by (nonlinear_arith)
        requires
            2 * c3 == p3 - p0 + 3 * (p1 - p2) + s3,
    ;
    let cube = f * (f * f);
    assert(f * (f * (f * p1)) == cube * p1) by (nonlinear_arith)
        requires
            cube == f * (f * f),
    ;
    lemma_unfolded_weights(f, t, p0, p1, p2, p3, ft, ft2, t3, cube);
    assert(f * (f * (f * (h3 + p1))) == f * (f * (f * h3)) + f * (f * (f * p1))) by (nonlinear_arith);
}

proof fn lemma_unfolded_weights(
    f: int,
    t: int,
    p0: int,
    p1: int,
    p2: int,
    p3: int,
    ft: int,
    ft2: int,
    t3: int,
    cube: int,
)
    requires
        ft == f * (f * t),
        ft2 == f * (t * t),
        t3 == t * (t * t),
        cube == f * (f * f),
    ensures
        ({
            let u = f - t;
            &&& (u * (2 * (f * f) + 2 * (f * t) - 3 * (t * t))) * p1 == 2 * (cube * p1) - 5 * (ft2
                * p1) + 3 * (t3 * p1)
            &&& (t * (f * f + 4 * (f * t) - 3 * (t * t))) * p2 == ft * p2 + 4 * (ft2 * p2) - 3 * (t3
                * p2)
            &&& (t * (u * u)) * p0 == ft * p0 - 2 * (ft2 * p0) + t3 * p0
            &&& ((t * t) * u) * p3 == ft2 * p3 - t3 * p3
        }),
{
    let u = f - t;
    let w1 = u * (2 * (f * f) + 2 * (f * t) - 3 * (t * t));
    let w2 = t * (f * f + 4 * (f * t) - 3 * (t * t));
    let w0 = t * (u * u);
    let w3 = (t * t) * u;
    assert(w1 == 2 * cube - 5 * ft2 + 3 * t3) by (nonlinear_arith)
        requires
            w1 == u * (2 * (f * f) + 2 * (f * t) - 3 * (t * t)),
            u == f - t,
            ft2 == f * (t * t),
            t3 == t * (t * t),
            cube == f * (f * f),
    ;
    assert(w2 == ft + 4 * ft2 - 3 * t3) by (nonlinear_arith)
        requires
            w2 == t * (f * f + 4 * (f * t) - 3 * (t * t)),
            ft == f * (f * t),
            ft2 == f * (t * t),
            t3 == t * (t * t),
    ;
    assert(w0 == ft - 2 * ft2 + t3) by (nonlinear_arith)
        requires
            w0 == t * (u * u),
            u == f - t,
            ft == f * (f * t),
            ft2 == f * (t * t),
            t3 == t * (t * t),
    ;
    assert(w3 == ft2 - t3) by (nonlinear_arith)
        requires
            w3 == (t * t) * u,
            u == f - t,
            ft2 == f * (t * t),
            t3 == t * (t * t),
    ;
    assert((2 * cube - 5 * ft2 + 3 * t3) * p1 == 2 * (cube * p1) - 5 * (ft2 * p1) + 3 * (t3 * p1))
        by (nonlinear_arith);
    assert((ft + 4 * ft2 - 3 * t3) * p2 == ft * p2 + 4 * (ft2 * p2) - 3 * (t3 * p2))
        by (nonlinear_arith);
    assert((ft - 2 * ft2 + t3) * p0 == ft * p0 - 2 * (ft2 * p0) + t3 * p0) by (nonlinear_arith);
    assert((ft2 - t3) * p3 == ft2 * p3 - t3 * p3) by (nonlinear_arith);
}

/// A half, a half and two, and a half and one, of a number: twice it is the
/// number's own multiple, and a count at the most.
proof fn lemma_halves(b: Fixed)
    requires
        within(b, 0x400_0000_0000_0000),
    ensures
        -1 <= 2 * ratio_of::<Fixed>(1, 2).times(b).raw - b.raw <= 1,
        -1 <= 2 * ratio_of::<Fixed>(3, 2).times(b).raw - 3 * b.raw <= 1,
        -1 <= 2 * ratio_of::<Fixed>(5, 2).times(b).raw - 5 * b.raw <= 1,
        Fixed::of_spec(2).times(b).raw == 2 * b.raw,
{
    let f = FRACTION as int;
    assert((1 * f) * f == 0x1_0000_0000_0000_0000 && (3 * f) * f == 0x3_0000_0000_0000_0000 && (5
        * f) * f == 0x5_0000_0000_0000_0000) by (nonlinear_arith)
        requires
            f == 0x1_0000_0000,
    ;
    assert(ratio_of::<Fixed>(1, 2).raw == 0x8000_0000) by {
        assert(0x1_0000_0000_0000_0000int / 0x2_0000_0000 == 0x8000_0000);
    }
    assert(ratio_of::<Fixed>(3, 2).raw == 0x1_8000_0000) by {
        assert(0x3_0000_0000_0000_0000int / 0x2_0000_0000 == 0x1_8000_0000);
    }
    assert(ratio_of::<Fixed>(5, 2).raw == 0x2_8000_0000) by {
        assert(0x5_0000_0000_0000_0000int / 0x2_0000_0000 == 0x2_8000_0000);
    }
    let e1 = lemma_rounded(ratio_of(1, 2), b, 1);
    let e3 = lemma_rounded(ratio_of(3, 2), b, 2);
    let e5 = lemma_rounded(ratio_of(5, 2), b, 3);
    let e2 = lemma_rounded(Fixed::of_spec(2), b, 2);
}

/// A curve through four samples is no further from nothing than five quarters of
/// them, and a few counts of rounding.
pub proof fn a_curve_stays_within_five_quarters(
    before: Fixed,
    from: Fixed,
    to: Fixed,
    past: Fixed,
    part: Fixed,
    bound: int,
)
    requires
        0 <= part.raw <= FRACTION,
        0 <= bound <= 0x4_0000_0000_0000,
        within(before, bound),
        within(from, bound),
        within(to, bound),
        within(past, bound),
    ensures
        4 * magnitude(hermite_of(before, from, to, past, part).raw as int) <= 5 * bound + 22,
{
    let half = ratio_of::<Fixed>(1, 2);
    let c1 = half.times(to.minus(before));
    let c2 = before.minus(ratio_of::<Fixed>(5, 2).times(from)).plus(
        Fixed::of_spec(2).times(to),
    ).minus(half.times(past));
    let c3 = half.times(past.minus(before)).plus(ratio_of::<Fixed>(3, 2).times(from.minus(to)));
    lemma_curve_parts(before, from, to, past, bound);
    let (h1, r1) = lemma_curve_step(c3, part, 8 * bound + 8);
    let (h2, r2) = lemma_curve_step(h1.plus(c2), part, 16 * bound + 16);
    let (h3, r3) = lemma_curve_step(h2.plus(c1), part, 32 * bound + 32);
    assert(hermite_of(before, from, to, past, part) == h3.plus(from));
    lemma_curve_bound(
        part.raw as int,
        before.raw as int,
        from.raw as int,
        to.raw as int,
        past.raw as int,
        c1.raw as int,
        c2.raw as int,
        c3.raw as int,
        h1.raw as int,
        h2.raw as int,
        h3.raw as int,
        r1,
        r2,
        r3,
        bound,
    );
}

proof fn lemma_curve_step(value: Fixed, part: Fixed, bound: int) -> (out: (Fixed, int))
    requires
        0 <= part.raw <= FRACTION,
        0 <= bound <= 0x400_0000_0000_0000,
        within(value, bound),
    ensures
        out.0 == value.times(part),
        FRACTION * out.0.raw == value.raw * part.raw + out.1,
        -FRACTION < out.1 < FRACTION,
        within(out.0, bound),
{
    products_commute(part, value);
    let rounding = lemma_rounded(part, value, 1);
    assert(part.raw * value.raw == value.raw * part.raw) by (nonlinear_arith);
    (value.times(part), rounding)
}

proof fn lemma_curve_parts(before: Fixed, from: Fixed, to: Fixed, past: Fixed, bound: int)
    requires
        0 <= bound <= 0x4_0000_0000_0000,
        within(before, bound),
        within(from, bound),
        within(to, bound),
        within(past, bound),
    ensures
        ({
            let half = ratio_of::<Fixed>(1, 2);
            let c1 = half.times(to.minus(before));
            let c2 = before.minus(ratio_of::<Fixed>(5, 2).times(from)).plus(
                Fixed::of_spec(2).times(to),
            ).minus(half.times(past));
            let c3 = half.times(past.minus(before)).plus(
                ratio_of::<Fixed>(3, 2).times(from.minus(to)),
            );
            &&& -1 <= 2 * c1.raw - (to.raw - before.raw) <= 1
            &&& -2 <= 2 * c2.raw - (2 * before.raw - 5 * from.raw + 4 * to.raw - past.raw) <= 2
            &&& -2 <= 2 * c3.raw - (past.raw - before.raw + 3 * (from.raw - to.raw)) <= 2
            &&& within(c1, 2 * bound + 1)
            &&& within(c2, 7 * bound + 2)
            &&& within(c3, 5 * bound + 2)
        }),
{
    lemma_halves(to.minus(before));
    lemma_halves(from);
    lemma_halves(to);
    lemma_halves(past);
    lemma_halves(past.minus(before));
    lemma_halves(from.minus(to));
}

proof fn lemma_curve_bound(
    t: int,
    p0: int,
    p1: int,
    p2: int,
    p3: int,
    c1: int,
    c2: int,
    c3: int,
    h1: int,
    h2: int,
    h3: int,
    r1: int,
    r2: int,
    r3: int,
    bound: int,
)
    requires
        0 <= t <= FRACTION,
        0 <= bound,
        -bound <= p0 <= bound,
        -bound <= p1 <= bound,
        -bound <= p2 <= bound,
        -bound <= p3 <= bound,
        -1 <= 2 * c1 - (p2 - p0) <= 1,
        -2 <= 2 * c2 - (2 * p0 - 5 * p1 + 4 * p2 - p3) <= 2,
        -2 <= 2 * c3 - (p3 - p0 + 3 * (p1 - p2)) <= 2,
        FRACTION * h1 == c3 * t + r1,
        FRACTION * h2 == (h1 + c2) * t + r2,
        FRACTION * h3 == (h2 + c1) * t + r3,
        -FRACTION < r1 < FRACTION,
        -FRACTION < r2 < FRACTION,
        -FRACTION < r3 < FRACTION,
    ensures
        4 * magnitude(h3 + p1) <= 5 * bound + 22,
{
    let f = FRACTION as int;
    let s1 = 2 * c1 - (p2 - p0);
    let s2 = 2 * c2 - (2 * p0 - 5 * p1 + 4 * p2 - p3);
    let s3 = 2 * c3 - (p3 - p0 + 3 * (p1 - p2));
    lemma_horner(f, t, p0, p1, p2, p3, c1, c2, c3, h1, h2, h3, s1, s2, s3, r1, r2, r3);
    lemma_weights(t, p0, p1, p2, p3, bound);
    let cube = f * (f * f);
    let ft = f * (f * t);
    let ft2 = f * (t * t);
    let t3 = t * (t * t);
    assert(0 <= ft <= cube && 0 <= ft2 <= cube && 0 <= t3 <= cube) by (nonlinear_arith)
        requires
            ft == f * (f * t),
            ft2 == f * (t * t),
            t3 == t * (t * t),
            cube == f * (f * f),
            0 <= t <= f,
    {
        assert(0 <= f * t <= f * f);
        assert(0 <= t * t <= f * f);
        assert(0 <= f * (f * t) <= f * (f * f));
        assert(0 <= f * (t * t) <= f * (f * f));
        assert(0 <= t * (t * t) <= f * (t * t));
    }
    lemma_weigh(ft, s1, 1);
    lemma_weigh(ft2, s2, 2);
    lemma_weigh(t3, s3, 2);
    assert(-cube <= f * (f * r3) <= cube && -cube <= f * (r2 * t) <= cube && -cube <= r1 * (t * t)
        <= cube) by (nonlinear_arith)
        requires
            cube == f * (f * f),
            -f < r1 < f,
            -f < r2 < f,
            -f < r3 < f,
            0 <= t <= f,
    {
        assert(-(f * f) <= f * r3 <= f * f);
        assert(f * -(f * f) <= f * (f * r3) <= f * (f * f));
        assert(-(f * f) <= r2 * t <= f * f);
        assert(f * -(f * f) <= f * (r2 * t) <= f * (f * f));
        assert(0 <= t * t <= f * f);
        assert(-(f * (t * t)) <= r1 * (t * t) <= f * (t * t));
        assert(f * (t * t) <= f * (f * f));
    }
    let v = h3 + p1;
    assert(4 * magnitude(v) <= 5 * bound + 22) by (nonlinear_arith)
        requires
            -((5 * cube) * bound + 22 * cube) <= 4 * (f * (f * (f * v))) <= (5 * cube) * bound + 22
                * cube,
            cube == f * (f * f),
            f == 0x1_0000_0000,
            magnitude(v) == if v < 0 { -v } else { v },
    {
        assert(f * (f * (f * v)) == cube * v);
        assert((5 * cube) * bound + 22 * cube == cube * (5 * bound + 22));
        assert(4 * (cube * v) == cube * (4 * v));
        assert(0 < cube);
        if 4 * v > 5 * bound + 22 {
            assert(cube * (4 * v) > cube * (5 * bound + 22));
        }
        if -(4 * v) > 5 * bound + 22 {
            assert(cube * -(4 * v) > cube * (5 * bound + 22));
        }
    }
}

/// A line is read within five quarters of what is on it, at any offset.
pub proof fn a_line_reads_within_five_quarters(past: Seq<Fixed>, offset: Fixed, bound: int)
    requires
        MIN_LINE_FRAMES <= past.len() <= 0x4000_0000,
        0 <= bound <= 0x4_0000_0000_0000,
        forall|i: int| 0 <= i < past.len() ==> within(#[trigger] past[i], bound),
    ensures
        4 * magnitude(read_at(past, offset).raw as int) <= 5 * bound + 22,
{
    let f = FRACTION as int;
    let held = offset_in(past.len(), offset);
    let whole = whole_offset(past.len(), offset);
    let raw = held.raw as int;
    let n = raw / f;
    assert(n * f <= raw < n * f + f && 1 <= n <= past.len() - 3) by (nonlinear_arith)
        requires
            n == raw / f,
            f <= raw <= (past.len() - 3) * f,
            f == 0x1_0000_0000,
    ;
    assert(whole == n);
    assert(within(past[whole - 1], bound) && within(past[whole], bound) && within(
        past[whole + 1],
        bound,
    ) && within(past[whole + 2], bound));
    a_curve_stays_within_five_quarters(
        past[whole - 1],
        past[whole],
        past[whole + 1],
        past[whole + 2],
        held.minus(Fixed::of_spec(whole as nat)),
        bound,
    );
}

} // verus!
