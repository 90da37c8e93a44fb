//! Portamento: a pitch that slides to its target in log frequency and arrives
//! in the time it was given.
//!
//! It slides in octaves, linearly, for exactly the glide time, so an octave up
//! and an octave down are mirror images. The position is computed from the
//! elapsed sample count rather than accumulated, so a long slide carries no
//! rounding drift, and it lands on the target exactly.

use vstd::prelude::*;

use crate::curves::{exp2_undoes_log2, Curves};
use crate::dynamics::{count, count_of};
use crate::num::{
    magnitude, max, max_of, min, min_of, ratio, ratio_of, Fixed, Sample, FRACTION,
};

verus! {

/// A pitch that slides.
#[derive(Clone, Copy, Debug)]
pub struct Glide<S> {
    /// Where the current slide started, in octaves.
    pub from: S,
    /// Where it ends, in octaves.
    pub to: S,
    /// Samples the slide lasts, and how many of them have passed. Equal means
    /// arrived.
    pub length: u32,
    pub elapsed: u32,
    /// The pitch this sample, in Hz. Held so an arrived glide costs nothing
    /// per sample.
    pub hz: S,
    /// The target exactly as it was asked for.
    pub target_hz: S,
}

/// The lowest pitch a glide will hold: a thousandth of a Hz. The logarithm of
/// nothing is no place to slide from.
pub open spec fn lowest_hz<S: Sample>() -> S {
    ratio_of(1, 1000)
}

/// A pitch in octaves.
pub open spec fn octave_of<S: Curves>(hz: S) -> S {
    max_of(hz, lowest_hz()).log2_spec()
}

fn to_octave<S: Curves>(hz: S) -> (octave: S)
    ensures
        octave == octave_of(hz),
{
    max(hz, ratio(1, 1000)).log2()
}

/// A glide resting at a pitch.
pub open spec fn glide_at<S: Curves>(hz: S) -> Glide<S> {
    Glide {
        from: octave_of(hz),
        to: octave_of(hz),
        length: 0,
        elapsed: 0,
        hz: max_of(hz, lowest_hz()),
        target_hz: hz,
    }
}

/// A slide's length in samples, before it is rounded to whole ones.
pub open spec fn slide_length<S: Sample>(time_s: S, sample_rate: u32) -> S {
    max_of(time_s, S::of_spec(0)).times(S::of_spec(sample_rate as nat))
}

/// Whether a slide of a length is a jump: shorter than one sample, or of no
/// length that is a number.
pub open spec fn is_jump<S: Sample>(length: S) -> bool {
    !length.equals_spec(length) || length.below(S::of_spec(1))
}

/// A slide's length in whole samples, the nearest.
pub open spec fn slide_samples<S: Sample>(length: S) -> u32 {
    count_of(min_of(length.round_spec(), S::of_spec(0xffff_ffff)).whole_spec())
}

/// A glide that slides from wherever it is.
pub open spec fn glide_sliding<S: Curves>(
    glide: Glide<S>,
    hz: S,
    time_s: S,
    sample_rate: u32,
) -> Glide<S> {
    let length = slide_length(time_s, sample_rate);
    if is_jump(length) {
        glide_at(hz)
    } else {
        Glide {
            from: octave_of(glide.hz),
            to: octave_of(hz),
            target_hz: hz,
            length: slide_samples(length),
            elapsed: 0,
            hz: glide.hz,
        }
    }
}

/// Where a slide is after some of its samples, in octaves.
pub open spec fn octave_at<S: Sample>(from: S, to: S, elapsed: nat, length: nat) -> S {
    from.plus(to.minus(from).times(S::of_spec(elapsed).over(S::of_spec(length))))
}

/// A glide with some samples of its slide passed.
pub open spec fn glide_moved<S: Curves>(glide: Glide<S>, elapsed: u32) -> Glide<S> {
    if elapsed == glide.length {
        Glide { elapsed, from: glide.to, hz: glide.to.exp2_spec(), ..glide }
    } else {
        Glide {
            elapsed,
            hz: octave_at(
                glide.from,
                glide.to,
                elapsed as nat,
                glide.length as nat,
            ).exp2_spec(),
            ..glide
        }
    }
}

/// A glide one sample on.
pub open spec fn glide_next<S: Curves>(glide: Glide<S>) -> Glide<S> {
    if glide.elapsed < glide.length {
        glide_moved(glide, (glide.elapsed + 1) as u32)
    } else {
        glide
    }
}

/// A glide some samples on, one at a time.
pub open spec fn glide_after<S: Curves>(glide: Glide<S>, frames: nat) -> Glide<S>
    decreases frames,
{
    if frames == 0 {
        glide
    } else {
        glide_next(glide_after(glide, (frames - 1) as nat))
    }
}

/// A glide some samples on, at once.
pub open spec fn glide_skipped<S: Curves>(glide: Glide<S>, frames: nat) -> Glide<S> {
    if glide.elapsed >= glide.length || frames == 0 {
        glide
    } else if frames >= glide.length - glide.elapsed {
        glide_moved(glide, glide.length)
    } else {
        glide_moved(glide, (glide.elapsed + frames) as u32)
    }
}

/// Whether a glide heads for another target.
pub open spec fn retargets<S: Sample>(glide: Glide<S>, target_hz: S) -> bool {
    !target_hz.equals_spec(glide.target_hz)
}

impl<S: Curves> Glide<S> {
    /// A glide resting at `hz`.
    pub fn new(hz: S) -> (glide: Self)
        ensures
            glide == glide_at(hz),
    {
        let octave = to_octave(hz);
        Glide {
            from: octave,
            to: octave,
            length: 0,
            elapsed: 0,
            hz: max(hz, ratio(1, 1000)),
            target_hz: hz,
        }
    }

    /// Move to `hz` at once, with no slide.
    pub fn jump_to(&mut self, hz: S)
        ensures
            *final(self) == glide_at(hz),
    {
        *self = Self::new(hz);
    }

    /// Slide from wherever the pitch is now to `hz`, arriving `time_s` from
    /// now. A slide shorter than one sample is a jump. A new slide starting
    /// mid-slide starts from the pitch the old one had reached, and takes the
    /// whole of its own time.
    pub fn slide_to(&mut self, hz: S, time_s: S, sample_rate: u32)
        ensures
            *final(self) == glide_sliding(*old(self), hz, time_s, sample_rate),
    {
        let length = max(time_s, S::of(0)).mul(S::of(sample_rate as usize));
        if !length.equals(length) || length.lt(S::of(1)) {
            self.jump_to(hz);
            return;
        }
        self.from = to_octave(self.hz);
        self.to = to_octave(hz);
        self.target_hz = hz;
        self.length = count(min(length.round(), S::of(0xffff_ffff)).whole());
        self.elapsed = 0;
    }

    /// Advance one sample and return the pitch for it, in Hz. The first sample
    /// of a slide is already one step along it, so a slide of `n` samples
    /// reaches its target on the `n`th call and holds it after.
    pub fn advance(&mut self) -> (hz: S)
        ensures
            *final(self) == glide_next(*old(self)),
            hz == final(self).hz,
    {
        if self.elapsed < self.length {
            self.elapsed = self.elapsed + 1;
            if self.elapsed == self.length {
                self.from = self.to;
                self.hz = self.to.exp2();
            } else {
                let t = S::of(self.elapsed as usize).div(S::of(self.length as usize));
                self.hz = self.from.add(self.to.sub(self.from).mul(t)).exp2();
            }
        }
        self.hz
    }

    /// Advance `frames` samples without reading each one.
    pub fn skip(&mut self, frames: usize)
        ensures
            *final(self) == glide_skipped(*old(self), frames as nat),
    {
        if self.elapsed >= self.length {
            return;
        }
        let remaining: usize = (self.length - self.elapsed) as usize;
        if frames >= remaining {
            self.elapsed = self.length;
            self.from = self.to;
            self.hz = self.to.exp2();
        } else if frames > 0 {
            self.elapsed = self.elapsed + frames as u32;
            let t = S::of(self.elapsed as usize).div(S::of(self.length as usize));
            self.hz = self.from.add(self.to.sub(self.from).mul(t)).exp2();
        }
    }

    /// The pitch now, in Hz.
    pub fn hz(&self) -> (hz: S)
        ensures
            hz == self.hz,
    {
        self.hz
    }

    /// The pitch the glide is heading for, in Hz, exactly as it was given.
    pub fn target_hz(&self) -> (hz: S)
        ensures
            hz == self.target_hz,
    {
        self.target_hz
    }

    /// Head for `target_hz` if that is a new target, then advance one sample.
    /// A voice that must not glide to its new note calls [`Self::jump_to`]
    /// first.
    pub fn follow(&mut self, target_hz: S, time_s: S, sample_rate: u32) -> (hz: S)
        ensures
            *final(self) == glide_next(
                if retargets(*old(self), target_hz) {
                    glide_sliding(*old(self), target_hz, time_s, sample_rate)
                } else {
                    *old(self)
                },
            ),
            hz == final(self).hz,
    {
        if !target_hz.equals(self.target_hz) {
            self.slide_to(target_hz, time_s, sample_rate);
        }
        self.advance()
    }

    /// Whether a slide is still under way.
    pub fn is_sliding(&self) -> (answer: bool)
        ensures
            answer == (self.elapsed < self.length),
    {
        self.elapsed < self.length
    }
}

impl<S: Curves> Default for Glide<S> {
    fn default() -> (glide: Self)
        ensures
            glide == glide_at(S::of_spec(440)),
    {
        Self::new(S::of(440))
    }
}

/// Where a skip leaves the pitch is exactly where that many single steps do.
pub proof fn skipping_is_advancing<S: Curves>(glide: Glide<S>, frames: nat)
    requires
        glide.elapsed <= glide.length,
    ensures
        glide_skipped(glide, frames) == glide_after(glide, frames),
    decreases frames,
{
    if frames > 0 {
        skipping_is_advancing(glide, (frames - 1) as nat);
    }
}

/// A slide of some samples has arrived after exactly that many steps, and not
/// one before.
pub proof fn a_slide_arrives_on_time<S: Curves>(glide: Glide<S>)
    requires
        glide.elapsed == 0,
        glide.length > 0,
    ensures
        ({
            let arrived = glide_after(glide, glide.length as nat);
            let before = glide_after(glide, (glide.length - 1) as nat);
            &&& arrived.elapsed == arrived.length
            &&& arrived.hz == glide.to.exp2_spec()
            &&& before.elapsed < before.length
        }),
{
    skipping_is_advancing(glide, glide.length as nat);
    skipping_is_advancing(glide, (glide.length - 1) as nat);
}

/// An arrived glide holds its pitch.
pub proof fn an_arrived_glide_holds<S: Curves>(glide: Glide<S>, frames: nat)
    requires
        glide.elapsed >= glide.length,
    ensures
        glide_after(glide, frames) == glide,
    decreases frames,
{
    if frames > 0 {
        an_arrived_glide_holds(glide, (frames - 1) as nat);
    }
}

/// A slide up and the same slide down are mirror images: at every sample the
/// one has risen exactly as far as the other has fallen.
pub proof fn up_and_down_are_mirror_images(
    low: Fixed,
    high: Fixed,
    elapsed: nat,
    length: nat,
)
    requires
        crate::num::within(low, 0x2000_0000_0000_0000),
        crate::num::within(high, 0x2000_0000_0000_0000),
        elapsed <= length,
        0 < length,
    ensures
        octave_at(low, high, elapsed, length).raw - low.raw == high.raw - octave_at(
            high,
            low,
            elapsed,
            length,
        ).raw,
{
    let t = Fixed::of_spec(elapsed).over(Fixed::of_spec(length));
    crate::num::a_share_is_a_gain(Fixed::of_spec(elapsed), Fixed::of_spec(length));
    let rise = high.minus(low);
    let fall = low.minus(high);
    assert(fall.raw == -rise.raw);
    crate::num::a_gain_shrinks(t, rise);
    crate::num::a_gain_shrinks(t, fall);
    crate::num::products_mirror(rise, t);
    assert(rise.negated() == fall);
    crate::num::products_commute(t, rise);
    crate::num::products_commute(t, fall);
}

/// A slide runs its course: it is under way on every call but the last, each
/// call is as far along the way in octaves as it is in time, from wherever the
/// pitch was, and from the last call on the pitch is the target's own.
pub proof fn a_slide_runs_its_course<S: Curves>(
    glide: Glide<S>,
    hz: S,
    time_s: S,
    sample_rate: u32,
    calls: nat,
)
    requires
        !is_jump(slide_length(time_s, sample_rate)),
        calls > 0,
    ensures
        ({
            let slide = glide_sliding(glide, hz, time_s, sample_rate);
            let length = slide_samples(slide_length(time_s, sample_rate));
            let after = glide_after(slide, calls);
            &&& slide.hz == glide.hz
            &&& (after.elapsed < after.length) == (calls < length)
            &&& calls < length ==> after.hz == octave_at(
                octave_of(glide.hz),
                octave_of(hz),
                calls,
                length as nat,
            ).exp2_spec()
            &&& length > 0 && calls >= length ==> after.hz == octave_of(hz).exp2_spec()
        }),
{
    let slide = glide_sliding(glide, hz, time_s, sample_rate);
    skipping_is_advancing(slide, calls);
}

/// A slide lands on its target: when the last of its samples has passed, the
/// pitch is the target's to within a millionth of it, which is less than a five
/// hundredth of a cent, and every call after gives that same pitch.
pub proof fn a_slide_lands_within_a_hundredth_of_a_cent(
    glide: Glide<Fixed>,
    hz: Fixed,
    time_s: Fixed,
    sample_rate: u32,
    more: nat,
)
    requires
        lowest_hz::<Fixed>().raw <= hz.raw <= 0x1000_0000_0000_0000,
    ensures
        ({
            let sliding = glide_sliding(glide, hz, time_s, sample_rate);
            let landed = glide_after(sliding, (sliding.length + more) as nat);
            &&& landed.elapsed == landed.length
            &&& 1_000_000 * magnitude(landed.hz.raw - hz.raw) <= hz.raw
            &&& landed.hz == glide_after(sliding, sliding.length as nat).hz
        }),
{
    let sliding = glide_sliding(glide, hz, time_s, sample_rate);
    let f = FRACTION as int;
    assert(lowest_hz::<Fixed>().raw == 4_294_967) by {
        assert((1 * f) * f == 0x1_0000_0000_0000_0000) by (nonlinear_arith)
            requires
                f == 0x1_0000_0000,
        ;
        assert(0x1_0000_0000_0000_0000int / (1000int * 0x1_0000_0000) == 4_294_967);
    }
    exp2_undoes_log2(hz);
    lemma_landed(sliding, (sliding.length + more) as nat);
    lemma_landed(sliding, sliding.length as nat);
}

proof fn lemma_landed(sliding: Glide<Fixed>, frames: nat)
    requires
        sliding.elapsed <= sliding.length,
    ensures
        ({
            let here = glide_after(sliding, frames);
            let passed = sliding.elapsed + frames;
            &&& here.to == sliding.to
            &&& here.length == sliding.length
            &&& here.elapsed == if passed < sliding.length {
                passed
            } else {
                sliding.length as int
            }
            &&& sliding.elapsed < sliding.length <= passed ==> here.hz == sliding.to.exp2_spec()
            &&& sliding.elapsed == sliding.length ==> here.hz == sliding.hz
        }),
    decreases frames,
{
    if frames > 0 {
        lemma_landed(sliding, (frames - 1) as nat);
    }
}

} // verus!
