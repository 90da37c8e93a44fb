//! The stereo buffer a node reads and writes, one block at a time.

use vstd::prelude::*;

use crate::num::Sample;

verus! {

/// Two channels of one block.
pub struct StereoBus<S> {
    pub l: Vec<S>,
    pub r: Vec<S>,
}

/// `samples` with silence in place of every one of the first `frames` that is
/// not finite.
pub open spec fn scrubbed<S: Sample>(samples: Seq<S>, frames: int) -> Seq<S> {
    Seq::new(
        samples.len(),
        |i: int|
            if i < frames && !samples[i].finite_spec() {
                S::of_spec(0)
            } else {
                samples[i]
            },
    )
}

/// `samples` with the first `frames` silent.
pub open spec fn silenced<S: Sample>(samples: Seq<S>, frames: int) -> Seq<S> {
    Seq::new(
        samples.len(),
        |i: int|
            if i < frames {
                S::of_spec(0)
            } else {
                samples[i]
            },
    )
}

/// Whether the first `frames` samples are all finite.
pub open spec fn all_finite<S: Sample>(samples: Seq<S>, frames: int) -> bool {
    forall|i: int| 0 <= i < frames ==> (#[trigger] samples[i]).finite_spec()
}

/// The lesser of a block's length and what a bus can hold.
pub open spec fn fitting(frames: int, capacity: int) -> int {
    if frames < capacity {
        frames
    } else {
        capacity
    }
}

impl<S: Sample> StereoBus<S> {
    /// Both channels hold the same number of frames.
    pub open spec fn well_formed(&self) -> bool {
        self.l@.len() == self.r@.len()
    }

    /// A silent bus of `frames`.
    pub fn with_capacity(frames: usize) -> (bus: Self)
        ensures
            bus.well_formed(),
            bus.l@ == Seq::new(frames as nat, |i: int| S::of_spec(0)),
            bus.r@ == Seq::new(frames as nat, |i: int| S::of_spec(0)),
    {
        let bus = Self { l: silence(frames), r: silence(frames) };
        bus
    }

    /// How many frames the bus holds.
    pub fn capacity(&self) -> (frames: usize)
        requires
            self.well_formed(),
        ensures
            frames == self.l@.len(),
            frames == self.r@.len(),
    {
        self.l.len()
    }

    /// Silence the first `frames`, or the whole bus when it holds fewer.
    pub fn clear(&mut self, frames: usize)
        requires
            old(self).well_formed(),
        ensures
            final(self).well_formed(),
            final(self).l@ == silenced(old(self).l@, frames as int),
            final(self).r@ == silenced(old(self).r@, frames as int),
    {
        let capacity: usize = self.capacity();
        let frames: usize = if frames < capacity { frames } else { capacity };
        let mut i: usize = 0;
        while i < frames
            invariant
                frames <= old(self).l@.len(),
                self.l@.len() == old(self).l@.len(),
                self.r@.len() == old(self).l@.len(),
                old(self).well_formed(),
                i <= frames,
                forall|j: int| 0 <= j < i ==> self.l@[j] == S::of_spec(0),
                forall|j: int| 0 <= j < i ==> self.r@[j] == S::of_spec(0),
                forall|j: int| i <= j < self.l@.len() ==> self.l@[j] == old(self).l@[j],
                forall|j: int| i <= j < self.r@.len() ==> self.r@[j] == old(self).r@[j],
            decreases frames - i,
        {
            self.l[i] = S::of(0);
            self.r[i] = S::of(0);
            i = i + 1;
        }
        assert(self.l@ =~= silenced(old(self).l@, frames as int));
        assert(self.r@ =~= silenced(old(self).r@, frames as int));
    }
}

/// `frames` samples of silence.
pub fn silence<S: Sample>(frames: usize) -> (samples: Vec<S>)
    ensures
        samples@ == Seq::new(frames as nat, |i: int| S::of_spec(0)),
{
    let mut samples: Vec<S> = Vec::with_capacity(frames);
    let mut i: usize = 0;
    while i < frames
        invariant
            i <= frames,
            samples@ == Seq::new(i as nat, |j: int| S::of_spec(0)),
        decreases frames - i,
    {
        samples.push(S::of(0));
        i = i + 1;
        assert(samples@ =~= Seq::new(i as nat, |j: int| S::of_spec(0)));
    }
    samples
}

fn finite<S: Sample>(samples: &Vec<S>, frames: usize) -> (answer: bool)
    requires
        frames <= samples@.len(),
    ensures
        answer == all_finite(samples@, frames as int),
{
    let mut i: usize = 0;
    while i < frames
        invariant
            i <= frames <= samples@.len(),
            all_finite(samples@, i as int),
        decreases frames - i,
    {
        if !samples[i].is_finite() {
            return false;
        }
        i = i + 1;
    }
    true
}

fn scrub<S: Sample>(samples: &mut Vec<S>, frames: usize)
    requires
        frames <= old(samples)@.len(),
    ensures
        final(samples)@ == scrubbed(old(samples)@, frames as int),
{
    let mut i: usize = 0;
    while i < frames
        invariant
            i <= frames <= old(samples)@.len(),
            samples@ == scrubbed(old(samples)@, i as int),
        decreases frames - i,
    {
        if !samples[i].is_finite() {
            samples[i] = S::of(0);
        }
        i = i + 1;
        assert(samples@ =~= scrubbed(old(samples)@, i as int));
    }
    assert(samples@ =~= scrubbed(old(samples)@, frames as int));
}

/// Whether a block came out of a device carrying a NaN or an infinity, and
/// if it did, silence in their place.
///
/// For a device whose own recursive state would keep a non-finite value for
/// good, a feedback network or a detector, to call once after its block and
/// clear that state when it answers yes. One pass over the block when it is
/// clean, which is every block that matters, and it writes nothing then, so a
/// finite block is untouched to the bit.
pub fn scrub_non_finite<S: Sample>(bus: &mut StereoBus<S>, frames: usize) -> (found: bool)
    requires
        old(bus).well_formed(),
    ensures
        final(bus).well_formed(),
        found == !(all_finite(old(bus).l@, fitting(frames as int, old(bus).l@.len() as int))
            && all_finite(old(bus).r@, fitting(frames as int, old(bus).r@.len() as int))),
        final(bus).l@ == scrubbed(old(bus).l@, frames as int),
        final(bus).r@ == scrubbed(old(bus).r@, frames as int),
{
    let capacity: usize = bus.capacity();
    let frames: usize = if frames < capacity { frames } else { capacity };
    if finite(&bus.l, frames) && finite(&bus.r, frames) {
        assert(bus.l@ =~= scrubbed(old(bus).l@, frames as int));
        assert(bus.r@ =~= scrubbed(old(bus).r@, frames as int));
        return false;
    }
    scrub(&mut bus.l, frames);
    scrub(&mut bus.r, frames);
    assert(bus.l@ =~= scrubbed(old(bus).l@, frames as int));
    assert(bus.r@ =~= scrubbed(old(bus).r@, frames as int));
    true
}

/// A finite block is untouched by a scrub.
pub proof fn scrubbing_a_finite_block_is_the_identity<S: Sample>(samples: Seq<S>, frames: int)
    requires
        frames <= samples.len(),
        all_finite(samples, frames),
    ensures
        scrubbed(samples, frames) == samples,
{
    assert(scrubbed(samples, frames) =~= samples);
}

/// A scrubbed block carries nothing that is not finite, in any format whose
/// silence is finite, and scrubbing it again changes nothing.
pub proof fn a_scrubbed_block_is_finite<S: Sample>(samples: Seq<S>, frames: int)
    requires
        S::of_spec(0).finite_spec(),
        frames <= samples.len(),
    ensures
        all_finite(scrubbed(samples, frames), frames),
        scrubbed(scrubbed(samples, frames), frames) == scrubbed(samples, frames),
{
    scrubbing_a_finite_block_is_the_identity(scrubbed(samples, frames), frames);
}

} // verus!
