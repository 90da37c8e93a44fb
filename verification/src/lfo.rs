//! A free-running sine on the clock.

use vstd::prelude::*;

use crate::curves::{tau, tau_of, Curves};
use crate::num::{clamp, clamp_of, ratio, ratio_of, Sample};

verus! {

/// A low-frequency oscillator: a phase in turns.
#[derive(Clone, Copy, Debug)]
pub struct Lfo<S> {
    pub phase: S,
}

/// A number of turns without its whole ones.
pub open spec fn turn_of<S: Sample>(turns: S) -> S {
    turns.minus(S::of_spec(turns.whole_spec()))
}

/// The turns of one sample: a rate of at most a quarter of the sample rate.
pub open spec fn lfo_step<S: Sample>(rate_hz: S, sample_rate: u32) -> S {
    let rate = S::of_spec(sample_rate as nat);
    clamp_of(rate_hz, S::of_spec(0), rate.times(ratio_of(1, 4))).over(rate)
}

/// The oscillator one sample on.
pub open spec fn lfo_next<S: Sample>(lfo: Lfo<S>, rate_hz: S, sample_rate: u32) -> Lfo<S> {
    Lfo { phase: turn_of(lfo.phase.plus(lfo_step(rate_hz, sample_rate))) }
}

/// The oscillator a number of samples on.
pub open spec fn lfo_after<S: Sample>(
    lfo: Lfo<S>,
    frames: nat,
    rate_hz: S,
    sample_rate: u32,
) -> Lfo<S>
    decreases frames,
{
    if frames == 0 {
        lfo
    } else {
        lfo_next(lfo_after(lfo, (frames - 1) as nat, rate_hz, sample_rate), rate_hz, sample_rate)
    }
}

/// The sine an offset in turns away from the phase.
pub open spec fn lfo_at<S: Curves>(lfo: Lfo<S>, offset: S) -> S {
    tau_of::<S>().times(turn_of(lfo.phase.plus(offset))).sin_spec()
}

impl<S: Sample> Lfo<S> {
    pub fn new() -> (lfo: Self)
        ensures
            lfo == (Lfo { phase: S::of_spec(0) }),
    {
        Lfo { phase: S::of(0) }
    }

    /// Move `frames` samples on: exactly where that many single steps land.
    pub fn skip(&mut self, frames: usize, rate_hz: S, sample_rate: u32)
        ensures
            *final(self) == lfo_after(*old(self), frames as nat, rate_hz, sample_rate),
    {
        let rate = S::of(sample_rate as usize);
        let step = clamp(rate_hz, S::of(0), rate.mul(ratio(1, 4))).div(rate);
        let mut at: usize = 0;
        while at < frames
            invariant
                at <= frames,
                step == lfo_step(rate_hz, sample_rate),
                *self == lfo_after(*old(self), at as nat, rate_hz, sample_rate),
            decreases frames - at,
        {
            let next = self.phase.add(step);
            self.phase = next.sub(S::of(next.whole()));
            at = at + 1;
        }
    }
}

impl<S: Curves> Lfo<S> {
    /// The sine `offset` turns away, without moving.
    pub fn peek_offset(&self, offset: S) -> (value: S)
        ensures
            value == lfo_at(*self, offset),
    {
        let turns = self.phase.add(offset);
        tau::<S>().mul(turns.sub(S::of(turns.whole()))).sin()
    }
}

/// Skipping in pieces is skipping: the oscillator arrives at the same phase
/// whether or not it was listened to on the way.
pub proof fn skipping_in_pieces_is_skipping<S: Sample>(
    lfo: Lfo<S>,
    first: nat,
    second: nat,
    rate_hz: S,
    sample_rate: u32,
)
    ensures
        lfo_after(lfo_after(lfo, first, rate_hz, sample_rate), second, rate_hz, sample_rate)
            == lfo_after(lfo, first + second, rate_hz, sample_rate),
    decreases second,
{
    if second > 0 {
        skipping_in_pieces_is_skipping(lfo, first, (second - 1) as nat, rate_hz, sample_rate);
    }
}

} // verus!
