//! A lookahead true-peak limiter.
//!
//! Each input frame's true peak, the sample and three points interpolated
//! between two earlier samples, sets the gain that frame would need, and the
//! gain computer of [`crate::lookahead`] turns the needs into a gain that is
//! at or below what every peak needs by the time it comes out of the delay.
//! The clamp behind it is a backstop for what the interpolator cannot see.

use vstd::prelude::*;

use crate::bus::{fitting, StereoBus};
use crate::curves::{exponentials_are_not_negative, pi, pi_of, Curves};
use crate::dynamics::{lag_fitted, lag_on, lag_reset};
use crate::event::EventList;
use crate::fold::{
    after_frames, left_of, lemma_frame_rendered, lemma_nothing_rendered, right_of,
};
use crate::level::{
    a_time_coefficient_is_a_gain, block_begun, db_to_linear_unfloored, decibels_of, linear_of,
    linear_to_db_unfloored, observed, time_coeff, time_coeff_of, DynamicsBlock, DynamicsFrame,
};
use crate::lookahead::{
    an_idle_gain_stays_idle, gain_after, gain_idle, gain_new, gain_next, gain_out, longer,
    the_gain_keeps_under_every_need, GainComputer, GainState,
};
use crate::node::{Discontinuity, ProcessContext};
use crate::num::{
    a_share_is_a_gain, clamp, clamp_of, is_gain, max, max_of, nothing_times, ratio, ratio_of,
    times_one, within, Fixed, Sample, Wide,
};
use crate::ring::{remembered, Shift};
use crate::smooth::{settled, smoothed_next, Smoothed};
use crate::split::{carried_out, param_plan, process_param_split, Desk, RangeProcessor};

verus! {

/// Taps per phase of the true-peak interpolator.
pub const TRUE_PEAK_TAPS: usize = 12;

/// The interpolated points lie between the samples this far and one less back
/// from the newest, half the filter's length.
pub const TRUE_PEAK_DELAY: usize = 6;

/// Oversampling factor of the true-peak detector.
pub const TRUE_PEAK_FACTOR: usize = 4;

pub const LIMITER_PARAM_CEILING_DB: u32 = 0;

pub const LIMITER_PARAM_RELEASE_MS: u32 = 1;

pub const LIMITER_PARAM_GAIN_DB: u32 = 2;

/// The three in-between phases' kernels.
#[derive(Clone, Copy)]
pub struct TruePeakKernels<S> {
    pub first: [S; TRUE_PEAK_TAPS],
    pub second: [S; TRUE_PEAK_TAPS],
    pub third: [S; TRUE_PEAK_TAPS],
}

/// How far a tap's sample lies from the point of a phase, which is the phase's
/// share of the way past the sample half the filter back from the newest.
pub open spec fn tap_distance<W: Curves>(phase: nat, tap: nat) -> W {
    W::of_spec(TRUE_PEAK_DELAY as nat).minus(W::of_spec(1)).plus(
        W::of_spec(phase).over(W::of_spec(TRUE_PEAK_FACTOR as nat)),
    ).minus(W::of_spec(tap))
}

/// A windowed sinc: one where the distance is nothing, under a Blackman window
/// over the kernel's reach.
pub open spec fn tap_value<W: Curves>(phase: nat, tap: nat) -> W {
    let distance = tap_distance::<W>(phase, tap);
    let x = pi_of::<W>().times(distance);
    let sinc = if distance.equals_spec(W::of_spec(0)) {
        W::of_spec(1)
    } else {
        x.sin_spec().over(x)
    };
    let w = distance.over(W::of_spec(TRUE_PEAK_DELAY as nat));
    let window = ratio_of::<W>(42, 100).plus(
        ratio_of::<W>(1, 2).times(pi_of::<W>().times(w).cos_spec()),
    ).plus(
        ratio_of::<W>(8, 100).times(
            W::of_spec(2).times(pi_of::<W>()).times(w).cos_spec(),
        ),
    );
    sinc.times(max_of(window, W::of_spec(0)))
}

/// The sum of the first `count` taps of a phase.
pub open spec fn tap_sum<W: Curves>(phase: nat, count: nat) -> W
    decreases count,
{
    if count == 0 {
        W::of_spec(0)
    } else {
        tap_sum::<W>(phase, (count - 1) as nat).plus(tap_value::<W>(phase, (count - 1) as nat))
    }
}

/// A tap of a phase's kernel: unity at a standstill, so that a held level
/// reads as itself.
pub open spec fn kernel_tap<S: Sample, W: Curves + Wide<S>>(phase: nat, tap: nat) -> S {
    W::widen_spec(tap_value::<W>(phase, tap).narrow_spec()).over(
        tap_sum::<W>(phase, TRUE_PEAK_TAPS as nat),
    ).narrow_spec()
}

/// Whether a row is the kernel of a phase.
pub open spec fn is_kernel<S: Sample, W: Curves + Wide<S>>(row: Seq<S>, phase: nat) -> bool {
    row.len() == TRUE_PEAK_TAPS && forall|tap: int|
        0 <= tap < TRUE_PEAK_TAPS ==> #[trigger] row[tap] == kernel_tap::<S, W>(phase, tap as nat)
}

fn windowed_sinc<W: Curves>(phase: usize, tap: usize) -> (value: W)
    ensures
        value == tap_value::<W>(phase as nat, tap as nat),
{
    let half = W::of(TRUE_PEAK_DELAY);
    let fraction = W::of(phase).div(W::of(TRUE_PEAK_FACTOR));
    let distance = half.sub(W::of(1)).add(fraction).sub(W::of(tap));
    let sinc = if distance.equals(W::of(0)) {
        W::of(1)
    } else {
        let x = pi::<W>().mul(distance);
        x.sin().div(x)
    };
    let w = distance.div(half);
    let window = ratio::<W>(42, 100).add(ratio::<W>(1, 2).mul(pi::<W>().mul(w).cos())).add(
        ratio::<W>(8, 100).mul(W::of(2).mul(pi::<W>()).mul(w).cos()),
    );
    sinc.mul(max(window, W::of(0)))
}

fn kernel<S: Sample, W: Curves + Wide<S>>(phase: usize) -> (row: [S; TRUE_PEAK_TAPS])
    ensures
        is_kernel::<S, W>(row@, phase as nat),
{
    let mut row = [S::of(0); TRUE_PEAK_TAPS];
    let mut sum = W::of(0);
    let mut tap: usize = 0;
    while tap < TRUE_PEAK_TAPS
        invariant
            tap <= TRUE_PEAK_TAPS,
            sum == tap_sum::<W>(phase as nat, tap as nat),
            forall|i: int|
                0 <= i < tap ==> #[trigger] row[i] == tap_value::<W>(
                    phase as nat,
                    i as nat,
                ).narrow_spec(),
        decreases TRUE_PEAK_TAPS - tap,
    {
        let value = windowed_sinc::<W>(phase, tap);
        row[tap] = value.narrow();
        sum = sum.add(value);
        tap = tap + 1;
    }
    tap = 0;
    while tap < TRUE_PEAK_TAPS
        invariant
            tap <= TRUE_PEAK_TAPS,
            sum == tap_sum::<W>(phase as nat, TRUE_PEAK_TAPS as nat),
            forall|i: int|
                0 <= i < tap ==> #[trigger] row[i] == kernel_tap::<S, W>(
                    phase as nat,
                    i as nat,
                ),
            forall|i: int|
                tap <= i < TRUE_PEAK_TAPS ==> #[trigger] row[i] == tap_value::<W>(
                    phase as nat,
                    i as nat,
                ).narrow_spec(),
        decreases TRUE_PEAK_TAPS - tap,
    {
        row[tap] = W::widen(row[tap]).div(sum).narrow();
        tap = tap + 1;
    }
    row
}

impl<S: Sample> TruePeakKernels<S> {
    /// Built once, in the wider format.
    pub fn new<W: Curves + Wide<S>>() -> (kernels: Self)
        ensures
            is_kernel::<S, W>(kernels.first@, 1),
            is_kernel::<S, W>(kernels.second@, 2),
            is_kernel::<S, W>(kernels.third@, 3),
    {
        TruePeakKernels {
            first: kernel::<S, W>(1),
            second: kernel::<S, W>(2),
            third: kernel::<S, W>(3),
        }
    }
}

/// A windowed-sinc interpolator over one channel, for finding the peaks a
/// converter will draw between samples.
#[derive(Clone, Copy)]
pub struct TruePeak<S> {
    /// The last samples, oldest first.
    pub history: [S; TRUE_PEAK_TAPS],
}

/// The sum of the first `count` products of a kernel and a history.
pub open spec fn convolved<S: Sample>(kernel: Seq<S>, history: Seq<S>, count: int) -> S
    decreases count,
{
    if count <= 0 {
        S::of_spec(0)
    } else {
        convolved(kernel, history, count - 1).plus(kernel[count - 1].times(history[count - 1]))
    }
}

/// A history with one more sample in it, and the oldest forgotten.
pub open spec fn history_after<S>(history: Seq<S>, sample: S) -> Seq<S> {
    history.drop_first().push(sample)
}

/// The magnitude a kernel finds in a history.
pub open spec fn found<S: Sample>(kernel: Seq<S>, history: Seq<S>) -> S {
    convolved(kernel, history, TRUE_PEAK_TAPS as int).abs_spec()
}

/// The largest magnitude among a sample and the three points between two
/// earlier ones.
pub open spec fn true_peak<S: Sample>(
    history: Seq<S>,
    sample: S,
    kernels: TruePeakKernels<S>,
) -> S {
    let after = history_after(history, sample);
    max_of(
        max_of(
            max_of(sample.abs_spec(), found(kernels.first@, after)),
            found(kernels.second@, after),
        ),
        found(kernels.third@, after),
    )
}

fn find<S: Sample>(kernel: &[S; TRUE_PEAK_TAPS], history: &[S; TRUE_PEAK_TAPS]) -> (value: S)
    ensures
        value == found(kernel@, history@),
{
    let mut sum = S::of(0);
    let mut tap: usize = 0;
    while tap < TRUE_PEAK_TAPS
        invariant
            tap <= TRUE_PEAK_TAPS,
            sum == convolved(kernel@, history@, tap as int),
        decreases TRUE_PEAK_TAPS - tap,
    {
        sum = sum.add(kernel[tap].mul(history[tap]));
        tap = tap + 1;
    }
    sum.abs()
}

/// A history of silence.
pub open spec fn history_new<S: Sample>() -> Seq<S> {
    Seq::new(TRUE_PEAK_TAPS as nat, |i: int| S::of_spec(0))
}

impl<S: Sample> TruePeak<S> {
    pub fn new() -> (peak: Self)
        ensures
            peak.history@ == history_new::<S>(),
    {
        let peak = TruePeak { history: [S::of(0); TRUE_PEAK_TAPS] };
        assert(peak.history@ =~= history_new::<S>());
        peak
    }

    /// Take a sample and return the largest magnitude among it and the three
    /// points between two earlier samples.
    pub fn push(&mut self, sample: S, kernels: &TruePeakKernels<S>) -> (peak: S)
        ensures
            final(self).history@ == history_after(old(self).history@, sample),
            peak == true_peak(old(self).history@, sample, *kernels),
    {
        let ghost before = self.history@;
        let mut at: usize = 0;
        while at < TRUE_PEAK_TAPS - 1
            invariant
                at <= TRUE_PEAK_TAPS - 1,
                before.len() == TRUE_PEAK_TAPS,
                forall|i: int| 0 <= i < at ==> #[trigger] self.history[i] == before[i + 1],
                forall|i: int|
                    at <= i < TRUE_PEAK_TAPS ==> #[trigger] self.history[i] == before[i],
            decreases TRUE_PEAK_TAPS - at,
        {
            self.history[at] = self.history[at + 1];
            at = at + 1;
        }
        self.history[TRUE_PEAK_TAPS - 1] = sample;
        assert(self.history@ =~= history_after(before, sample));
        let first = find(&kernels.first, &self.history);
        let second = find(&kernels.second, &self.history);
        let third = find(&kernels.third, &self.history);
        max(max(max(sample.abs(), first), second), third)
    }
}

/// The controls of the limiter.
#[derive(Clone, Copy, Debug)]
pub struct LimiterParams<S> {
    pub ceiling_db: S,
    pub release_ms: S,
    pub gain_db: S,
}

/// The limiter. `W` is the wider number its average is summed in.
pub struct LimiterEffect<S, W> {
    params: LimiterParams<S>,
    sample_rate: u32,
    ceiling_db: Smoothed<S>,
    gain_db: Smoothed<S>,
    kernels: TruePeakKernels<S>,
    peak_l: TruePeak<S>,
    peak_r: TruePeak<S>,
    /// The audio, held back by the latency.
    delay_l: Shift<S>,
    delay_r: Shift<S>,
    gain: GainComputer<S, W>,
    /// Consecutive silent input frames: the delay line is empty once it
    /// covers the latency.
    silent_run: usize,
    /// The clamp after the gain.
    backstop: bool,
    block: DynamicsBlock<S>,
}

/// What the limiter is, apart from where its rows lie.
pub struct Limiting<S, W> {
    pub params: LimiterParams<S>,
    pub sample_rate: u32,
    pub ceiling_db: Smoothed<S>,
    pub gain_db: Smoothed<S>,
    pub kernels: TruePeakKernels<S>,
    pub peak_l: Seq<S>,
    pub peak_r: Seq<S>,
    pub delay_l: Seq<S>,
    pub delay_r: Seq<S>,
    pub gain: GainState<S, W>,
    pub silent_run: int,
    pub backstop: bool,
    pub block: DynamicsBlock<S>,
}

impl<S, W> View for LimiterEffect<S, W> {
    type V = Limiting<S, W>;

    closed spec fn view(&self) -> Limiting<S, W> {
        Limiting {
            params: self.params,
            sample_rate: self.sample_rate,
            ceiling_db: self.ceiling_db,
            gain_db: self.gain_db,
            kernels: self.kernels,
            peak_l: self.peak_l.history@,
            peak_r: self.peak_r.history@,
            delay_l: self.delay_l@,
            delay_r: self.delay_r@,
            gain: self.gain@,
            silent_run: self.silent_run as int,
            backstop: self.backstop,
            block: self.block,
        }
    }
}

/// The least drive a level is referred back across: `2^-126`.
pub open spec fn drive_floor<S: Sample>() -> S {
    let part = ratio_of::<S>(1, 2_097_152);
    part.times(part).times(part).times(part).times(part).times(part)
}

fn least_drive<S: Sample>() -> (value: S)
    ensures
        value == drive_floor::<S>(),
{
    let part = ratio::<S>(1, 2_097_152);
    part.mul(part).mul(part).mul(part).mul(part).mul(part)
}

/// The gain of the drive at a frame.
pub open spec fn limiter_drive<S: Curves, W>(limiter: Limiting<S, W>) -> S {
    linear_of(smoothed_next(limiter.gain_db).value)
}

/// The ceiling at a frame.
pub open spec fn limiter_ceiling<S: Curves, W>(limiter: Limiting<S, W>) -> S {
    linear_of(smoothed_next(limiter.ceiling_db).value)
}

/// The true peak of a frame, the louder channel's.
pub open spec fn limiter_peak<S: Curves, W>(limiter: Limiting<S, W>, l: S, r: S) -> S {
    let drive = limiter_drive(limiter);
    max_of(
        true_peak(limiter.peak_l, l.times(drive), limiter.kernels),
        true_peak(limiter.peak_r, r.times(drive), limiter.kernels),
    )
}

/// The gain a frame would need to stay under the ceiling.
pub open spec fn limiter_need<S: Curves, W>(limiter: Limiting<S, W>, l: S, r: S) -> S {
    let peak = limiter_peak(limiter, l, r);
    let ceiling = limiter_ceiling(limiter);
    if ceiling.below(peak) {
        ceiling.over(peak)
    } else {
        S::of_spec(1)
    }
}

/// The limiter after one frame.
pub open spec fn limiter_next<S: Curves, W: Wide<S>>(
    limiter: Limiting<S, W>,
    l: S,
    r: S,
) -> Limiting<S, W> {
    let drive = limiter_drive(limiter);
    let (driven_l, driven_r) = (l.times(drive), r.times(drive));
    let gain = gain_next(limiter.gain, limiter_need(limiter, l, r));
    let silent = driven_l.equals_spec(S::of_spec(0)) && driven_r.equals_spec(S::of_spec(0));
    Limiting {
        ceiling_db: smoothed_next(limiter.ceiling_db),
        gain_db: smoothed_next(limiter.gain_db),
        peak_l: history_after(limiter.peak_l, driven_l),
        peak_r: history_after(limiter.peak_r, driven_r),
        delay_l: remembered(limiter.delay_l, driven_l),
        delay_r: remembered(limiter.delay_r, driven_r),
        gain,
        silent_run: if silent {
            longer(limiter.silent_run)
        } else {
            0
        },
        // Referred back across the drive: the display's axis is the input.
        block: observed(
            limiter.block,
            limiter_peak(limiter, l, r).over(max_of(drive, drive_floor())),
            decibels_of(gain_out(gain)),
        ),
        ..limiter
    }
}

/// One channel of what comes out: the oldest sample in the delay, attenuated,
/// and held under the ceiling where the backstop is on.
pub open spec fn limited<S: Sample>(delayed: S, gain: S, ceiling: S, backstop: bool) -> S {
    let out = delayed.times(gain);
    if backstop {
        clamp_of(out, ceiling.negated(), ceiling)
    } else {
        out
    }
}

/// What the limiter makes of one frame.
pub open spec fn limiter_out<S: Curves, W: Wide<S>>(
    limiter: Limiting<S, W>,
    l: S,
    r: S,
) -> (S, S) {
    let gain = gain_out(limiter_next(limiter, l, r).gain);
    let ceiling = limiter_ceiling(limiter);
    (
        limited(limiter.delay_l.last(), gain, ceiling, limiter.backstop),
        limited(limiter.delay_r.last(), gain, ceiling, limiter.backstop),
    )
}

/// The limiter as a step.
pub open spec fn limiter_step<S: Curves, W: Wide<S>>() -> spec_fn(Limiting<S, W>, S, S) -> Limiting<
    S,
    W,
> {
    |limiter: Limiting<S, W>, l: S, r: S| limiter_next(limiter, l, r)
}

/// What the limiter puts out at a step.
pub open spec fn limiter_heard<S: Curves, W: Wide<S>>() -> spec_fn(Limiting<S, W>, S, S) -> (S, S) {
    |limiter: Limiting<S, W>, l: S, r: S| limiter_out(limiter, l, r)
}

pub open spec fn limiter_ceiling_db<S: Sample>(value: S) -> S {
    clamp_of(value, S::of_spec(24).negated(), S::of_spec(0))
}

pub open spec fn limiter_gain_db<S: Sample>(value: S) -> S {
    clamp_of(value, S::of_spec(0), S::of_spec(24))
}

/// The limiter with its audio and its reduction let go.
pub open spec fn limiter_cleared<S: Sample, W: Wide<S>>(limiter: Limiting<S, W>) -> Limiting<S, W> {
    Limiting {
        peak_l: history_new(),
        peak_r: history_new(),
        delay_l: Seq::new(limiter.delay_l.len(), |i: int| S::of_spec(0)),
        delay_r: Seq::new(limiter.delay_r.len(), |i: int| S::of_spec(0)),
        gain: gain_new(
            limiter.gain.average.len(),
            limiter.gain.window,
            limiter.gain.release_coeff,
        ),
        silent_run: limiter.delay_l.len() as int,
        ..limiter
    }
}

/// The limiter after a parameter was taken.
pub open spec fn limiter_taking<S: Curves, W>(
    limiter: Limiting<S, W>,
    id: u32,
    value: S,
) -> Limiting<S, W> {
    let params = limiter.params;
    if id == LIMITER_PARAM_CEILING_DB {
        let ceiling_db = limiter_ceiling_db(value);
        Limiting {
            params: LimiterParams { ceiling_db, ..params },
            ceiling_db: Smoothed { target: ceiling_db, ..limiter.ceiling_db },
            ..limiter
        }
    } else if id == LIMITER_PARAM_RELEASE_MS {
        let release_ms = clamp_of(value, S::of_spec(1), S::of_spec(500));
        Limiting {
            params: LimiterParams { release_ms, ..params },
            gain: GainState {
                release_coeff: time_coeff_of(release_ms, limiter.sample_rate),
                ..limiter.gain
            },
            ..limiter
        }
    } else if id == LIMITER_PARAM_GAIN_DB {
        let gain_db = limiter_gain_db(value);
        Limiting {
            params: LimiterParams { gain_db, ..params },
            gain_db: Smoothed { target: gain_db, ..limiter.gain_db },
            ..limiter
        }
    } else {
        limiter
    }
}

/// The limiter as it begins a block.
pub open spec fn limiter_begun<S: Curves, W>(
    limiter: Limiting<S, W>,
    sample_rate: u32,
) -> Limiting<S, W> {
    let begun = Limiting { block: block_begun(), ..limiter };
    if sample_rate == limiter.sample_rate {
        begun
    } else {
        Limiting {
            sample_rate,
            gain: GainState {
                release_coeff: time_coeff_of(limiter.params.release_ms, sample_rate),
                ..limiter.gain
            },
            ceiling_db: lag_fitted(limiter.ceiling_db, sample_rate),
            gain_db: lag_fitted(limiter.gain_db, sample_rate),
            ..begun
        }
    }
}

/// Whether a limiter is what these controls and this latency make: its delay
/// is as long as the latency, its average as long as the lookahead, and its
/// window as long as both reach, with a frame for the sample after a peak.
pub open spec fn limiter_made<S: Curves, W: Curves + Wide<S>>(
    limiter: Limiting<S, W>,
    params: LimiterParams<S>,
    sample_rate: u32,
    latency: nat,
) -> bool {
    &&& limiter.params == params
    &&& limiter.sample_rate == sample_rate
    &&& limiter.ceiling_db == lag_on(limiter_ceiling_db(params.ceiling_db), sample_rate)
    &&& limiter.gain_db == lag_on(limiter_gain_db(params.gain_db), sample_rate)
    &&& is_kernel::<S, W>(limiter.kernels.first@, 1)
    &&& is_kernel::<S, W>(limiter.kernels.second@, 2)
    &&& is_kernel::<S, W>(limiter.kernels.third@, 3)
    &&& limiter.peak_l == history_new::<S>()
    &&& limiter.peak_r == history_new::<S>()
    &&& limiter.delay_l == Seq::new(latency, |i: int| S::of_spec(0))
    &&& limiter.delay_r == Seq::new(latency, |i: int| S::of_spec(0))
    &&& limiter.gain == gain_new::<S, W>(
        (latency + 1 - TRUE_PEAK_DELAY) as nat,
        (latency + 2) as int,
        time_coeff_of(params.release_ms, sample_rate),
    )
    &&& limiter.silent_run == latency
    &&& limiter.backstop
    &&& limiter.block == block_begun::<S>()
}

impl<S: Sample, W: Wide<S>> LimiterEffect<S, W> {
    pub closed spec fn well_formed(&self) -> bool {
        &&& self.delay_l.well_formed()
        &&& self.delay_r.well_formed()
        &&& self.delay_l@.len() <= usize::MAX
        &&& self.gain.well_formed()
    }

    /// Empty the delay line and let go of any reduction: the audio it held
    /// belongs somewhere the transport has left.
    pub fn clear(&mut self)
        requires
            old(self).well_formed(),
        ensures
            final(self).well_formed(),
            final(self)@ == limiter_cleared(old(self)@),
    {
        self.peak_l = TruePeak::new();
        self.peak_r = TruePeak::new();
        self.delay_l.fill(S::of(0));
        self.delay_r.fill(S::of(0));
        self.gain.clear();
        self.silent_run = self.delay_l.len();
        proof {
            let after = limiter_cleared(old(self)@);
            assert(self@.delay_l =~= after.delay_l);
            assert(self@.delay_r =~= after.delay_r);
        }
    }

    /// A seek empties the delay line. Not a loop fold or a program change,
    /// which leave a tail alone.
    pub fn on_discontinuity(&mut self, kind: Discontinuity)
        requires
            old(self).well_formed(),
        ensures
            final(self).well_formed(),
            final(self)@ == (if kind.leaves() {
                limiter_cleared(old(self)@)
            } else {
                old(self)@
            }),
    {
        if kind.invalidates_tails() {
            self.clear();
        }
    }

    /// Turn the clamp after the gain on or off.
    pub fn set_backstop(&mut self, backstop: bool)
        requires
            old(self).well_formed(),
        ensures
            final(self).well_formed(),
            final(self)@ == (Limiting { backstop, ..old(self)@ }),
    {
        self.backstop = backstop;
    }

    pub fn params(&self) -> (params: LimiterParams<S>)
        ensures
            params == self@.params,
    {
        self.params
    }

    /// The lookahead delay: the mixer compensates it.
    pub fn latency_frames(&self) -> (frames: usize)
        ensures
            frames == self@.delay_l.len(),
    {
        self.delay_l.len()
    }

    /// At rest once the delay line has emptied and the gain is back at unity
    /// with nothing travelling.
    pub fn is_at_rest(&self) -> (answer: bool)
        ensures
            answer == (self@.silent_run >= self@.delay_l.len() && self@.gain.unity_run
                >= self@.gain.average.len() && settled(self@.ceiling_db) && settled(
                self@.gain_db,
            )),
    {
        self.silent_run >= self.delay_l.len() && self.gain.is_unity()
            && self.ceiling_db.is_settled() && self.gain_db.is_settled()
    }
}

impl<S: Curves, W: Curves + Wide<S>> LimiterEffect<S, W> {
    /// A limiter that declares a latency of `latency` frames, at least what
    /// the true-peak interpolator needs to see past a point.
    pub fn new(params: LimiterParams<S>, sample_rate: u32, latency: usize) -> (limiter: Self)
        requires
            TRUE_PEAK_DELAY <= latency <= usize::MAX - 2,
        ensures
            limiter.well_formed(),
            limiter_made(limiter@, params, sample_rate, latency as nat),
    {
        let ceiling_db = clamp(params.ceiling_db, S::of(24).neg(), S::of(0));
        let gain_db = clamp(params.gain_db, S::of(0), S::of(24));
        let limiter = LimiterEffect {
            params,
            sample_rate,
            ceiling_db: Smoothed::new(ceiling_db, ratio(5, 1000), sample_rate),
            gain_db: Smoothed::new(gain_db, ratio(5, 1000), sample_rate),
            kernels: TruePeakKernels::new::<W>(),
            peak_l: TruePeak::new(),
            peak_r: TruePeak::new(),
            delay_l: Shift::filled(latency, S::of(0)),
            delay_r: Shift::filled(latency, S::of(0)),
            gain: GainComputer::new(
                latency + 1 - TRUE_PEAK_DELAY,
                latency + 2,
                time_coeff(params.release_ms, sample_rate),
            ),
            silent_run: latency,
            backstop: true,
            block: DynamicsBlock::new(),
        };
        proof {
            assert(limiter@.delay_l =~= Seq::new(latency as nat, |i: int| S::of_spec(0)));
            assert(limiter@.delay_r =~= Seq::new(latency as nat, |i: int| S::of_spec(0)));
        }
        limiter
    }
}

impl<S: Curves, W: Wide<S>> LimiterEffect<S, W> {
    /// Replace the parameter set wholesale: jump straight to the new values,
    /// there is nothing to click coming from a fresh load.
    pub fn set_params(&mut self, params: LimiterParams<S>)
        requires
            old(self).well_formed(),
        ensures
            final(self).well_formed(),
            final(self)@ == (Limiting {
                params,
                gain: GainState {
                    release_coeff: time_coeff_of(params.release_ms, old(self)@.sample_rate),
                    ..old(self)@.gain
                },
                ceiling_db: lag_reset(
                    old(self)@.ceiling_db,
                    limiter_ceiling_db(params.ceiling_db),
                ),
                gain_db: lag_reset(old(self)@.gain_db, limiter_gain_db(params.gain_db)),
                ..old(self)@
            }),
    {
        self.params = params;
        self.gain.set_release(time_coeff(params.release_ms, self.sample_rate));
        self.ceiling_db.reset_to(clamp(params.ceiling_db, S::of(24).neg(), S::of(0)));
        self.gain_db.reset_to(clamp(params.gain_db, S::of(0), S::of(24)));
    }

    pub fn dynamics_frame(&self) -> (frame: Option<DynamicsFrame<S>>)
        ensures
            frame == Some(
                DynamicsFrame {
                    detector_db: decibels_of(self@.block.detector),
                    reduction_db: self@.block.reduction_db,
                },
            ),
    {
        Some(self.block.frame())
    }

    pub fn process<B: Copy>(
        &mut self,
        ctx: &ProcessContext,
        bus: &mut StereoBus<S>,
        events_in: &EventList<S, B>,
    )
        requires
            old(self).well_formed(),
            old(bus).well_formed(),
        ensures
            final(self).well_formed(),
            final(bus).well_formed(),
            exists|begun: Self|
                begun@ == limiter_begun(old(self)@, ctx.sample_rate) && #[trigger] carried_out(
                    Desk { node: begun, l: old(bus).l@, r: old(bus).r@ },
                    param_plan(
                        events_in@,
                        fitting(ctx.frames as int, old(bus).l@.len() as int),
                    ),
                    Desk { node: *final(self), l: final(bus).l@, r: final(bus).r@ },
                ),
    {
        self.block.begin();
        if ctx.sample_rate != self.sample_rate {
            self.sample_rate = ctx.sample_rate;
            self.gain.set_release(time_coeff(self.params.release_ms, self.sample_rate));
            self.ceiling_db.set_time(ratio(5, 1000), ctx.sample_rate);
            self.gain_db.set_time(ratio(5, 1000), ctx.sample_rate);
        }
        let ghost begun = *self;
        let capacity: usize = bus.capacity();
        let frames: usize = if ctx.frames < capacity {
            ctx.frames
        } else {
            capacity
        };
        process_param_split(self, bus, events_in, frames);
        proof {
            assert(frames == fitting(ctx.frames as int, old(bus).l@.len() as int));
            assert(carried_out(
                Desk { node: begun, l: old(bus).l@, r: old(bus).r@ },
                param_plan(events_in@, frames as int),
                Desk { node: *self, l: bus.l@, r: bus.r@ },
            ));
        }
    }

    /// One frame: the drive, the true peak, the gain and the delay.
    fn process_frame(&mut self, l: S, r: S) -> (out: (S, S))
        requires
            old(self).well_formed(),
        ensures
            final(self).well_formed(),
            final(self)@ == limiter_next(old(self)@, l, r),
            out == limiter_out(old(self)@, l, r),
    {
        let ceiling_db = self.ceiling_db.advance();
        let drive = db_to_linear_unfloored(self.gain_db.advance());
        let ceiling = db_to_linear_unfloored(ceiling_db);
        let driven_l = l.mul(drive);
        let driven_r = r.mul(drive);
        let peak_l = self.peak_l.push(driven_l, &self.kernels);
        let peak_r = self.peak_r.push(driven_r, &self.kernels);
        let peak = max(peak_l, peak_r);
        let need = if ceiling.lt(peak) {
            ceiling.div(peak)
        } else {
            S::of(1)
        };
        let gain = self.gain.next(need);
        let delayed_l = self.delay_l.pass(driven_l);
        let delayed_r = self.delay_r.pass(driven_r);
        self.silent_run = if driven_l.equals(S::of(0)) && driven_r.equals(S::of(0)) {
            self.silent_run.saturating_add(1)
        } else {
            0
        };
        self.block.observe(peak.div(max(drive, least_drive())), linear_to_db_unfloored(gain));
        let out_l = delayed_l.mul(gain);
        let out_r = delayed_r.mul(gain);
        if self.backstop {
            (clamp(out_l, ceiling.neg(), ceiling), clamp(out_r, ceiling.neg(), ceiling))
        } else {
            (out_l, out_r)
        }
    }
}

impl<S: Curves, W: Wide<S>> RangeProcessor<S> for LimiterEffect<S, W> {
    open spec fn ready(&self) -> bool {
        self.well_formed()
    }

    open spec fn renders(
        &self,
        l: Seq<S>,
        r: Seq<S>,
        start: int,
        end: int,
        after: &Self,
        new_l: Seq<S>,
        new_r: Seq<S>,
    ) -> bool {
        &&& after@ == after_frames(limiter_step(), self@, l, r, start, end - start)
        &&& new_l == left_of(limiter_step(), limiter_heard(), self@, l, r, start, end)
        &&& new_r == right_of(limiter_step(), limiter_heard(), self@, l, r, start, end)
    }

    open spec fn takes(&self, id: u32, value: S, after: &Self) -> bool {
        after@ == limiter_taking(self@, id, value)
    }

    fn process_range(&mut self, bus: &mut StereoBus<S>, start: usize, end: usize) {
        let ghost before = self@;
        let ghost l = bus.l@;
        let ghost r = bus.r@;
        proof {
            lemma_nothing_rendered(
                limiter_step::<S, W>(),
                limiter_heard(),
                before,
                l,
                r,
                start as int,
            );
        }
        let mut i: usize = start;
        while i < end
            invariant
                start <= i <= end <= l.len(),
                l.len() == r.len(),
                bus.l@.len() == l.len(),
                bus.r@.len() == r.len(),
                self.well_formed(),
                self@ == after_frames(limiter_step(), before, l, r, start as int, i - start),
                bus.l@ == left_of(
                    limiter_step(),
                    limiter_heard(),
                    before,
                    l,
                    r,
                    start as int,
                    i as int,
                ),
                bus.r@ == right_of(
                    limiter_step(),
                    limiter_heard(),
                    before,
                    l,
                    r,
                    start as int,
                    i as int,
                ),
            decreases end - i,
        {
            proof {
                lemma_frame_rendered(
                    limiter_step::<S, W>(),
                    limiter_heard(),
                    before,
                    l,
                    r,
                    start as int,
                    i as int,
                );
            }
            let (out_l, out_r) = self.process_frame(bus.l[i], bus.r[i]);
            bus.l[i] = out_l;
            bus.r[i] = out_r;
            i = i + 1;
        }
    }

    fn apply_param(&mut self, id: u32, value: S) {
        match id {
            LIMITER_PARAM_CEILING_DB => {
                self.params.ceiling_db = clamp(value, S::of(24).neg(), S::of(0));
                self.ceiling_db.set_target(self.params.ceiling_db);
            },
            LIMITER_PARAM_RELEASE_MS => {
                self.params.release_ms = clamp(value, S::of(1), S::of(500));
                self.gain.set_release(time_coeff(self.params.release_ms, self.sample_rate));
            },
            LIMITER_PARAM_GAIN_DB => {
                self.params.gain_db = clamp(value, S::of(0), S::of(24));
                self.gain_db.set_target(self.params.gain_db);
            },
            _ => {},
        }
    }
}

/// With the backstop on, nothing that comes out lies beyond the ceiling on
/// either side, whatever the gain computer did.
pub proof fn the_backstop_holds_the_ceiling<S: Sample>(delayed: S, gain: S, ceiling: S)
    ensures
        ({
            let out = limited(delayed, gain, ceiling, true);
            out == ceiling || out == ceiling.negated() || !ceiling.below(out) && !out.below(
                ceiling.negated(),
            )
        }),
{
}

/// The needs of the first `count` frames.
pub open spec fn limiter_needs<S: Curves, W: Wide<S>>(
    limiter: Limiting<S, W>,
    l: Seq<S>,
    r: Seq<S>,
    start: int,
    count: nat,
) -> Seq<S> {
    Seq::new(
        count,
        |i: int|
            limiter_need(
                after_frames(limiter_step(), limiter, l, r, start, i),
                l[start + i],
                r[start + i],
            ),
    )
}

proof fn lemma_needs_drive_the_gain<S: Curves, W: Wide<S>>(
    limiter: Limiting<S, W>,
    l: Seq<S>,
    r: Seq<S>,
    start: int,
    count: nat,
)
    ensures
        after_frames(limiter_step(), limiter, l, r, start, count as int).gain == gain_after(
            limiter.gain,
            limiter_needs(limiter, l, r, start, count),
        ),
    decreases count,
{
    if count > 0 {
        let before = (count - 1) as nat;
        lemma_needs_drive_the_gain(limiter, l, r, start, before);
        let needs = limiter_needs(limiter, l, r, start, count);
        assert(needs.drop_last() =~= limiter_needs(limiter, l, r, start, before));
        let here = after_frames(limiter_step(), limiter, l, r, start, count - 1);
        assert(needs.last() == limiter_need(here, l[start + count - 1], r[start + count - 1]));
        assert(after_frames(limiter_step(), limiter, l, r, start, count as int) == limiter_next(
            here,
            l[start + count - 1],
            r[start + count - 1],
        ));
    }
}

/// The gain a frame needs is a gain.
pub proof fn a_need_is_a_gain(limiter: Limiting<Fixed, Fixed>, l: Fixed, r: Fixed)
    ensures
        is_gain(limiter_need(limiter, l, r)),
{
    let ceiling = limiter_ceiling(limiter);
    let peak = limiter_peak(limiter, l, r);
    let db = smoothed_next(limiter.ceiling_db).value;
    exponentials_are_not_negative(
        db.over(Fixed::of_spec(20)).times(Fixed::of_spec(10).ln_spec()),
    );
    if ceiling.below(peak) {
        a_share_is_a_gain(ceiling, peak);
    }
}

/// The guarantee: the gain a sample comes out with is at or below what every
/// peak around it needs. The sample that comes out with frame `count - 1` went
/// in with frame `count - 1 - latency`; the peaks it contributes to are those
/// of that frame, of the one before it, and of the six after it, as far as the
/// interpolator reaches.
pub proof fn every_sample_is_kept_under_the_peaks_around_it(
    limiter: Limiting<Fixed, Fixed>,
    params: LimiterParams<Fixed>,
    sample_rate: u32,
    latency: nat,
    l: Seq<Fixed>,
    r: Seq<Fixed>,
    start: int,
    count: nat,
    j: int,
)
    requires
        TRUE_PEAK_DELAY <= latency < 0x7fff_0000,
        limiter_made(limiter, params, sample_rate, latency),
        0 < count,
        0 <= j < count,
        count - 1 - latency - 1 <= j <= count - 1 - latency + TRUE_PEAK_DELAY,
    ensures
        gain_out(
            after_frames(limiter_step(), limiter, l, r, start, count as int).gain,
        ).raw <= limiter_need(
            after_frames(limiter_step(), limiter, l, r, start, j),
            l[start + j],
            r[start + j],
        ).raw,
{
    let needs = limiter_needs(limiter, l, r, start, count);
    let coeff = time_coeff_of(params.release_ms, sample_rate);
    lemma_needs_drive_the_gain(limiter, l, r, start, count);
    a_time_coefficient_is_a_gain(params.release_ms, sample_rate);
    assert forall|i: int| 0 <= i < needs.len() implies is_gain(#[trigger] needs[i]) by {
        a_need_is_a_gain(
            after_frames(limiter_step(), limiter, l, r, start, i),
            l[start + i],
            r[start + i],
        );
    }
    the_gain_keeps_under_every_need(
        needs,
        (latency + 1 - TRUE_PEAK_DELAY) as nat,
        (latency + 2) as int,
        coeff,
        j,
    );
}

/// Material under the ceiling is only delayed: a limiter that has nothing to do
/// hands the sample it held back on exactly, and still has nothing to do.
pub proof fn quiet_material_is_only_delayed(
    limiter: Limiting<Fixed, Fixed>,
    l: Fixed,
    r: Fixed,
)
    requires
        gain_idle(limiter.gain),
        0 < limiter.gain.average.len() <= usize::MAX,
        limiter_peak(limiter, l, r).at_most(limiter_ceiling(limiter)),
        within(limiter.delay_l.last(), limiter_ceiling(limiter).raw as int),
        within(limiter.delay_r.last(), limiter_ceiling(limiter).raw as int),
    ensures
        limiter_out(limiter, l, r) == (limiter.delay_l.last(), limiter.delay_r.last()),
        gain_idle(limiter_next(limiter, l, r).gain),
{
    an_idle_gain_stays_idle(limiter.gain);
    times_one(limiter.delay_l.last());
    times_one(limiter.delay_r.last());
}

/// What the silent run counts: as many of the newest samples in the delay are
/// silence.
pub open spec fn silence_counted<W>(limiter: Limiting<Fixed, W>) -> bool {
    &&& forall|i: int|
        0 <= i < limiter.delay_l.len() && i < limiter.silent_run ==> #[trigger] limiter.delay_l[i]
            == Fixed::of_spec(0)
    &&& forall|i: int|
        0 <= i < limiter.delay_r.len() && i < limiter.silent_run ==> #[trigger] limiter.delay_r[i]
            == Fixed::of_spec(0)
}

/// A limiter counts its silence from the start, and goes on counting.
pub proof fn the_silent_run_counts_silence(
    limiter: Limiting<Fixed, Fixed>,
    params: LimiterParams<Fixed>,
    sample_rate: u32,
    latency: nat,
    l: Fixed,
    r: Fixed,
)
    requires
        0 < limiter.delay_l.len() < usize::MAX,
        limiter.delay_l.len() == limiter.delay_r.len(),
        0 <= limiter.silent_run <= usize::MAX,
    ensures
        limiter_made(limiter, params, sample_rate, latency) ==> silence_counted(limiter),
        silence_counted(limiter) ==> silence_counted(limiter_next(limiter, l, r)),
{
    if silence_counted(limiter) {
        let next = limiter_next(limiter, l, r);
        assert forall|i: int| 0 <= i < next.delay_l.len() && i < next.silent_run implies
            #[trigger] next.delay_l[i] == Fixed::of_spec(0) by {
            if 0 < i {
                assert(next.delay_l[i] == limiter.delay_l[i - 1]);
            }
        }
        assert forall|i: int| 0 <= i < next.delay_r.len() && i < next.silent_run implies
            #[trigger] next.delay_r[i] == Fixed::of_spec(0) by {
            if 0 < i {
                assert(next.delay_r[i] == limiter.delay_r[i - 1]);
            }
        }
    }
}

/// A limiter whose delay has emptied stays silent: a silent frame comes out
/// silent, and leaves the delay empty.
pub proof fn an_emptied_limiter_stays_silent(limiter: Limiting<Fixed, Fixed>)
    requires
        0 < limiter.delay_l.len() < usize::MAX,
        limiter.delay_l.len() == limiter.delay_r.len(),
        limiter.delay_l.len() <= limiter.silent_run <= usize::MAX,
        silence_counted(limiter),
    ensures
        limiter_out(limiter, Fixed::of_spec(0), Fixed::of_spec(0)) == (
            Fixed::of_spec(0),
            Fixed::of_spec(0),
        ),
        ({
            let next = limiter_next(limiter, Fixed::of_spec(0), Fixed::of_spec(0));
            silence_counted(next) && next.delay_l.len() <= next.silent_run
        }),
{
    let zero = Fixed::of_spec(0);
    let next = limiter_next(limiter, zero, zero);
    let db = smoothed_next(limiter.ceiling_db).value;
    exponentials_are_not_negative(
        db.over(Fixed::of_spec(20)).times(Fixed::of_spec(10).ln_spec()),
    );
    nothing_times(gain_out(next.gain));
    nothing_times(limiter_drive(limiter));
    the_silent_run_counts_silence(
        limiter,
        limiter.params,
        limiter.sample_rate,
        limiter.delay_l.len(),
        zero,
        zero,
    );
    assert(limiter.delay_l.last() == zero);
    assert(limiter.delay_r.last() == zero);
}

/// A limiter forgets: after some frames, the newest of what its delay and its
/// interpolators hold is what came in with them, driven, and nothing else. Once
/// they cover the latency, all that was there before is gone, finite or not.
pub proof fn a_limiter_holds_what_came_in_since<S: Curves, W: Wide<S>>(
    limiter: Limiting<S, W>,
    l: Seq<S>,
    r: Seq<S>,
    start: int,
    count: nat,
    age: int,
)
    requires
        0 <= age < count,
    ensures
        ({
            let here = after_frames(limiter_step(), limiter, l, r, start, count as int);
            let frame = count - 1 - age;
            let drive = limiter_drive(after_frames(limiter_step(), limiter, l, r, start, frame));
            &&& here.delay_l.len() == limiter.delay_l.len() || limiter.delay_l.len() == 0
            &&& here.delay_r.len() == limiter.delay_r.len() || limiter.delay_r.len() == 0
            &&& age < limiter.delay_l.len() ==> here.delay_l[age] == l[start + frame].times(drive)
            &&& age < limiter.delay_r.len() ==> here.delay_r[age] == r[start + frame].times(drive)
            &&& age < limiter.peak_l.len() ==> here.peak_l.len() == limiter.peak_l.len()
                && here.peak_l[here.peak_l.len() - 1 - age] == l[start + frame].times(drive)
            &&& age < limiter.peak_r.len() ==> here.peak_r.len() == limiter.peak_r.len()
                && here.peak_r[here.peak_r.len() - 1 - age] == r[start + frame].times(drive)
        }),
    decreases count,
{
    let before = after_frames(limiter_step(), limiter, l, r, start, count - 1);
    assert(after_frames(limiter_step(), limiter, l, r, start, count as int) == limiter_next(
        before,
        l[start + count - 1],
        r[start + count - 1],
    ));
    if age > 0 {
        a_limiter_holds_what_came_in_since(limiter, l, r, start, (count - 1) as nat, age - 1);
    } else if count > 1 {
        a_limiter_holds_what_came_in_since(limiter, l, r, start, (count - 1) as nat, 0);
    }
}

/// A peak that is no number asks for nothing: it does not compare as above the
/// ceiling, and the gain is driven by what a frame needs, never by the peak.
pub proof fn a_peak_that_does_not_compare_needs_nothing<S: Curves, W>(
    limiter: Limiting<S, W>,
    l: S,
    r: S,
)
    requires
        !limiter_ceiling(limiter).below(limiter_peak(limiter, l, r)),
    ensures
        limiter_need(limiter, l, r) == S::of_spec(1),
{
}

} // verus!
