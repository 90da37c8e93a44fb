//! A compact multi-mode modulation processor.
//!
//! Chorus, flange, ensemble, and ADT are distinct policies over one short,
//! fractional stereo delay line. The phaser shares the oscillator and the
//! controls, and is an all-pass cascade. The host owns dry/wet blending; this
//! node returns wet signal.

use vstd::prelude::*;

use crate::bus::{
    a_scrubbed_block_is_finite, all_finite, fitting, scrub_non_finite, scrubbed, StereoBus,
};
use crate::curves::{pi, pi_of, Curves};
use crate::delayline::{
    a_line_reads_within_five_quarters, blank, furthest, tape_at, taped, taped_silence, DelayLine,
    Tape, MIN_LINE_FRAMES, MIN_READ_OFFSET,
};
use crate::event::EventList;
use crate::filter::{all_pass_kept, all_passed, leaked, pole_decay, AllPass, OnePoleLp};
use crate::fold::{
    after_frames, left_of, lemma_frame_rendered, lemma_nothing_rendered, right_of,
};
use crate::lfo::{lfo_after, lfo_at, Lfo};
use crate::node::{feedback_tail_frames, feedback_tail_of, Discontinuity, ProcessContext};
use crate::num::{
    a_blend_stays_within, a_gain_scales_a_bound, clamp, clamp_of, gains_multiply_to_gains, is_gain,
    magnitude, max, max_of, min, min_of, products_commute, products_mirror, quotients_stay_within,
    ratio, ratio_of, within, Fixed, Sample, FRACTION,
};
use crate::ring::newest_within;
use crate::smooth::{
    a_settled_lag_stays, at_least_one, glide_coeff_of, settled, smoothed_after, smoothed_next,
    Smoothed,
};
use crate::split::{carried_out, param_plan, process_param_split, Desk, RangeProcessor};

verus! {

/// The longest tap, in milliseconds.
pub const MAX_DELAY_MS: usize = 64;

pub const MAX_PHASER_STAGES: usize = 12;

/// How often the phaser works out its all-pass coefficients, in samples.
/// Between two control points each coefficient moves in a straight line.
pub const PHASER_CONTROL_FRAMES: u32 = 8;

pub const MODULATION_PARAM_MODE: u32 = 0;

pub const MODULATION_PARAM_RATE_HZ: u32 = 1;

pub const MODULATION_PARAM_DEPTH: u32 = 2;

pub const MODULATION_PARAM_COLOR: u32 = 3;

pub const MODULATION_PARAM_FEEDBACK: u32 = 4;

pub const MODULATION_PARAM_SPREAD: u32 = 5;

pub const MODULATION_PARAM_TONE: u32 = 6;

pub const MODULATION_PARAM_STAGES: u32 = 7;

#[derive(Clone, Copy, Debug, PartialEq, Eq, Structural)]
pub enum ModulationMode {
    Chorus,
    Flange,
    Phaser,
    Ensemble,
    Adt,
}

impl ModulationMode {
    pub open spec fn at(index: nat) -> Self {
        if index == 0 {
            ModulationMode::Chorus
        } else if index == 1 {
            ModulationMode::Flange
        } else if index == 2 {
            ModulationMode::Phaser
        } else if index == 3 {
            ModulationMode::Ensemble
        } else {
            ModulationMode::Adt
        }
    }

    /// The mode at an index, the last one for what is past it.
    pub fn from_index(index: usize) -> (mode: Self)
        ensures
            mode == Self::at(index as nat),
    {
        match index {
            0 => ModulationMode::Chorus,
            1 => ModulationMode::Flange,
            2 => ModulationMode::Phaser,
            3 => ModulationMode::Ensemble,
            _ => ModulationMode::Adt,
        }
    }

    pub fn to_index(self) -> (index: usize)
        ensures
            Self::at(index as nat) == self,
            index < 5,
    {
        match self {
            ModulationMode::Chorus => 0,
            ModulationMode::Flange => 1,
            ModulationMode::Phaser => 2,
            ModulationMode::Ensemble => 3,
            ModulationMode::Adt => 4,
        }
    }
}

/// The controls of the modulation processor.
#[derive(Clone, Copy, Debug)]
pub struct ModulationParams<S> {
    pub mode: ModulationMode,
    pub rate_hz: S,
    pub depth: S,
    pub color: S,
    pub feedback: S,
    pub spread: S,
    pub tone: S,
    pub stages: u8,
}

/// The stages the phaser runs.
pub open spec fn stages_of<S>(params: ModulationParams<S>) -> int {
    if params.stages < 4 {
        4
    } else if params.stages > MAX_PHASER_STAGES {
        MAX_PHASER_STAGES as int
    } else {
        params.stages as int
    }
}

fn stage_count<S: Sample>(params: &ModulationParams<S>) -> (stages: usize)
    ensures
        stages == stages_of(*params),
{
    if params.stages < 4 {
        4
    } else if params.stages as usize > MAX_PHASER_STAGES {
        MAX_PHASER_STAGES
    } else {
        params.stages as usize
    }
}

/// How far to turn the wet signal down so that a feedback resonance peaks at
/// four: unity up to three quarters of feedback, and past it along with the
/// loop's own peak. It scales the wet output only, never the loop.
pub open spec fn resonance_trim_of<S: Sample>(feedback: S) -> S {
    min_of(S::of_spec(4).times(S::of_spec(1).minus(feedback.abs_spec())), S::of_spec(1))
}

pub fn resonance_trim<S: Sample>(feedback: S) -> (trim: S)
    ensures
        trim == resonance_trim_of(feedback),
{
    min(S::of(4).mul(S::of(1).sub(feedback.abs())), S::of(1))
}

/// The frames the line needs.
pub open spec fn ring_frames_of<S: Sample>(sample_rate: u32) -> int {
    let frames = S::of_spec(MAX_DELAY_MS as nat).times(S::of_spec(sample_rate as nat)).over(
        S::of_spec(1000),
    ).whole_spec() as int;
    if frames + 8 > usize::MAX {
        usize::MAX as int
    } else {
        frames + 8
    }
}

pub fn ring_frames<S: Sample>(sample_rate: u32) -> (frames: usize)
    ensures
        frames == ring_frames_of::<S>(sample_rate),
{
    let frames: usize = S::of(MAX_DELAY_MS).mul(S::of(sample_rate as usize)).div(
        S::of(1000),
    ).whole();
    frames.saturating_add(8)
}

/// A stage's corner: the centre, `lfo` times the depth's octaves away.
pub open spec fn phaser_hz_of<S: Curves>(
    lfo: S,
    log2_center: S,
    octaves: S,
    sample_rate: u32,
) -> S {
    clamp_of(
        log2_center.plus(lfo.times(octaves)).exp2_spec(),
        S::of_spec(60),
        S::of_spec(sample_rate as nat).times(ratio_of(42, 100)),
    )
}

pub fn phaser_hz<S: Curves>(lfo: S, log2_center: S, octaves: S, sample_rate: u32) -> (hz: S)
    ensures
        hz == phaser_hz_of(lfo, log2_center, octaves, sample_rate),
{
    clamp(
        log2_center.add(lfo.mul(octaves)).exp2(),
        S::of(60),
        S::of(sample_rate as usize).mul(ratio(42, 100)),
    )
}

/// The coefficient of an all-pass at a corner, short of one on either side so
/// that the stage is stable.
pub open spec fn allpass_coefficient_of<S: Curves>(hz: S, sample_rate: u32) -> S {
    let rate = S::of_spec(if sample_rate < 1 { 1 } else { sample_rate as nat });
    let g = pi_of::<S>().times(hz).over(rate).tan_spec();
    let one = S::of_spec(1);
    clamp_of(
        one.minus(g).over(one.plus(g)),
        ratio_of::<S>(999, 1000).negated(),
        ratio_of(999, 1000),
    )
}

pub fn allpass_coefficient<S: Curves>(hz: S, sample_rate: u32) -> (coefficient: S)
    ensures
        coefficient == allpass_coefficient_of(hz, sample_rate),
{
    let rate = S::of(at_least_one(sample_rate) as usize);
    let g = pi::<S>().mul(hz).div(rate).tan();
    let one = S::of(1);
    clamp(one.sub(g).div(one.add(g)), ratio::<S>(999, 1000).neg(), ratio(999, 1000))
}

/// `log2` of the phaser's centre: `220 * 28^color` Hz, a straight line in
/// `color`. The numbers are `log2 220` and `log2 28`, as fractions of `2^21`.
pub open spec fn log2_center_of<S: Sample>(color: S) -> S {
    ratio_of::<S>(16_318_694, 2_097_152).plus(
        ratio_of::<S>(10_081_754, 2_097_152).times(color),
    )
}

pub fn log2_center<S: Sample>(color: S) -> (value: S)
    ensures
        value == log2_center_of(color),
{
    ratio::<S>(16_318_694, 2_097_152).add(ratio::<S>(10_081_754, 2_097_152).mul(color))
}

/// The coefficient a stage has at a sweep.
pub open spec fn swept<S: Curves>(lfo: S, depth: S, color: S, sample_rate: u32) -> S {
    let octaves = ratio_of::<S>(15, 100).plus(depth.times(ratio_of(22, 10)));
    allpass_coefficient_of(
        phaser_hz_of(lfo, log2_center_of(color), octaves, sample_rate),
        sample_rate,
    )
}

fn sweep_coefficient<S: Curves>(lfo: S, depth: S, color: S, sample_rate: u32) -> (coefficient: S)
    ensures
        coefficient == swept(lfo, depth, color, sample_rate),
{
    let octaves = ratio::<S>(15, 100).add(depth.mul(ratio(22, 10)));
    allpass_coefficient(
        phaser_hz(lfo, log2_center(color), octaves, sample_rate),
        sample_rate,
    )
}

/// One channel of the phaser: its stages, and the coefficient each uses at
/// this sample, the step to the next, and the one it reaches at the next
/// control point.
#[derive(Clone, Copy)]
pub struct PhaserChannel<S> {
    pub stage: [AllPass<S>; MAX_PHASER_STAGES],
    pub now: [S; MAX_PHASER_STAGES],
    pub step: [S; MAX_PHASER_STAGES],
    pub target: [S; MAX_PHASER_STAGES],
}

/// What a channel of the phaser is.
pub struct Cascading<S> {
    pub stage: Seq<AllPass<S>>,
    pub now: Seq<S>,
    pub step: Seq<S>,
    pub target: Seq<S>,
}

impl<S> View for PhaserChannel<S> {
    type V = Cascading<S>;

    open spec fn view(&self) -> Cascading<S> {
        Cascading {
            stage: self.stage@,
            now: self.now@,
            step: self.step@,
            target: self.target@,
        }
    }
}

/// A row of nothing.
pub open spec fn zeros<S: Sample>() -> Seq<S> {
    Seq::new(MAX_PHASER_STAGES as nat, |i: int| S::of_spec(0))
}

/// A row of stages with nothing stored.
pub open spec fn still_stages<S: Sample>() -> Seq<AllPass<S>> {
    Seq::new(MAX_PHASER_STAGES as nat, |i: int| AllPass { z: S::of_spec(0) })
}

/// A channel as it is made.
pub open spec fn channel_new<S: Sample>() -> Cascading<S> {
    Cascading { stage: still_stages(), now: zeros(), step: zeros(), target: zeros() }
}

/// Where a span is aimed: the sweep, and the controls it is read with.
pub struct Aim<S> {
    pub sweep: S,
    pub depth: S,
    pub color: S,
    pub sample_rate: u32,
}

/// The coefficient of a stage at an aim.
pub open spec fn aimed<S: Curves>(aim: Aim<S>, tilt: S) -> S {
    swept(aim.sweep.plus(tilt), aim.depth, aim.color, aim.sample_rate)
}

/// A channel that heads for an aim from wherever it is.
pub open spec fn channel_primed<S: Curves>(
    channel: Cascading<S>,
    tilt: Seq<S>,
    aim: Aim<S>,
    stages: int,
) -> Cascading<S> {
    Cascading {
        target: Seq::new(
            channel.target.len(),
            |i: int|
                if i < stages {
                    aimed(aim, tilt[i])
                } else {
                    channel.target[i]
                },
        ),
        ..channel
    }
}

/// The share of a span that one sample is.
pub open spec fn per_frame_of<S: Sample>() -> S {
    ratio_of(1, PHASER_CONTROL_FRAMES as nat)
}

/// A channel at a control point: every stage lands exactly on the coefficient
/// it was heading for, and heads for the next.
pub open spec fn channel_turned<S: Curves>(
    channel: Cascading<S>,
    tilt: Seq<S>,
    aim: Aim<S>,
    stages: int,
) -> Cascading<S> {
    Cascading {
        now: Seq::new(
            channel.now.len(),
            |i: int|
                if i < stages {
                    channel.target[i]
                } else {
                    channel.now[i]
                },
        ),
        step: Seq::new(
            channel.step.len(),
            |i: int|
                if i < stages {
                    aimed(aim, tilt[i]).minus(channel.target[i]).times(per_frame_of())
                } else {
                    channel.step[i]
                },
        ),
        ..channel_primed(channel, tilt, aim, stages)
    }
}

/// A channel after its first `count` stages have passed a sample on, and what
/// came out of them. Each coefficient then takes a step.
pub open spec fn channel_run<S: Sample>(channel: Cascading<S>, input: S, count: int) -> (
    Cascading<S>,
    S,
)
    decreases count,
{
    if count <= 0 {
        (channel, input)
    } else {
        let (before, x) = channel_run(channel, input, count - 1);
        let i = count - 1;
        let stage = before.stage[i];
        (
            Cascading {
                stage: before.stage.update(
                    i,
                    AllPass { z: all_pass_kept(stage.z, x, before.now[i]) },
                ),
                now: before.now.update(i, before.now[i].plus(before.step[i])),
                ..before
            },
            all_passed(stage.z, x, before.now[i]),
        )
    }
}

impl<S: Sample> PhaserChannel<S> {
    pub fn new() -> (channel: Self)
        ensures
            channel@ == channel_new::<S>(),
    {
        let channel = PhaserChannel {
            stage: [AllPass::new(); MAX_PHASER_STAGES],
            now: [S::of(0); MAX_PHASER_STAGES],
            step: [S::of(0); MAX_PHASER_STAGES],
            target: [S::of(0); MAX_PHASER_STAGES],
        };
        assert(channel@.stage =~= channel_new::<S>().stage);
        assert(channel@.now =~= channel_new::<S>().now);
        assert(channel@.step =~= channel_new::<S>().step);
        assert(channel@.target =~= channel_new::<S>().target);
        channel
    }

    /// Forget what the stages have stored.
    pub fn reset(&mut self)
        ensures
            final(self)@ == (Cascading { stage: still_stages(), ..old(self)@ }),
    {
        self.stage = [AllPass::new(); MAX_PHASER_STAGES];
        assert(self@.stage =~= still_stages::<S>());
    }

    /// Pass one sample through the first `stages` stages.
    fn run(&mut self, input: S, stages: usize) -> (out: S)
        requires
            stages <= MAX_PHASER_STAGES,
        ensures
            (final(self)@, out) == channel_run(old(self)@, input, stages as int),
    {
        let mut x = input;
        let mut i: usize = 0;
        while i < stages
            invariant
                i <= stages <= MAX_PHASER_STAGES,
                (self@, x) == channel_run(old(self)@, input, i as int),
            decreases stages - i,
        {
            let mut stage = self.stage[i];
            x = stage.next(x, self.now[i]);
            self.stage[i] = stage;
            self.now[i] = self.now[i].add(self.step[i]);
            i = i + 1;
        }
        x
    }
}

impl<S: Curves> PhaserChannel<S> {
    /// Work out where the sweep is now.
    fn prime(
        &mut self,
        tilt: &[S; MAX_PHASER_STAGES],
        sweep: S,
        depth: S,
        color: S,
        sample_rate: u32,
        stages: usize,
    )
        requires
            stages <= MAX_PHASER_STAGES,
        ensures
            final(self)@ == channel_primed(
                old(self)@,
                tilt@,
                Aim { sweep, depth, color, sample_rate },
                stages as int,
            ),
    {
        let ghost after = channel_primed(
            self@,
            tilt@,
            Aim { sweep, depth, color, sample_rate },
            stages as int,
        );
        let mut i: usize = 0;
        while i < stages
            invariant
                i <= stages <= MAX_PHASER_STAGES,
                self.stage == old(self).stage,
                self.now == old(self).now,
                self.step == old(self).step,
                after == channel_primed(
                    old(self)@,
                    tilt@,
                    Aim { sweep, depth, color, sample_rate },
                    stages as int,
                ),
                forall|j: int| 0 <= j < i ==> #[trigger] self.target[j] == after.target[j],
                forall|j: int|
                    i <= j < MAX_PHASER_STAGES ==> #[trigger] self.target[j]
                        == old(self).target[j],
            decreases stages - i,
        {
            self.target[i] = sweep_coefficient(sweep.add(tilt[i]), depth, color, sample_rate);
            i = i + 1;
        }
        assert(self@.target =~= after.target);
    }

    /// Land on the coefficient each stage was heading for, and head for the
    /// next.
    fn turn(
        &mut self,
        tilt: &[S; MAX_PHASER_STAGES],
        sweep: S,
        depth: S,
        color: S,
        sample_rate: u32,
        stages: usize,
    )
        requires
            stages <= MAX_PHASER_STAGES,
        ensures
            final(self)@ == channel_turned(
                old(self)@,
                tilt@,
                Aim { sweep, depth, color, sample_rate },
                stages as int,
            ),
    {
        let ghost after = channel_turned(
            self@,
            tilt@,
            Aim { sweep, depth, color, sample_rate },
            stages as int,
        );
        let per_frame = ratio::<S>(1, PHASER_CONTROL_FRAMES as usize);
        let mut i: usize = 0;
        while i < stages
            invariant
                i <= stages <= MAX_PHASER_STAGES,
                per_frame == per_frame_of::<S>(),
                self.stage == old(self).stage,
                after == channel_turned(
                    old(self)@,
                    tilt@,
                    Aim { sweep, depth, color, sample_rate },
                    stages as int,
                ),
                forall|j: int|
                    #![trigger self.target[j]]
                    #![trigger self.now[j]]
                    #![trigger self.step[j]]
                    0 <= j < i ==> self.target[j] == after.target[j] && self.now[j]
                        == after.now[j] && self.step[j] == after.step[j],
                forall|j: int|
                    #![trigger self.target[j]]
                    #![trigger self.now[j]]
                    #![trigger self.step[j]]
                    i <= j < MAX_PHASER_STAGES ==> self.target[j] == old(self).target[j]
                        && self.now[j] == old(self).now[j] && self.step[j]
                        == old(self).step[j],
            decreases stages - i,
        {
            let next = sweep_coefficient(sweep.add(tilt[i]), depth, color, sample_rate);
            self.now[i] = self.target[i];
            self.step[i] = next.sub(self.now[i]).mul(per_frame);
            self.target[i] = next;
            i = i + 1;
        }
        assert(self@.target =~= after.target);
        assert(self@.now =~= after.now);
        assert(self@.step =~= after.step);
    }
}

/// The modulation processor.
pub struct ModulationEffect<S> {
    pub params: ModulationParams<S>,
    pub sample_rate: u32,
    pub line: DelayLine<S>,
    pub lfo: Lfo<S>,
    pub feedback_l: S,
    pub feedback_r: S,
    pub tone_l: OnePoleLp<S>,
    pub tone_r: OnePoleLp<S>,
    pub phaser_l: PhaserChannel<S>,
    pub phaser_r: PhaserChannel<S>,
    /// How far each stage sits from the sweep, a function of the stage count.
    /// What lies past the stage count is stale and never read.
    pub tilt: [S; MAX_PHASER_STAGES],
    /// Samples left until the next control point. Zero means "now".
    pub phaser_countdown: u32,
    /// Whether the coefficients describe where the oscillator is. False after
    /// anything that moves the oscillator or the stages without the sample
    /// loop seeing it.
    pub phaser_primed: bool,
    /// The Tone value the tone filters' cutoff was last set for, so that the
    /// cutoff is worked out only while Tone moves.
    pub tone_set_for: Option<S>,
    pub depth: Smoothed<S>,
    pub feedback: Smoothed<S>,
    pub spread: Smoothed<S>,
    pub tone: Smoothed<S>,
    pub color: Smoothed<S>,
}

/// What the modulation processor is.
pub struct Modulating<S> {
    pub params: ModulationParams<S>,
    pub sample_rate: u32,
    pub line: Tape<S>,
    pub lfo: Lfo<S>,
    pub feedback_l: S,
    pub feedback_r: S,
    pub tone_l: OnePoleLp<S>,
    pub tone_r: OnePoleLp<S>,
    pub phaser_l: Cascading<S>,
    pub phaser_r: Cascading<S>,
    pub tilt: Seq<S>,
    pub phaser_countdown: u32,
    pub phaser_primed: bool,
    pub tone_set_for: Option<S>,
    pub depth: Smoothed<S>,
    pub feedback: Smoothed<S>,
    pub spread: Smoothed<S>,
    pub tone: Smoothed<S>,
    pub color: Smoothed<S>,
}

impl<S> View for ModulationEffect<S> {
    type V = Modulating<S>;

    open spec fn view(&self) -> Modulating<S> {
        Modulating {
            params: self.params,
            sample_rate: self.sample_rate,
            line: self.line@,
            lfo: self.lfo,
            feedback_l: self.feedback_l,
            feedback_r: self.feedback_r,
            tone_l: self.tone_l,
            tone_r: self.tone_r,
            phaser_l: self.phaser_l@,
            phaser_r: self.phaser_r@,
            tilt: self.tilt@,
            phaser_countdown: self.phaser_countdown,
            phaser_primed: self.phaser_primed,
            tone_set_for: self.tone_set_for,
            depth: self.depth,
            feedback: self.feedback,
            spread: self.spread,
            tone: self.tone,
            color: self.color,
        }
    }
}

/// The time constant of the continuous controls: ten milliseconds.
pub open spec fn modulation_time<S: Sample>() -> S {
    ratio_of(1, 100)
}

pub open spec fn unit_of<S: Sample>(value: S) -> S {
    clamp_of(value, S::of_spec(0), S::of_spec(1))
}

pub open spec fn modulation_feedback<S: Sample>(value: S) -> S {
    clamp_of(value, ratio_of::<S>(92, 100).negated(), ratio_of(92, 100))
}

/// How far a stage sits from the sweep: from one end to the other, evenly.
pub open spec fn tilt_of<S: Sample>(stage: int, stages: int) -> S {
    S::of_spec(stage as nat).over(S::of_spec((stages - 1) as nat)).minus(ratio_of(1, 2)).times(
        ratio_of(11, 10),
    )
}

/// The processor with its tilts laid out for its stage count. The phaser then
/// starts afresh.
pub open spec fn mod_tilted<S: Sample>(m: Modulating<S>) -> Modulating<S> {
    Modulating {
        tilt: Seq::new(
            m.tilt.len(),
            |i: int|
                if i < stages_of(m.params) {
                    tilt_of(i, stages_of(m.params))
                } else {
                    m.tilt[i]
                },
        ),
        phaser_primed: false,
        ..m
    }
}

/// A mode's base delay and how far the oscillator swings it, in milliseconds.
pub open spec fn delay_times<S: Sample>(mode: ModulationMode, depth: S, color: S) -> (S, S) {
    match mode {
        ModulationMode::Flange => (
            ratio_of::<S>(7, 10).plus(S::of_spec(5).times(color)),
            ratio_of::<S>(15, 100).plus(ratio_of::<S>(55, 10).times(depth)),
        ),
        ModulationMode::Ensemble => (
            S::of_spec(6).plus(S::of_spec(14).times(color)),
            S::of_spec(1).plus(S::of_spec(8).times(depth)),
        ),
        ModulationMode::Adt => (
            S::of_spec(14).plus(S::of_spec(28).times(color)),
            ratio_of::<S>(8, 100).plus(ratio_of::<S>(25, 10).times(depth)),
        ),
        _ => (
            S::of_spec(8).plus(S::of_spec(18).times(color)),
            ratio_of::<S>(1, 2).plus(S::of_spec(10).times(depth)),
        ),
    }
}

/// A delay in milliseconds as an offset the line can serve.
pub open spec fn frames_of<S: Sample>(m: Modulating<S>, ms: S) -> S {
    clamp_of(
        max_of(ms, S::of_spec(0)).times(S::of_spec(m.sample_rate as nat)).over(
            S::of_spec(1000),
        ),
        S::of_spec(MIN_READ_OFFSET as nat),
        furthest(m.line.l.len()),
    )
}

/// What a delay mode hears of its line. An ensemble averages a third tap in;
/// ADT keeps a fixed second voice, so that it doubles at no depth too.
pub open spec fn wet_of<S: Sample>(
    m: Modulating<S>,
    mode: ModulationMode,
    depth: S,
    lfo_l: S,
    lfo_r: S,
    color: S,
) -> (S, S) {
    let (base, swing) = delay_times(mode, depth, color);
    let (tap_ll, tap_lr) = tape_at(m.line, frames_of(m, base.plus(swing.times(lfo_l))));
    let (tap_rl, tap_rr) = tape_at(m.line, frames_of(m, base.plus(swing.times(lfo_r))));
    if mode == ModulationMode::Ensemble {
        let (third_l, third_r) = tape_at(
            m.line,
            frames_of(m, base.plus(swing.times(ratio_of(47, 100)))),
        );
        (
            tap_ll.plus(tap_rl).plus(third_l).over(S::of_spec(3)),
            tap_rr.plus(tap_lr).plus(third_r).over(S::of_spec(3)),
        )
    } else if mode == ModulationMode::Adt {
        let (fixed_l, fixed_r) = tape_at(
            m.line,
            frames_of(m, base.times(ratio_of(137, 100))),
        );
        (
            tap_ll.plus(fixed_l).times(ratio_of(1, 2)),
            tap_rr.plus(fixed_r).times(ratio_of(1, 2)),
        )
    } else {
        (tap_ll, tap_rr)
    }
}

/// What one channel feeds back of itself and of the other.
pub open spec fn fed_back<S: Sample>(input: S, feedback: S, own: S, other: S, cross: S) -> S {
    input.plus(
        feedback.times(own.times(S::of_spec(1).minus(cross)).plus(other.times(cross))),
    )
}

/// The processor with its tone filters tuned to a Tone, where they are not.
pub open spec fn tone_tuned<S: Curves>(m: Modulating<S>, tone: S) -> Modulating<S> {
    if m.tone_set_for is Some && tone.equals_spec(m.tone_set_for->Some_0) {
        m
    } else {
        let hz = S::of_spec(350).times(
            S::of_spec(20_000).over(S::of_spec(350)).powf_spec(tone),
        );
        let rate: u32 = if m.sample_rate < 1 {
            1
        } else {
            m.sample_rate
        };
        let coeff = S::of_spec(1).minus(pole_decay(hz, rate));
        Modulating {
            tone_l: OnePoleLp { state: m.tone_l.state, coeff },
            tone_r: OnePoleLp { state: m.tone_r.state, coeff },
            tone_set_for: Some(tone),
            ..m
        }
    }
}

/// The processor after a wet frame has passed its tone filters, and what came
/// out of them.
pub open spec fn toned<S: Curves>(m: Modulating<S>, l: S, r: S, tone: S) -> (
    Modulating<S>,
    (S, S),
) {
    let tuned = tone_tuned(m, tone);
    let out_l = leaked(tuned.tone_l.state, l, tuned.tone_l.coeff);
    let out_r = leaked(tuned.tone_r.state, r, tuned.tone_r.coeff);
    (
        Modulating {
            tone_l: OnePoleLp { state: out_l, coeff: tuned.tone_l.coeff },
            tone_r: OnePoleLp { state: out_r, coeff: tuned.tone_r.coeff },
            ..tuned
        },
        (out_l, out_r),
    )
}

/// One frame of a delay mode.
pub open spec fn delay_frame<S: Curves>(
    m: Modulating<S>,
    l: S,
    r: S,
    depth: S,
    feedback: S,
    spread: S,
    lfo_l: S,
    lfo_r: S,
    color: S,
    tone: S,
) -> (Modulating<S>, (S, S)) {
    let (wet_l, wet_r) = wet_of(m, m.params.mode, depth, lfo_l, lfo_r, color);
    let cross = spread.times(ratio_of(35, 100));
    let trim = resonance_trim_of(feedback);
    let written = Modulating {
        feedback_l: wet_l,
        feedback_r: wet_r,
        line: taped(
            m.line,
            fed_back(l, feedback, wet_l, wet_r, cross),
            fed_back(r, feedback, wet_r, wet_l, cross),
        ),
        ..m
    };
    toned(written, wet_l.times(trim), wet_r.times(trim), tone)
}

/// One frame of the phaser.
pub open spec fn phaser_frame<S: Curves>(m: Modulating<S>, l: S, r: S, feedback: S, tone: S) -> (
    Modulating<S>,
    (S, S),
) {
    let stages = stages_of(m.params);
    let (phaser_l, left) = channel_run(
        m.phaser_l,
        l.plus(m.feedback_l.times(feedback)),
        stages,
    );
    let (phaser_r, right) = channel_run(
        m.phaser_r,
        r.plus(m.feedback_r.times(feedback)),
        stages,
    );
    let trim = resonance_trim_of(feedback);
    let passed = Modulating {
        phaser_l,
        phaser_r,
        feedback_l: left,
        feedback_r: right,
        ..m
    };
    toned(passed, left.times(trim), right.times(trim), tone)
}

/// Where a lag will be at the next control point.
pub open spec fn lag_ahead<S: Sample>(lag: Smoothed<S>) -> S {
    if settled(lag) {
        lag.value
    } else {
        smoothed_after(lag, PHASER_CONTROL_FRAMES as nat).value
    }
}

/// How far the oscillator's phase will have moved by then.
pub open spec fn phase_ahead<S: Sample>(m: Modulating<S>) -> S {
    let rate = S::of_spec(if m.sample_rate < 1 { 1 } else { m.sample_rate as nat });
    S::of_spec(PHASER_CONTROL_FRAMES as nat).times(
        clamp_of(m.params.rate_hz, S::of_spec(0), rate.times(ratio_of(1, 4))),
    ).over(rate)
}

/// The processor heading from where the sweep is, where it did not know.
pub open spec fn mod_primed<S: Curves>(
    m: Modulating<S>,
    depth: S,
    color: S,
    spread: S,
) -> Modulating<S> {
    if m.phaser_primed {
        m
    } else {
        let sample_rate: u32 = if m.sample_rate < 1 {
            1
        } else {
            m.sample_rate
        };
        let stages = stages_of(m.params);
        let sweep_l = lfo_at(m.lfo, S::of_spec(0));
        let sweep_r = lfo_at(m.lfo, spread.times(ratio_of(1, 4)));
        Modulating {
            phaser_l: channel_primed(
                m.phaser_l,
                m.tilt,
                Aim { sweep: sweep_l, depth, color, sample_rate },
                stages,
            ),
            phaser_r: channel_primed(
                m.phaser_r,
                m.tilt,
                Aim { sweep: sweep_r, depth, color, sample_rate },
                stages,
            ),
            phaser_primed: true,
            ..m
        }
    }
}

/// The processor before a frame of the phaser. Between control points it only
/// counts. At one, every stage lands on the coefficient it was heading for and
/// heads for the one the sweep reaches a span on, everything read where it
/// will be by then.
pub open spec fn mod_controlled<S: Curves>(
    m: Modulating<S>,
    depth: S,
    color: S,
    spread: S,
) -> Modulating<S> {
    if m.phaser_primed && m.phaser_countdown > 0 {
        Modulating { phaser_countdown: (m.phaser_countdown - 1) as u32, ..m }
    } else {
        let primed = mod_primed(m, depth, color, spread);
        let sample_rate: u32 = if m.sample_rate < 1 {
            1
        } else {
            m.sample_rate
        };
        let stages = stages_of(m.params);
        let ahead = phase_ahead(m);
        let depth = lag_ahead(m.depth);
        let color = lag_ahead(m.color);
        let spread = lag_ahead(m.spread);
        let sweep_l = lfo_at(m.lfo, ahead);
        let sweep_r = lfo_at(m.lfo, ahead.plus(spread.times(ratio_of(1, 4))));
        Modulating {
            phaser_l: channel_turned(
                primed.phaser_l,
                m.tilt,
                Aim { sweep: sweep_l, depth, color, sample_rate },
                stages,
            ),
            phaser_r: channel_turned(
                primed.phaser_r,
                m.tilt,
                Aim { sweep: sweep_r, depth, color, sample_rate },
                stages,
            ),
            phaser_countdown: (PHASER_CONTROL_FRAMES - 1) as u32,
            ..primed
        }
    }
}

/// The processor with its oscillator one sample on.
pub open spec fn mod_turned<S: Sample>(m: Modulating<S>) -> Modulating<S> {
    Modulating { lfo: lfo_after(m.lfo, 1, m.params.rate_hz, m.sample_rate), ..m }
}

/// The processor with its lags one sample on.
pub open spec fn mod_lagged<S: Sample>(m: Modulating<S>) -> Modulating<S> {
    Modulating {
        depth: smoothed_next(m.depth),
        feedback: smoothed_next(m.feedback),
        spread: smoothed_next(m.spread),
        tone: smoothed_next(m.tone),
        color: smoothed_next(m.color),
        ..m
    }
}

/// One frame: the processor after it, and what it puts out. The two channels
/// are two taps of one oscillator, read before it moves.
pub open spec fn mod_frame<S: Curves>(before: Modulating<S>, l: S, r: S) -> (
    Modulating<S>,
    (S, S),
) {
    let m = mod_lagged(before);
    if m.params.mode == ModulationMode::Phaser {
        phaser_frame(
            mod_turned(mod_controlled(m, m.depth.value, m.color.value, m.spread.value)),
            l,
            r,
            m.feedback.value,
            m.tone.value,
        )
    } else {
        delay_frame(
            mod_turned(Modulating { phaser_primed: false, ..m }),
            l,
            r,
            m.depth.value,
            m.feedback.value,
            m.spread.value,
            lfo_at(m.lfo, S::of_spec(0)),
            lfo_at(m.lfo, m.spread.value.times(ratio_of(1, 4))),
            m.color.value,
            m.tone.value,
        )
    }
}

/// The processor as a step.
pub open spec fn mod_step<S: Curves>() -> spec_fn(Modulating<S>, S, S) -> Modulating<S> {
    |m: Modulating<S>, l: S, r: S| mod_frame(m, l, r).0
}

/// What the processor puts out at a step.
pub open spec fn mod_heard<S: Curves>() -> spec_fn(Modulating<S>, S, S) -> (S, S) {
    |m: Modulating<S>, l: S, r: S| mod_frame(m, l, r).1
}

/// The processor with its tail forgotten and its oscillator where it is.
pub open spec fn mod_cleared<S: Sample>(m: Modulating<S>) -> Modulating<S> {
    Modulating {
        line: blank(m.line.l.len()),
        feedback_l: S::of_spec(0),
        feedback_r: S::of_spec(0),
        tone_l: OnePoleLp { state: S::of_spec(0), coeff: m.tone_l.coeff },
        tone_r: OnePoleLp { state: S::of_spec(0), coeff: m.tone_r.coeff },
        phaser_l: Cascading { stage: still_stages(), ..m.phaser_l },
        phaser_r: Cascading { stage: still_stages(), ..m.phaser_r },
        ..m
    }
}

/// Whether two numbers differ, as numbers.
pub open spec fn differ<S: Sample>(a: S, b: S) -> bool {
    !a.equals_spec(b)
}

/// The processor after a parameter was taken, before it is asked whether the
/// sweep was steered.
pub open spec fn mod_set<S: Sample>(m: Modulating<S>, id: u32, value: S) -> Modulating<S> {
    let params = m.params;
    if id == MODULATION_PARAM_MODE {
        let mode = ModulationMode::at(value.round_spec().whole_spec());
        Modulating { params: ModulationParams { mode, ..params }, ..m }
    } else if id == MODULATION_PARAM_RATE_HZ {
        let rate_hz = clamp_of(value, ratio_of(2, 100), S::of_spec(12));
        Modulating { params: ModulationParams { rate_hz, ..params }, ..m }
    } else if id == MODULATION_PARAM_DEPTH {
        let depth = unit_of(value);
        Modulating {
            params: ModulationParams { depth, ..params },
            depth: Smoothed { target: depth, ..m.depth },
            ..m
        }
    } else if id == MODULATION_PARAM_COLOR {
        let color = unit_of(value);
        Modulating {
            params: ModulationParams { color, ..params },
            color: Smoothed { target: color, ..m.color },
            ..m
        }
    } else if id == MODULATION_PARAM_FEEDBACK {
        let feedback = modulation_feedback(value);
        Modulating {
            params: ModulationParams { feedback, ..params },
            feedback: Smoothed { target: feedback, ..m.feedback },
            ..m
        }
    } else if id == MODULATION_PARAM_SPREAD {
        let spread = unit_of(value);
        Modulating {
            params: ModulationParams { spread, ..params },
            spread: Smoothed { target: spread, ..m.spread },
            ..m
        }
    } else if id == MODULATION_PARAM_TONE {
        let tone = unit_of(value);
        Modulating {
            params: ModulationParams { tone, ..params },
            tone: Smoothed { target: tone, ..m.tone },
            ..m
        }
    } else if id == MODULATION_PARAM_STAGES {
        let count = clamp_of(value.round_spec(), S::of_spec(4), S::of_spec(12)).whole_spec();
        let stages = if count > 255 {
            255u8
        } else {
            count as u8
        };
        mod_tilted(Modulating { params: ModulationParams { stages, ..params }, ..m })
    } else {
        m
    }
}

/// The processor after a parameter was taken. Rate, depth, color and spread
/// steer the sweep: a real change starts the span in flight afresh, and a
/// value sent again does not.
pub open spec fn mod_taking<S: Sample>(m: Modulating<S>, id: u32, value: S) -> Modulating<S> {
    let set = mod_set(m, id, value);
    let steered = differ(set.params.rate_hz, m.params.rate_hz) || differ(
        set.params.depth,
        m.params.depth,
    ) || differ(set.params.color, m.params.color) || differ(
        set.params.spread,
        m.params.spread,
    );
    if steered {
        Modulating { phaser_primed: false, ..set }
    } else {
        set
    }
}

/// The processor fitted to another rate.
pub open spec fn mod_refitted<S: Curves>(m: Modulating<S>, sample_rate: u32) -> Modulating<S> {
    let rate: u32 = if sample_rate < 1 {
        1
    } else {
        sample_rate
    };
    if rate == m.sample_rate {
        m
    } else {
        let coeff = glide_coeff_of(modulation_time(), rate);
        Modulating {
            sample_rate: rate,
            depth: Smoothed { coeff, ..m.depth },
            feedback: Smoothed { coeff, ..m.feedback },
            spread: Smoothed { coeff, ..m.spread },
            tone: Smoothed { coeff, ..m.tone },
            color: Smoothed { coeff, ..m.color },
            phaser_primed: false,
            tone_set_for: None,
            ..m
        }
    }
}

/// The processor as it is made.
pub open spec fn mod_new<S: Curves>(params: ModulationParams<S>, sample_rate: u32) -> Modulating<S> {
    let frames = ring_frames_of::<S>(sample_rate);
    let zero = S::of_spec(0);
    let coeff = glide_coeff_of(modulation_time(), sample_rate);
    let depth = unit_of(params.depth);
    let feedback = modulation_feedback(params.feedback);
    let spread = unit_of(params.spread);
    let tone = unit_of(params.tone);
    let color = unit_of(params.color);
    mod_tilted(
        Modulating {
            params,
            sample_rate,
            line: blank(
                if frames < MIN_LINE_FRAMES { MIN_LINE_FRAMES as nat } else { frames as nat },
            ),
            lfo: Lfo { phase: zero },
            feedback_l: zero,
            feedback_r: zero,
            tone_l: OnePoleLp { state: zero, coeff: zero },
            tone_r: OnePoleLp { state: zero, coeff: zero },
            phaser_l: channel_new(),
            phaser_r: channel_new(),
            tilt: zeros(),
            phaser_countdown: 0,
            phaser_primed: false,
            tone_set_for: None,
            depth: Smoothed { value: depth, target: depth, coeff },
            feedback: Smoothed { value: feedback, target: feedback, coeff },
            spread: Smoothed { value: spread, target: spread, coeff },
            tone: Smoothed { value: tone, target: tone, coeff },
            color: Smoothed { value: color, target: color, coeff },
        },
    )
}

/// A lag that has jumped to a value.
pub open spec fn jumped<S: Sample>(lag: Smoothed<S>, value: S) -> Smoothed<S> {
    Smoothed { value, target: value, coeff: lag.coeff }
}

/// How long the processor goes on sounding: measured against the longest tap
/// it can be asked for. A knob still travelling keeps it awake.
pub open spec fn mod_tail<S: Curves>(m: Modulating<S>) -> u32 {
    if !settled(m.depth) || !settled(m.feedback) || !settled(m.spread) || !settled(m.tone)
        || !settled(m.color) {
        u32::MAX
    } else {
        let rate = S::of_spec(if m.sample_rate < 1 { 1 } else { m.sample_rate as nat });
        feedback_tail_of(
            max_of(m.feedback.value.abs_spec(), m.params.feedback.abs_spec()),
            S::of_spec(MAX_DELAY_MS as nat).times(ratio_of(1, 1000)).times(rate),
        )
    }
}

impl<S: Curves> ModulationEffect<S> {
    pub open spec fn well_formed(&self) -> bool {
        self.line.well_formed()
    }

    pub fn new(params: ModulationParams<S>, sample_rate: u32) -> (effect: Self)
        ensures
            effect.well_formed(),
            effect@ == mod_new(params, sample_rate),
    {
        let time = ratio::<S>(1, 100);
        let bend = ratio::<S>(92, 100);
        let mut effect = ModulationEffect {
            params,
            sample_rate,
            line: DelayLine::with_capacity_frames(ring_frames::<S>(sample_rate)),
            lfo: Lfo::new(),
            feedback_l: S::of(0),
            feedback_r: S::of(0),
            tone_l: OnePoleLp::new(),
            tone_r: OnePoleLp::new(),
            phaser_l: PhaserChannel::new(),
            phaser_r: PhaserChannel::new(),
            tilt: [S::of(0); MAX_PHASER_STAGES],
            phaser_countdown: 0,
            phaser_primed: false,
            tone_set_for: None,
            depth: Smoothed::new(clamp(params.depth, S::of(0), S::of(1)), time, sample_rate),
            feedback: Smoothed::new(
                clamp(params.feedback, bend.neg(), bend),
                time,
                sample_rate,
            ),
            spread: Smoothed::new(clamp(params.spread, S::of(0), S::of(1)), time, sample_rate),
            tone: Smoothed::new(clamp(params.tone, S::of(0), S::of(1)), time, sample_rate),
            color: Smoothed::new(clamp(params.color, S::of(0), S::of(1)), time, sample_rate),
        };
        assert(effect@.tilt =~= zeros::<S>());
        effect.rebuild_tilt();
        effect
    }

    pub fn params(&self) -> (params: ModulationParams<S>)
        ensures
            params == self@.params,
    {
        self.params
    }

    /// Replace the parameter set wholesale: jump straight to the new values,
    /// there is nothing to click coming from a fresh load.
    pub fn set_params(&mut self, params: ModulationParams<S>)
        requires
            old(self).well_formed(),
        ensures
            final(self).well_formed(),
            final(self)@ == mod_tilted(
                Modulating {
                    params,
                    depth: jumped(old(self)@.depth, unit_of(params.depth)),
                    feedback: jumped(
                        old(self)@.feedback,
                        modulation_feedback(params.feedback),
                    ),
                    spread: jumped(old(self)@.spread, unit_of(params.spread)),
                    tone: jumped(old(self)@.tone, unit_of(params.tone)),
                    color: jumped(old(self)@.color, unit_of(params.color)),
                    ..old(self)@
                },
            ),
    {
        let bend = ratio::<S>(92, 100);
        self.params = params;
        self.depth.reset_to(clamp(params.depth, S::of(0), S::of(1)));
        self.feedback.reset_to(clamp(params.feedback, bend.neg(), bend));
        self.spread.reset_to(clamp(params.spread, S::of(0), S::of(1)));
        self.tone.reset_to(clamp(params.tone, S::of(0), S::of(1)));
        self.color.reset_to(clamp(params.color, S::of(0), S::of(1)));
        self.rebuild_tilt();
    }

    /// Lay the tilts out for the stage count.
    fn rebuild_tilt(&mut self)
        requires
            old(self).well_formed(),
        ensures
            final(self).well_formed(),
            final(self)@ == mod_tilted(old(self)@),
    {
        let ghost after = mod_tilted(self@);
        let stages: usize = stage_count(&self.params);
        let last = S::of(stages - 1);
        let mut i: usize = 0;
        while i < stages
            invariant
                i <= stages <= MAX_PHASER_STAGES,
                stages == stages_of(self.params),
                last == S::of_spec((stages - 1) as nat),
                after == mod_tilted(old(self)@),
                *self == (ModulationEffect { tilt: self.tilt, ..*old(self) }),
                forall|j: int| 0 <= j < i ==> #[trigger] self.tilt[j] == after.tilt[j],
                forall|j: int|
                    i <= j < MAX_PHASER_STAGES ==> #[trigger] self.tilt[j] == old(self).tilt[j],
            decreases stages - i,
        {
            self.tilt[i] = S::of(i).div(last).sub(ratio(1, 2)).mul(ratio(11, 10));
            i = i + 1;
        }
        self.phaser_primed = false;
        assert(self@.tilt =~= after.tilt);
    }

    /// Replace `start..end` of `bus` with this node's wet output, without the
    /// event handling `process` wraps it in: for a device that embeds this
    /// processor as a finisher.
    pub fn process_wet(&mut self, bus: &mut StereoBus<S>, start: usize, end: usize)
        requires
            old(self).well_formed(),
            old(bus).well_formed(),
            start <= end <= old(bus).l@.len(),
        ensures
            final(self).well_formed(),
            final(bus).well_formed(),
            old(self).renders(
                old(bus).l@,
                old(bus).r@,
                start as int,
                end as int,
                final(self),
                final(bus).l@,
                final(bus).r@,
            ),
    {
        self.process_range(bus, start, end);
    }

    /// Forget the delay line, the filters, and the oscillator's phase.
    pub fn reset(&mut self)
        requires
            old(self).well_formed(),
        ensures
            final(self).well_formed(),
            final(self)@ == (Modulating {
                lfo: Lfo { phase: S::of_spec(0) },
                phaser_primed: false,
                ..mod_cleared(old(self)@)
            }),
    {
        self.clear_tail();
        self.lfo = Lfo::new();
        self.phaser_primed = false;
    }

    /// Empty the line, the feedback and the filters, keeping the oscillator's
    /// phase.
    fn clear_tail(&mut self)
        requires
            old(self).well_formed(),
        ensures
            final(self).well_formed(),
            final(self)@ == mod_cleared(old(self)@),
    {
        self.line.clear();
        self.feedback_l = S::of(0);
        self.feedback_r = S::of(0);
        self.tone_l.reset();
        self.tone_r.reset();
        self.phaser_l.reset();
        self.phaser_r.reset();
    }

    /// A seek clears the line and the filters, and keeps the oscillator's
    /// phase. A program change and a loop fold leave the line ringing.
    pub fn on_discontinuity(&mut self, kind: Discontinuity)
        requires
            old(self).well_formed(),
        ensures
            final(self).well_formed(),
            final(self)@ == (if kind.leaves() {
                mod_cleared(old(self)@)
            } else {
                old(self)@
            }),
    {
        if !kind.invalidates_tails() {
            return;
        }
        self.clear_tail();
    }

    pub fn tail_frames(&self) -> (frames: u32)
        ensures
            frames == mod_tail(self@),
    {
        if !self.depth.is_settled() || !self.feedback.is_settled() || !self.spread.is_settled()
            || !self.tone.is_settled() || !self.color.is_settled() {
            return u32::MAX;
        }
        let rate = S::of(at_least_one(self.sample_rate) as usize);
        let trip = S::of(MAX_DELAY_MS).mul(ratio(1, 1000)).mul(rate);
        let gain = max(self.feedback.value().abs(), self.params.feedback.abs());
        feedback_tail_frames(gain, trip)
    }

    /// The oscillator runs on the clock, not on the input, so it arrives at
    /// the same phase whether or not the stage was called; and the line's time
    /// stays the wall's.
    pub fn skip_block(&mut self, ctx: &ProcessContext)
        requires
            old(self).well_formed(),
        ensures
            final(self).well_formed(),
            final(self)@ == (Modulating {
                lfo: lfo_after(
                    old(self)@.lfo,
                    ctx.frames as nat,
                    old(self)@.params.rate_hz,
                    old(self)@.sample_rate,
                ),
                phaser_primed: false,
                line: taped_silence(old(self)@.line, ctx.frames as nat),
                ..old(self)@
            }),
    {
        self.lfo.skip(ctx.frames, self.params.rate_hz, self.sample_rate);
        self.phaser_primed = false;
        self.line.write_silence(ctx.frames);
    }

    /// A delay in milliseconds as an offset the line can serve.
    fn to_frames(&self, ms: S) -> (offset: S)
        requires
            self.well_formed(),
        ensures
            offset == frames_of(self@, ms),
    {
        let frames = max(ms, S::of(0)).mul(S::of(self.sample_rate as usize)).div(S::of(1000));
        clamp(frames, S::of(MIN_READ_OFFSET), self.line.max_read_offset())
    }

    /// What the mode hears of the line.
    fn wet(&self, depth: S, lfo_l: S, lfo_r: S, color: S) -> (wet: (S, S))
        requires
            self.well_formed(),
        ensures
            wet == wet_of(self@, self@.params.mode, depth, lfo_l, lfo_r, color),
    {
        let (base, swing) = match self.params.mode {
            ModulationMode::Flange => (
                ratio::<S>(7, 10).add(S::of(5).mul(color)),
                ratio::<S>(15, 100).add(ratio::<S>(55, 10).mul(depth)),
            ),
            ModulationMode::Ensemble => (
                S::of(6).add(S::of(14).mul(color)),
                S::of(1).add(S::of(8).mul(depth)),
            ),
            ModulationMode::Adt => (
                S::of(14).add(S::of(28).mul(color)),
                ratio::<S>(8, 100).add(ratio::<S>(25, 10).mul(depth)),
            ),
            _ => (
                S::of(8).add(S::of(18).mul(color)),
                ratio::<S>(1, 2).add(S::of(10).mul(depth)),
            ),
        };
        let (tap_ll, tap_lr) = self.line.read(self.to_frames(base.add(swing.mul(lfo_l))));
        let (tap_rl, tap_rr) = self.line.read(self.to_frames(base.add(swing.mul(lfo_r))));
        if self.params.mode == ModulationMode::Ensemble {
            let offset = self.to_frames(base.add(swing.mul(ratio(47, 100))));
            let (third_l, third_r) = self.line.read(offset);
            (
                tap_ll.add(tap_rl).add(third_l).div(S::of(3)),
                tap_rr.add(tap_lr).add(third_r).div(S::of(3)),
            )
        } else if self.params.mode == ModulationMode::Adt {
            let (fixed_l, fixed_r) = self.line.read(self.to_frames(base.mul(ratio(137, 100))));
            (tap_ll.add(fixed_l).mul(ratio(1, 2)), tap_rr.add(fixed_r).mul(ratio(1, 2)))
        } else {
            (tap_ll, tap_rr)
        }
    }

    /// One sample of a delay mode.
    fn delay_sample(
        &mut self,
        input_l: S,
        input_r: S,
        depth: S,
        feedback: S,
        spread: S,
        lfo_l: S,
        lfo_r: S,
        color: S,
        tone: S,
    ) -> (out: (S, S))
        requires
            old(self).well_formed(),
        ensures
            final(self).well_formed(),
            (final(self)@, out) == delay_frame(
                old(self)@,
                input_l,
                input_r,
                depth,
                feedback,
                spread,
                lfo_l,
                lfo_r,
                color,
                tone,
            ),
    {
        let (wet_l, wet_r) = self.wet(depth, lfo_l, lfo_r, color);
        self.feedback_l = wet_l;
        self.feedback_r = wet_r;
        let cross = spread.mul(ratio(35, 100));
        let own = S::of(1).sub(cross);
        let fed_l = input_l.add(feedback.mul(wet_l.mul(own).add(wet_r.mul(cross))));
        let fed_r = input_r.add(feedback.mul(wet_r.mul(own).add(wet_l.mul(cross))));
        self.line.write(fed_l, fed_r);
        let trim = resonance_trim(feedback);
        self.tone_filter(wet_l.mul(trim), wet_r.mul(trim), tone)
    }

    /// One sample of the all-pass cascade, at the control-rate coefficients.
    fn phaser_sample(&mut self, input_l: S, input_r: S, feedback: S, tone: S) -> (out: (S, S))
        requires
            old(self).well_formed(),
        ensures
            final(self).well_formed(),
            (final(self)@, out) == phaser_frame(old(self)@, input_l, input_r, feedback, tone),
    {
        let stages: usize = stage_count(&self.params);
        let left = self.phaser_l.run(input_l.add(self.feedback_l.mul(feedback)), stages);
        let right = self.phaser_r.run(input_r.add(self.feedback_r.mul(feedback)), stages);
        self.feedback_l = left;
        self.feedback_r = right;
        let trim = resonance_trim(feedback);
        self.tone_filter(left.mul(trim), right.mul(trim), tone)
    }

    /// Called once a sample before [`Self::phaser_sample`], and before the
    /// oscillator advances.
    fn advance_phaser_control(&mut self, depth: S, color: S, spread: S)
        requires
            old(self).well_formed(),
        ensures
            final(self).well_formed(),
            final(self)@ == mod_controlled(old(self)@, depth, color, spread),
    {
        if self.phaser_primed && self.phaser_countdown > 0 {
            self.phaser_countdown = self.phaser_countdown - 1;
            return;
        }
        let stages: usize = stage_count(&self.params);
        let sample_rate = at_least_one(self.sample_rate);
        if !self.phaser_primed {
            let sweep_l = self.lfo.peek_offset(S::of(0));
            let sweep_r = self.lfo.peek_offset(spread.mul(ratio(1, 4)));
            self.phaser_l.prime(&self.tilt, sweep_l, depth, color, sample_rate, stages);
            self.phaser_r.prime(&self.tilt, sweep_r, depth, color, sample_rate, stages);
            self.phaser_primed = true;
        }
        let depth_ahead = ahead(&self.depth);
        let color_ahead = ahead(&self.color);
        let spread_ahead = ahead(&self.spread);
        let rate = S::of(sample_rate as usize);
        let phase = S::of(PHASER_CONTROL_FRAMES as usize).mul(
            clamp(self.params.rate_hz, S::of(0), rate.mul(ratio(1, 4))),
        ).div(rate);
        let sweep_l = self.lfo.peek_offset(phase);
        let sweep_r = self.lfo.peek_offset(phase.add(spread_ahead.mul(ratio(1, 4))));
        self.phaser_l.turn(&self.tilt, sweep_l, depth_ahead, color_ahead, sample_rate, stages);
        self.phaser_r.turn(&self.tilt, sweep_r, depth_ahead, color_ahead, sample_rate, stages);
        self.phaser_countdown = PHASER_CONTROL_FRAMES - 1;
    }

    /// The wet path's low-pass. Its cutoff is set only when `tone` differs
    /// from the value it was last set for.
    fn tone_filter(&mut self, left: S, right: S, tone: S) -> (out: (S, S))
        requires
            old(self).well_formed(),
        ensures
            final(self).well_formed(),
            (final(self)@, out) == toned(old(self)@, left, right, tone),
    {
        let set = match self.tone_set_for {
            Some(value) => tone.equals(value),
            None => false,
        };
        if !set {
            let hz = S::of(350).mul(S::of(20_000).div(S::of(350)).powf(tone));
            let rate = at_least_one(self.sample_rate);
            self.tone_l.set_cutoff(hz, rate);
            self.tone_r.set_cutoff(hz, rate);
            self.tone_set_for = Some(tone);
        }
        (self.tone_l.next_sample(left), self.tone_r.next_sample(right))
    }

    /// One frame in whichever mode.
    fn process_frame(&mut self, input_l: S, input_r: S) -> (out: (S, S))
        requires
            old(self).well_formed(),
        ensures
            final(self).well_formed(),
            (final(self)@, out) == mod_frame(old(self)@, input_l, input_r),
    {
        let depth = self.depth.advance();
        let feedback = self.feedback.advance();
        let spread = self.spread.advance();
        let tone = self.tone.advance();
        let color = self.color.advance();
        if self.params.mode == ModulationMode::Phaser {
            // Reads the oscillator ahead of itself, so before it advances.
            self.advance_phaser_control(depth, color, spread);
            self.lfo.skip(1, self.params.rate_hz, self.sample_rate);
            self.phaser_sample(input_l, input_r, feedback, tone)
        } else {
            // A stretch in another mode leaves the phaser's coefficients
            // behind the oscillator.
            self.phaser_primed = false;
            let sweep_l = self.lfo.peek_offset(S::of(0));
            let sweep_r = self.lfo.peek_offset(spread.mul(ratio(1, 4)));
            self.lfo.skip(1, self.params.rate_hz, self.sample_rate);
            self.delay_sample(
                input_l,
                input_r,
                depth,
                feedback,
                spread,
                sweep_l,
                sweep_r,
                color,
                tone,
            )
        }
    }

    /// Fit the lags to another rate.
    fn refit(&mut self, sample_rate: u32)
        requires
            old(self).well_formed(),
        ensures
            final(self).well_formed(),
            final(self)@ == mod_refitted(old(self)@, sample_rate),
    {
        let rate = at_least_one(sample_rate);
        if rate != self.sample_rate {
            let time = ratio::<S>(1, 100);
            self.sample_rate = rate;
            self.depth.set_time(time, rate);
            self.feedback.set_time(time, rate);
            self.spread.set_time(time, rate);
            self.tone.set_time(time, rate);
            self.color.set_time(time, rate);
            self.phaser_primed = false;
            self.tone_set_for = None;
        }
    }

    /// Render a block: fit a changed rate, render between the parameter
    /// events, and put silence in place of what is not finite; if anything was
    /// not, the line and the all-passes start clean.
    pub fn process<B: Copy>(
        &mut self,
        ctx: &ProcessContext,
        bus: &mut StereoBus<S>,
        events_in: &EventList<S, B>,
    )
        requires
            old(self).well_formed(),
            old(bus).well_formed(),
        ensures
            final(self).well_formed(),
            final(bus).well_formed(),
            S::of_spec(0).finite_spec() ==> all_finite(
                final(bus).l@,
                fitting(ctx.frames as int, old(bus).l@.len() as int),
            ) && all_finite(
                final(bus).r@,
                fitting(ctx.frames as int, old(bus).l@.len() as int),
            ),
            exists|fitted: Self, split: Desk<Self, S>|
                fitted@ == mod_refitted(old(self)@, ctx.sample_rate) && #[trigger] carried_out(
                    Desk { node: fitted, l: old(bus).l@, r: old(bus).r@ },
                    param_plan(
                        events_in@,
                        fitting(ctx.frames as int, old(bus).l@.len() as int),
                    ),
                    split,
                ) && mod_scrubbed(
                    split,
                    fitting(ctx.frames as int, old(bus).l@.len() as int),
                    *final(self),
                    final(bus).l@,
                    final(bus).r@,
                ),
    {
        self.refit(ctx.sample_rate);
        let ghost fitted = *self;
        let capacity: usize = bus.capacity();
        let frames: usize = if ctx.frames < capacity {
            ctx.frames
        } else {
            capacity
        };
        process_param_split(self, bus, events_in, frames);
        let ghost split = Desk { node: *self, l: bus.l@, r: bus.r@ };
        if scrub_non_finite(bus, frames) {
            self.clear_tail();
        }
        proof {
            if S::of_spec(0).finite_spec() {
                a_scrubbed_block_is_finite(split.l, frames as int);
                a_scrubbed_block_is_finite(split.r, frames as int);
            }
            assert(frames == fitting(ctx.frames as int, old(bus).l@.len() as int));
            assert(carried_out(
                Desk { node: fitted, l: old(bus).l@, r: old(bus).r@ },
                param_plan(events_in@, frames as int),
                split,
            ));
            assert(mod_scrubbed(split, frames as int, *self, bus.l@, bus.r@));
        }
    }
}

/// What is left of a rendered block once it has been scrubbed.
pub open spec fn mod_scrubbed<S: Sample>(
    split: Desk<ModulationEffect<S>, S>,
    frames: int,
    after: ModulationEffect<S>,
    l: Seq<S>,
    r: Seq<S>,
) -> bool {
    &&& l == scrubbed(split.l, frames)
    &&& r == scrubbed(split.r, frames)
    &&& after@ == (if all_finite(split.l, frames) && all_finite(split.r, frames) {
        split.node@
    } else {
        mod_cleared(split.node@)
    })
}

/// Where a lag will be at the next control point.
fn ahead<S: Sample>(lag: &Smoothed<S>) -> (value: S)
    ensures
        value == lag_ahead(*lag),
{
    if lag.is_settled() {
        lag.value()
    } else {
        let mut copy = *lag;
        copy.advance_by(PHASER_CONTROL_FRAMES as usize)
    }
}

impl<S: Curves> RangeProcessor<S> for ModulationEffect<S> {
    open spec fn ready(&self) -> bool {
        self.well_formed()
    }

    open spec fn renders(
        &self,
        l: Seq<S>,
        r: Seq<S>,
        start: int,
        end: int,
        after: &Self,
        new_l: Seq<S>,
        new_r: Seq<S>,
    ) -> bool {
        &&& after@ == after_frames(mod_step(), self@, l, r, start, end - start)
        &&& new_l == left_of(mod_step(), mod_heard(), self@, l, r, start, end)
        &&& new_r == right_of(mod_step(), mod_heard(), self@, l, r, start, end)
    }

    open spec fn takes(&self, id: u32, value: S, after: &Self) -> bool {
        after@ == mod_taking(self@, id, value)
    }

    fn process_range(&mut self, bus: &mut StereoBus<S>, start: usize, end: usize) {
        let ghost before = self@;
        let ghost l = bus.l@;
        let ghost r = bus.r@;
        proof {
            lemma_nothing_rendered(mod_step(), mod_heard(), before, l, r, start as int);
        }
        let mut i: usize = start;
        while i < end
            invariant
                start <= i <= end <= l.len(),
                l.len() == r.len(),
                bus.l@.len() == l.len(),
                bus.r@.len() == r.len(),
                self.well_formed(),
                self@ == after_frames(mod_step(), before, l, r, start as int, i - start),
                bus.l@ == left_of(
                    mod_step(),
                    mod_heard(),
                    before,
                    l,
                    r,
                    start as int,
                    i as int,
                ),
                bus.r@ == right_of(
                    mod_step(),
                    mod_heard(),
                    before,
                    l,
                    r,
                    start as int,
                    i as int,
                ),
            decreases end - i,
        {
            proof {
                lemma_frame_rendered(
                    mod_step(),
                    mod_heard(),
                    before,
                    l,
                    r,
                    start as int,
                    i as int,
                );
            }
            let ghost here = self@;
            let (out_l, out_r) = self.process_frame(bus.l[i], bus.r[i]);
            assert(self@ == mod_frame(here, l[i as int], r[i as int]).0);
            assert((out_l, out_r) == mod_frame(here, l[i as int], r[i as int]).1);
            bus.l[i] = out_l;
            bus.r[i] = out_r;
            i = i + 1;
        }
    }

    fn apply_param(&mut self, id: u32, value: S) {
        let before = self.params;
        let unit = clamp(value, S::of(0), S::of(1));
        match id {
            MODULATION_PARAM_MODE => {
                self.params.mode = ModulationMode::from_index(value.round().whole());
            },
            MODULATION_PARAM_RATE_HZ => {
                self.params.rate_hz = clamp(value, ratio(2, 100), S::of(12));
            },
            MODULATION_PARAM_DEPTH => {
                self.params.depth = unit;
                self.depth.set_target(unit);
            },
            MODULATION_PARAM_COLOR => {
                self.params.color = unit;
                self.color.set_target(unit);
            },
            MODULATION_PARAM_FEEDBACK => {
                let bend = ratio::<S>(92, 100);
                self.params.feedback = clamp(value, bend.neg(), bend);
                self.feedback.set_target(self.params.feedback);
            },
            MODULATION_PARAM_SPREAD => {
                self.params.spread = unit;
                self.spread.set_target(unit);
            },
            MODULATION_PARAM_TONE => {
                self.params.tone = unit;
                self.tone.set_target(unit);
            },
            MODULATION_PARAM_STAGES => {
                let count: usize = clamp(value.round(), S::of(4), S::of(12)).whole();
                self.params.stages = if count > 255 {
                    255
                } else {
                    count as u8
                };
                self.rebuild_tilt();
            },
            _ => {},
        }
        let after = self.params;
        if !after.rate_hz.equals(before.rate_hz) || !after.depth.equals(before.depth)
            || !after.color.equals(before.color) || !after.spread.equals(before.spread) {
            self.phaser_primed = false;
        }
    }
}

/// A seek keeps the oscillator where it is, and a sleep takes it exactly where
/// rendering would have: whatever is rendered, the oscillator after it is the
/// one a skipped block of the same length leaves.
pub proof fn the_oscillator_runs_on_the_clock<S: Curves>(
    m: Modulating<S>,
    l: Seq<S>,
    r: Seq<S>,
    start: int,
    frames: nat,
)
    ensures
        mod_cleared(m).lfo == m.lfo,
        after_frames(mod_step(), m, l, r, start, frames as int).lfo == lfo_after(
            m.lfo,
            frames,
            m.params.rate_hz,
            m.sample_rate,
        ),
        after_frames(mod_step(), m, l, r, start, frames as int).params == m.params,
        after_frames(mod_step(), m, l, r, start, frames as int).sample_rate == m.sample_rate,
    decreases frames,
{
    if frames > 0 {
        the_oscillator_runs_on_the_clock(m, l, r, start, (frames - 1) as nat);
        let here = after_frames(mod_step(), m, l, r, start, frames - 1);
        let next = mod_frame(here, l[start + frames - 1], r[start + frames - 1]).0;
        assert(after_frames(mod_step(), m, l, r, start, frames as int) == next);
        lemma_frame_moves_the_oscillator(here, l[start + frames - 1], r[start + frames - 1]);
        assert(lfo_after(here.lfo, 1, m.params.rate_hz, m.sample_rate) == lfo_after(
            m.lfo,
            frames,
            m.params.rate_hz,
            m.sample_rate,
        )) by {
            reveal_with_fuel(lfo_after, 2);
        }
    }
}

proof fn lemma_frame_moves_the_oscillator<S: Curves>(m: Modulating<S>, l: S, r: S)
    ensures
        mod_frame(m, l, r).0.lfo == lfo_after(m.lfo, 1, m.params.rate_hz, m.sample_rate),
        mod_frame(m, l, r).0.params == m.params,
        mod_frame(m, l, r).0.sample_rate == m.sample_rate,
{
}

/// A parameter sent again with the value it has does not disturb the sweep:
/// the span in flight goes on, whatever parameter but the stage count it is.
pub proof fn a_repeated_value_does_not_restart_the_sweep<S: Sample>(
    m: Modulating<S>,
    id: u32,
    value: S,
)
    requires
        id != MODULATION_PARAM_STAGES,
        !differ(mod_set(m, id, value).params.rate_hz, m.params.rate_hz),
        !differ(mod_set(m, id, value).params.depth, m.params.depth),
        !differ(mod_set(m, id, value).params.color, m.params.color),
        !differ(mod_set(m, id, value).params.spread, m.params.spread),
    ensures
        mod_taking(m, id, value).phaser_primed == m.phaser_primed,
        mod_taking(m, id, value).phaser_countdown == m.phaser_countdown,
        mod_taking(m, id, value).phaser_l == m.phaser_l,
        mod_taking(m, id, value).phaser_r == m.phaser_r,
{
}

/// The trim leaves moderate feedback alone, and past the knee holds the loop's
/// peak, `1 / (1 - |feedback|)`, to four.
pub proof fn the_trim_caps_the_resonance(feedback: Fixed)
    requires
        within(feedback, FRACTION as int),
    ensures
        4 * magnitude(feedback.raw as int) <= 3 * FRACTION ==> resonance_trim_of(feedback)
            == Fixed::of_spec(1),
        resonance_trim_of(feedback).raw <= 4 * (FRACTION - magnitude(feedback.raw as int)),
        is_gain(resonance_trim_of(feedback)),
{
    let f = FRACTION as int;
    let left = f - magnitude(feedback.raw as int);
    assert(Fixed::of_spec(1).minus(feedback.abs_spec()).raw == left);
    assert((4 * f) * left / f == 4 * left && 0 <= (4 * f) * left) by (nonlinear_arith)
        requires
            f == 0x1_0000_0000,
            0 <= left,
    ;
    assert(Fixed::of_spec(4).times(Fixed::of_spec(1).minus(feedback.abs_spec())).raw == 4 * left);
}

/// The furthest a coefficient goes from nothing: `0.999`, short of which a stage
/// is stable.
pub open spec fn stable_reach() -> int {
    ratio_of::<Fixed>(999, 1000).raw as int
}

/// A stage is never aimed at a coefficient at which it would not be stable.
pub proof fn every_aim_is_stable(aim: Aim<Fixed>, tilt: Fixed)
    ensures
        within(aimed(aim, tilt), stable_reach()),
        0 < stable_reach() < FRACTION,
{
    lemma_reach();
}

proof fn lemma_reach()
    ensures
        stable_reach() == 4_290_672_328,
        per_frame_of::<Fixed>().raw == 0x2000_0000,
{
    let f = FRACTION as int;
    assert((999 * f) * f == 999 * 0x1_0000_0000_0000_0000 && (1 * f) * f == 0x1_0000_0000_0000_0000)
        by (nonlinear_arith)
        requires
            f == 0x1_0000_0000,
    ;
    assert((999int * 0x1_0000_0000_0000_0000) / (1000int * 0x1_0000_0000) == 4_290_672_328);
    assert(0x1_0000_0000_0000_0000int / (8int * 0x1_0000_0000) == 0x2000_0000);
}

/// A channel after some samples, with no control point among them.
pub open spec fn channel_ran<S: Sample>(
    channel: Cascading<S>,
    inputs: Seq<S>,
    stages: int,
) -> Cascading<S>
    decreases inputs.len(),
{
    if inputs.len() == 0 {
        channel
    } else {
        channel_run(channel_ran(channel, inputs.drop_last(), stages), inputs.last(), stages).0
    }
}

proof fn lemma_run_steps<S: Sample>(channel: Cascading<S>, input: S, count: int)
    requires
        0 <= count <= channel.now.len(),
    ensures
        ({
            let after = channel_run(channel, input, count).0;
            &&& after.now.len() == channel.now.len()
            &&& after.step == channel.step
            &&& after.target == channel.target
            &&& forall|i: int|
                0 <= i < channel.now.len() ==> #[trigger] after.now[i] == (if i < count {
                    channel.now[i].plus(channel.step[i])
                } else {
                    channel.now[i]
                })
        }),
    decreases count,
{
    if count > 0 {
        lemma_run_steps(channel, input, count - 1);
    }
}

proof fn lemma_eighth(way: Fixed)
    requires
        within(way, 0x2_0000_0000),
    ensures
        way.raw >= 0 ==> 0 <= 8 * way.times(per_frame_of()).raw <= way.raw < 8 * way.times(
            per_frame_of(),
        ).raw + 8,
        way.raw <= 0 ==> 0 <= -8 * way.times(per_frame_of()).raw <= -way.raw < -8 * way.times(
            per_frame_of(),
        ).raw + 8,
{
    lemma_reach();
    let n = magnitude(way.raw as int);
    let f = FRACTION as int;
    assert(n * 0x2000_0000 / f == n / 8) by (nonlinear_arith)
        requires
            0 <= n,
            f == 0x1_0000_0000,
    ;
    assert(0int / f == 0);
    if way.raw < 0 {
        assert(way.raw * 0x2000_0000 == -(n * 0x2000_0000));
    }
}

/// The line between two control points. A channel at a control point is on the
/// coefficients of the formula itself; from there, at every sample of the span,
/// each lies between that one and the formula's at the next point, and at its
/// end within eight counts of it. So where both ends are short of one, every
/// stage is stable all the way.
pub proof fn a_line_of_coefficients_stays_stable(
    channel: Cascading<Fixed>,
    tilt: Seq<Fixed>,
    aim: Aim<Fixed>,
    stages: int,
    inputs: Seq<Fixed>,
    i: int,
)
    requires
        channel.now.len() == MAX_PHASER_STAGES,
        channel.step.len() == MAX_PHASER_STAGES,
        channel.target.len() == MAX_PHASER_STAGES,
        0 <= i < stages <= MAX_PHASER_STAGES,
        within(channel.target[i], stable_reach()),
        inputs.len() <= PHASER_CONTROL_FRAMES,
    ensures
        ({
            let turned = channel_turned(channel, tilt, aim, stages);
            let here = channel_ran(turned, inputs, stages);
            let from = channel.target[i].raw;
            let to = aimed(aim, tilt[i]).raw;
            &&& turned.now[i] == channel.target[i]
            &&& turned.target[i] == aimed(aim, tilt[i])
            &&& within(here.now[i], stable_reach())
            &&& from <= here.now[i].raw <= to || to <= here.now[i].raw <= from
            &&& inputs.len() == PHASER_CONTROL_FRAMES ==> magnitude(here.now[i].raw - to) < 8
        }),
{
    lemma_reach();
    every_aim_is_stable(aim, tilt[i]);
    let turned = channel_turned(channel, tilt, aim, stages);
    lemma_eighth(aimed(aim, tilt[i]).minus(channel.target[i]));
    lemma_ran(turned, inputs, stages, i);
}

proof fn lemma_ran(channel: Cascading<Fixed>, inputs: Seq<Fixed>, stages: int, i: int)
    requires
        0 <= i < stages <= channel.now.len(),
        inputs.len() <= PHASER_CONTROL_FRAMES,
        within(channel.now[i], 0x1_0000_0000),
        within(channel.step[i], 0x1_0000_0000),
    ensures
        ({
            let here = channel_ran(channel, inputs, stages);
            &&& here.now.len() == channel.now.len()
            &&& here.step == channel.step
            &&& here.now[i].raw == channel.now[i].raw + inputs.len() * channel.step[i].raw
        }),
    decreases inputs.len(),
{
    if inputs.len() > 0 {
        let before = inputs.drop_last();
        lemma_ran(channel, before, stages, i);
        lemma_run_steps(channel_ran(channel, before, stages), inputs.last(), stages);
        let n = before.len() as int;
        let step = channel.step[i].raw as int;
        assert(-n * 0x1_0000_0000 <= n * step <= n * 0x1_0000_0000) by (nonlinear_arith)
            requires
                0 <= n,
                -0x1_0000_0000 <= step <= 0x1_0000_0000,
        ;
        assert((n + 1) * step == n * step + step) by (nonlinear_arith);
    }
}

/// The processor after a frame of silence.
#[verifier::opaque]
pub open spec fn mod_hushed<S: Curves>(m: Modulating<S>) -> Modulating<S> {
    mod_frame(m, S::of_spec(0), S::of_spec(0)).0
}

/// The processor after some frames of silence.
pub open spec fn mod_silenced<S: Curves>(m: Modulating<S>, frames: nat) -> Modulating<S>
    decreases frames,
{
    if frames == 0 {
        m
    } else {
        mod_hushed(mod_silenced(m, (frames - 1) as nat))
    }
}

/// Whether a delay mode stands still in all that its loop depends on, with a
/// feedback of three quarters at the most.
pub open spec fn mod_still(m: Modulating<Fixed>) -> bool {
    &&& m.params.mode != ModulationMode::Phaser
    &&& settled(m.feedback)
    &&& settled(m.spread)
    &&& is_gain(m.spread.value)
    &&& 4 * magnitude(m.feedback.value.raw as int) <= 3 * FRACTION
    &&& MIN_LINE_FRAMES <= m.line.l.len() <= 0x4000_0000
    &&& m.line.r.len() == m.line.l.len()
}

/// Whether all that lies on a line is within a bound.
pub open spec fn line_within(tape: Tape<Fixed>, bound: int) -> bool {
    newest_within(tape.l, tape.l.len() as int, bound) && newest_within(
        tape.r,
        tape.r.len() as int,
        bound,
    )
}

/// The most that can be read of a line within a bound.
pub open spec fn read_bound(bound: int) -> int {
    (5 * bound + 22) / 4
}

/// What a feedback leaves of a bound in one trip: its share of the most that can
/// be read, and no less than a floor under which rounding may hold it.
pub open spec fn mod_kept(feedback: Fixed, bound: int) -> int {
    let kept = read_bound(bound) * magnitude(feedback.raw as int) / (FRACTION as int);
    if kept < 100 {
        100
    } else {
        kept
    }
}

/// What some trips leave of a bound.
pub open spec fn mod_left(feedback: Fixed, bound: int, trips: nat) -> int
    decreases trips,
{
    if trips == 0 {
        bound
    } else {
        mod_kept(feedback, mod_left(feedback, bound, (trips - 1) as nat))
    }
}

#[verifier::rlimit(40)]
#[verifier::spinoff_prover]
proof fn lemma_wet(
    m: Modulating<Fixed>,
    mode: ModulationMode,
    depth: Fixed,
    lfo_l: Fixed,
    lfo_r: Fixed,
    color: Fixed,
    bound: int,
)
    requires
        MIN_LINE_FRAMES <= m.line.l.len() <= 0x4000_0000,
        m.line.r.len() == m.line.l.len(),
        line_within(m.line, bound),
        0 <= bound <= 0x4_0000_0000_0000,
    ensures
        within(wet_of(m, mode, depth, lfo_l, lfo_r, color).0, read_bound(bound)),
        within(wet_of(m, mode, depth, lfo_l, lfo_r, color).1, read_bound(bound)),
{
    let w = read_bound(bound);
    let (base, swing) = delay_times(mode, depth, color);
    let at_l = frames_of(m, base.plus(swing.times(lfo_l)));
    let at_r = frames_of(m, base.plus(swing.times(lfo_r)));
    let (ll, lr) = lemma_tap(m.line, at_l, bound);
    let (rl, rr) = lemma_tap(m.line, at_r, bound);
    if mode == ModulationMode::Ensemble {
        let at = frames_of(m, base.plus(swing.times(ratio_of(47, 100))));
        let (l, r) = lemma_tap(m.line, at, bound);
        lemma_third(ll.plus(rl).plus(l), w);
        lemma_third(rr.plus(lr).plus(r), w);
        assert(wet_of(m, mode, depth, lfo_l, lfo_r, color) == (
            ll.plus(rl).plus(l).over(Fixed::of_spec(3)),
            rr.plus(lr).plus(r).over(Fixed::of_spec(3)),
        ));
    } else if mode == ModulationMode::Adt {
        let at = frames_of(m, base.times(ratio_of(137, 100)));
        let (l, r) = lemma_tap(m.line, at, bound);
        lemma_half_of_two(ll.plus(l), w);
        lemma_half_of_two(rr.plus(r), w);
        assert(wet_of(m, mode, depth, lfo_l, lfo_r, color) == (
            ll.plus(l).times(ratio_of(1, 2)),
            rr.plus(r).times(ratio_of(1, 2)),
        ));
    } else {
        assert(wet_of(m, mode, depth, lfo_l, lfo_r, color) == (ll, rr));
    }
}

/// What is read of a line at an offset, and how far from nothing it can be.
proof fn lemma_tap(tape: Tape<Fixed>, offset: Fixed, bound: int) -> (taps: (Fixed, Fixed))
    requires
        MIN_LINE_FRAMES <= tape.l.len() <= 0x4000_0000,
        tape.r.len() == tape.l.len(),
        line_within(tape, bound),
        0 <= bound <= 0x4_0000_0000_0000,
    ensures
        taps == tape_at(tape, offset),
        within(taps.0, read_bound(bound)),
        within(taps.1, read_bound(bound)),
{
    a_line_reads_within_five_quarters(tape.l, offset, bound);
    a_line_reads_within_five_quarters(tape.r, offset, bound);
    tape_at(tape, offset)
}

proof fn lemma_third(sum: Fixed, bound: int)
    requires
        within(sum, 3 * bound),
        0 <= bound,
    ensures
        within(sum.over(Fixed::of_spec(3)), bound),
{
    let f = FRACTION as int;
    let n = magnitude(sum.raw as int);
    assert(n * f <= bound * (3 * f)) by (nonlinear_arith)
        requires
            n <= 3 * bound,
            f == 0x1_0000_0000,
    ;
    quotients_stay_within(sum, Fixed::of_spec(3), bound);
}

proof fn lemma_half_of_two(sum: Fixed, bound: int)
    requires
        within(sum, 2 * bound),
        0 <= bound,
    ensures
        within(sum.times(ratio_of(1, 2)), bound),
{
    let f = FRACTION as int;
    assert(ratio_of::<Fixed>(1, 2).raw == 0x8000_0000) by {
        assert((1 * f) * f == 0x1_0000_0000_0000_0000) by (nonlinear_arith)
            requires
                f == 0x1_0000_0000,
        ;
        assert(0x1_0000_0000_0000_0000int / 0x2_0000_0000 == 0x8000_0000);
    }
    a_gain_scales_a_bound(sum, ratio_of(1, 2), 2 * bound);
    assert((2 * bound) * 0x8000_0000 / f == bound) by (nonlinear_arith)
        requires
            f == 0x1_0000_0000,
    ;
}

proof fn lemma_fed_back(feedback: Fixed, own: Fixed, other: Fixed, cross: Fixed, bound: int)
    requires
        is_gain(cross),
        within(own, bound),
        within(other, bound),
        0 <= bound <= 0x1000_0000_0000_0000,
        magnitude(feedback.raw as int) <= FRACTION,
    ensures
        within(
            fed_back(Fixed::of_spec(0), feedback, own, other, cross),
            bound * magnitude(feedback.raw as int) / (FRACTION as int),
        ),
{
    let blend = own.times(Fixed::of_spec(1).minus(cross)).plus(other.times(cross));
    a_blend_stays_within(own, other, cross, bound);
    let size = Fixed { raw: magnitude(feedback.raw as int) as i64 };
    a_gain_scales_a_bound(blend, size, bound);
    products_commute(blend, size);
    if feedback.raw < 0 {
        products_mirror(size, blend);
        assert(size.negated() == feedback);
    }
}

proof fn lemma_mod_step(m: Modulating<Fixed>, bound: int)
    requires
        mod_still(m),
        line_within(m.line, bound),
        100 <= bound <= 0x4_0000_0000_0000,
    ensures
        ({
            let after = mod_hushed(m);
            let kept = mod_kept(m.feedback.value, bound);
            &&& mod_still(after)
            &&& after.feedback == m.feedback
            &&& after.line.l.len() == m.line.l.len()
            &&& 100 <= kept <= bound
            &&& within(after.line.l[0], kept)
            &&& within(after.line.r[0], kept)
            &&& forall|i: int|
                0 < i < m.line.l.len() ==> #[trigger] after.line.l[i] == m.line.l[i - 1]
            &&& forall|i: int|
                0 < i < m.line.r.len() ==> #[trigger] after.line.r[i] == m.line.r[i - 1]
        }),
{
    reveal(mod_hushed);
    a_settled_lag_stays(m.feedback);
    a_settled_lag_stays(m.spread);
    let f = FRACTION as int;
    let lagged = mod_lagged(m);
    let turned = mod_turned(Modulating { phaser_primed: false, ..lagged });
    let lfo_l = lfo_at(lagged.lfo, Fixed::of_spec(0));
    let lfo_r = lfo_at(lagged.lfo, lagged.spread.value.times(ratio_of(1, 4)));
    let (wet_l, wet_r) = wet_of(
        turned,
        m.params.mode,
        lagged.depth.value,
        lfo_l,
        lfo_r,
        lagged.color.value,
    );
    lemma_wet(
        turned,
        m.params.mode,
        lagged.depth.value,
        lfo_l,
        lfo_r,
        lagged.color.value,
        bound,
    );
    let cross = m.spread.value.times(ratio_of(35, 100));
    assert(is_gain(ratio_of::<Fixed>(35, 100))) by {
        assert((35 * f) * f == 35 * 0x1_0000_0000_0000_0000) by (nonlinear_arith)
            requires
                f == 0x1_0000_0000,
        ;
        assert((35int * 0x1_0000_0000_0000_0000) / (100int * 0x1_0000_0000) == 1_503_238_553);
    }
    gains_multiply_to_gains(m.spread.value, ratio_of(35, 100));
    let w = read_bound(bound);
    lemma_fed_back(m.feedback.value, wet_l, wet_r, cross, w);
    lemma_fed_back(m.feedback.value, wet_r, wet_l, cross, w);
    let g = magnitude(m.feedback.value.raw as int);
    let kept = w * g / f;
    assert(0 <= kept && 16 * kept <= 15 * bound + 66) by (nonlinear_arith)
        requires
            kept == w * g / f,
            4 * w <= 5 * bound + 22,
            0 <= w,
            0 <= g,
            4 * g <= 3 * f,
            f == 0x1_0000_0000,
    {
        assert(0 <= w * g);
        assert(kept * f <= w * g);
        assert((4 * w) * (4 * g) <= (5 * bound + 22) * (3 * f));
        assert((16 * kept) * f <= (15 * bound + 66) * f);
    }
}

/// A delay mode dies away. While its feedback is three quarters or less, each
/// trip of silence, which is the length of its line, leaves on the line no more
/// than the feedback's share of the most that could be read of it, down to a
/// floor of a hundred counts; wherever the oscillator has its taps.
pub proof fn a_delay_mode_dies_away(m: Modulating<Fixed>, bound: int, trips: nat)
    requires
        mod_still(m),
        line_within(m.line, bound),
        100 <= bound <= 0x4_0000_0000_0000,
    ensures
        ({
            let left = mod_left(m.feedback.value, bound, trips);
            let here = mod_silenced(m, trips * m.line.l.len());
            &&& 100 <= left <= bound
            &&& mod_still(here)
            &&& here.feedback == m.feedback
            &&& here.line.l.len() == m.line.l.len()
            &&& line_within(here.line, left)
        }),
    decreases trips,
{
    let len = m.line.l.len();
    if trips == 0 {
        assert(0 * len == 0) by (nonlinear_arith);
    } else {
        let fewer = (trips - 1) as nat;
        a_delay_mode_dies_away(m, bound, fewer);
        let before = mod_silenced(m, fewer * len);
        let had = mod_left(m.feedback.value, bound, fewer);
        lemma_mod_trip(before, len, had);
        lemma_mod_step(before, had);
        assert(trips * len == fewer * len + len) by (nonlinear_arith)
            requires
                trips == fewer + 1,
        ;
        lemma_silences_add_up(m, fewer * len, len);
    }
}

proof fn lemma_mod_trip(m: Modulating<Fixed>, frames: nat, bound: int)
    requires
        mod_still(m),
        line_within(m.line, bound),
        100 <= bound <= 0x4_0000_0000_0000,
        frames <= m.line.l.len(),
    ensures
        ({
            let here = mod_silenced(m, frames);
            &&& mod_still(here)
            &&& here.feedback == m.feedback
            &&& here.line.l.len() == m.line.l.len()
            &&& line_within(here.line, bound)
            &&& newest_within(here.line.l, frames as int, mod_kept(m.feedback.value, bound))
            &&& newest_within(here.line.r, frames as int, mod_kept(m.feedback.value, bound))
        }),
    decreases frames,
{
    if frames > 0 {
        lemma_mod_trip(m, (frames - 1) as nat, bound);
        let before = mod_silenced(m, (frames - 1) as nat);
        let kept = mod_kept(m.feedback.value, bound);
        lemma_mod_step(before, bound);
        let here = mod_silenced(m, frames);
        assert forall|i: int| 0 <= i < here.line.l.len() implies within(
            #[trigger] here.line.l[i],
            bound,
        ) && (i < frames ==> within(here.line.l[i], kept)) by {
            if i > 0 {
                assert(here.line.l[i] == before.line.l[i - 1]);
            }
        }
        assert forall|i: int| 0 <= i < here.line.r.len() implies within(
            #[trigger] here.line.r[i],
            bound,
        ) && (i < frames ==> within(here.line.r[i], kept)) by {
            if i > 0 {
                assert(here.line.r[i] == before.line.r[i - 1]);
            }
        }
    }
}

proof fn lemma_silences_add_up(m: Modulating<Fixed>, first: nat, more: nat)
    ensures
        mod_silenced(mod_silenced(m, first), more) == mod_silenced(m, first + more),
    decreases more,
{
    if more > 0 {
        lemma_silences_add_up(m, first, (more - 1) as nat);
    }
}

} // verus!
