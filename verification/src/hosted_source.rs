//! A channel source the engine did not build: a hosted plugin instrument.
//!
//! The source names the song's plugin slot and holds whatever processor it has
//! been handed. Without one it is silent. A swap under a sounding processor
//! fades: the source is asked whether it is ready, fades its output to silence
//! first, and fades back in with whatever processor arrives. A swap into a
//! source that was never asked to fade starts at full level: nothing was heard
//! to step from.

use vstd::prelude::*;

use crate::bus::{fitting, silenced, StereoBus};
use crate::dynamics::{count, count_of};
use crate::node::ProcessContext;
use crate::num::{clamp, clamp_of, magnitude, ratio, ratio_of, Fixed, Sample, FRACTION};
use crate::smooth::at_least_one;

verus! {

/// A song's plugin slot. Zero is no slot.
#[derive(Clone, Copy, Debug, PartialEq, Eq, Structural)]
pub struct PluginSlotId {
    pub raw: u32,
}

impl PluginSlotId {
    pub open spec fn assigned(self) -> bool {
        self.raw != 0
    }

    pub fn is_assigned(self) -> (answer: bool)
        ensures
            answer == self.assigned(),
    {
        self.raw != 0
    }
}

/// What plays on a channel: a hosted plugin, or a device of the engine's own.
#[derive(Clone, Copy, Debug, PartialEq, Eq, Structural)]
pub enum DeviceKind {
    Plugin,
    Native,
}

/// A channel source's parameter block: the plugin's slot, or the controls of a
/// device of the engine's own, which a hosted source has no use for.
#[derive(Clone, Copy, Debug, PartialEq, Eq, Structural)]
pub enum GeneratorParams {
    Plugin(PluginSlotId),
    Native,
}

/// A channel's hosted instrument: the plugin slot it plays, and the processor
/// it plays it with, if one has been swapped in.
pub struct HostedSource<N, S> {
    pub slot: PluginSlotId,
    pub node: Option<N>,
    /// The level the output is at: one but for a swap fade.
    pub gain: S,
    /// Frames a pending swap has waited for its fade-out, while one does.
    pub swap_waited: Option<u32>,
    /// The rate the source last rendered at; zero before its first block.
    pub sample_rate: u32,
}

/// The change of level in one frame of a fade that takes 35 milliseconds.
pub open spec fn fade_step_of<S: Sample>(sample_rate: u32) -> S {
    S::of_spec(1).over(
        ratio_of::<S>(35, 1000).times(
            S::of_spec(if sample_rate < 1 { 1 } else { sample_rate as nat }),
        ),
    )
}

/// The level one frame on.
pub open spec fn faded_once<S: Sample>(gain: S, step: S) -> S {
    clamp_of(gain.plus(step), S::of_spec(0), S::of_spec(1))
}

/// The level some frames on.
pub open spec fn faded<S: Sample>(gain: S, step: S, frames: int) -> S
    decreases frames,
{
    if frames <= 0 {
        gain
    } else {
        faded_once(faded(gain, step, frames - 1), step)
    }
}

/// A channel with the first `frames` samples faded.
pub open spec fn faded_channel<S: Sample>(
    samples: Seq<S>,
    gain: S,
    step: S,
    frames: int,
) -> Seq<S> {
    Seq::new(
        samples.len(),
        |i: int|
            if i < frames {
                samples[i].times(faded(gain, step, i + 1))
            } else {
                samples[i]
            },
    )
}

/// Whether a source's output is at a level that a block leaves alone: full and
/// not leaving, or with no processor to be heard.
pub open spec fn fade_rests<N, S: Sample>(source: HostedSource<N, S>) -> bool {
    source.node is None || source.swap_waited is None && S::of_spec(1).at_most(source.gain)
}

/// The step a source's fade takes: down while a swap waits, up otherwise.
pub open spec fn fade_direction<N, S: Sample>(source: HostedSource<N, S>) -> S {
    if source.swap_waited is Some {
        fade_step_of::<S>(source.sample_rate).negated()
    } else {
        fade_step_of(source.sample_rate)
    }
}

/// The frames a swap waits at most: a tenth of a second.
pub open spec fn longest_wait<S: Sample>(sample_rate: u32) -> u32 {
    count_of(ratio_of::<S>(1, 10).times(S::of_spec(sample_rate as nat)).whole_spec())
}

/// Whether a swap into a source goes at once and fades nothing: one the source
/// will refuse, one into silence, and one before the source has ever rendered.
pub open spec fn swaps_at_once<N, S>(source: HostedSource<N, S>, slot: PluginSlotId) -> bool {
    slot != source.slot || !slot.assigned() || source.node is None || source.sample_rate == 0
}

/// The frames a swap has waited when it is asked about again.
pub open spec fn waited_of<N, S>(source: HostedSource<N, S>, frames: usize) -> u32 {
    match source.swap_waited {
        None => 0,
        Some(waited) => {
            let asked = frames as u32;
            if waited + asked > u32::MAX {
                u32::MAX
            } else {
                (waited + asked) as u32
            }
        },
    }
}

/// A source asked whether a swap may go now, and its answer.
pub open spec fn swap_asked<N, S: Sample>(
    source: HostedSource<N, S>,
    slot: PluginSlotId,
    frames: usize,
) -> (HostedSource<N, S>, bool) {
    if swaps_at_once(source, slot) {
        (source, true)
    } else {
        let waited = waited_of(source, frames);
        let silent = source.gain.at_most(S::of_spec(0));
        let overdue = waited >= longest_wait::<S>(source.sample_rate);
        (
            HostedSource {
                swap_waited: Some(waited),
                gain: if !silent && overdue {
                    S::of_spec(0)
                } else {
                    source.gain
                },
                ..source
            },
            silent || overdue,
        )
    }
}

/// A source after a block's fade.
pub open spec fn fade_rendered<N, S: Sample>(
    source: HostedSource<N, S>,
    frames: int,
) -> HostedSource<N, S> {
    if fade_rests(source) {
        source
    } else {
        HostedSource { gain: faded(source.gain, fade_direction(source), frames), ..source }
    }
}

impl<N, S: Sample> HostedSource<N, S> {
    /// The silent source for `slot`: what a song opening builds, and what a
    /// missing plugin stays.
    pub fn new(slot: PluginSlotId) -> (source: Self)
        ensures
            source == (HostedSource::<N, S> {
                slot,
                node: None,
                gain: S::of_spec(1),
                swap_waited: None,
                sample_rate: 0,
            }),
    {
        HostedSource { slot, node: None, gain: S::of(1), swap_waited: None, sample_rate: 0 }
    }

    /// `slot` already running `node`.
    pub fn with_processor(slot: PluginSlotId, node: N) -> (source: Self)
        ensures
            source == (HostedSource::<N, S> {
                slot,
                node: Some(node),
                gain: S::of_spec(1),
                swap_waited: None,
                sample_rate: 0,
            }),
    {
        HostedSource {
            slot,
            node: Some(node),
            gain: S::of(1),
            swap_waited: None,
            sample_rate: 0,
        }
    }

    /// The plugin slot this source plays.
    pub fn slot(&self) -> (slot: PluginSlotId)
        ensures
            slot == self.slot,
    {
        self.slot
    }

    /// Whether a processor is running here, rather than silence.
    pub fn is_hosted(&self) -> (answer: bool)
        ensures
            answer == self.node is Some,
    {
        self.node.is_some()
    }

    /// Begin a block: the processor renders onto a cleared bus, because an
    /// instrument has no input. Returns the frames to render.
    pub fn begin_block(&mut self, ctx: &ProcessContext, bus: &mut StereoBus<S>) -> (frames: usize)
        requires
            old(bus).well_formed(),
        ensures
            final(bus).well_formed(),
            frames == fitting(ctx.frames as int, old(bus).l@.len() as int),
            final(bus).l@ == silenced(old(bus).l@, frames as int),
            final(bus).r@ == silenced(old(bus).r@, frames as int),
            *final(self) == (HostedSource { sample_rate: ctx.sample_rate, ..*old(self) }),
    {
        let capacity: usize = bus.capacity();
        let frames: usize = if ctx.frames < capacity {
            ctx.frames
        } else {
            capacity
        };
        bus.clear(frames);
        self.sample_rate = ctx.sample_rate;
        frames
    }

    /// Move the swap fade along one block and apply it to `bus`: down while a
    /// swap waits, up otherwise. With no processor the level holds where the
    /// fade left it: rising over silence would let the next processor arrive
    /// at full level, which is the step the fade is for.
    pub fn apply_fade(&mut self, bus: &mut StereoBus<S>, frames: usize)
        requires
            old(bus).well_formed(),
            frames <= old(bus).l@.len(),
        ensures
            final(bus).well_formed(),
            *final(self) == fade_rendered(*old(self), frames as int),
            fade_rests(*old(self)) ==> final(bus).l@ == old(bus).l@ && final(bus).r@
                == old(bus).r@,
            !fade_rests(*old(self)) ==> {
                let step = fade_direction(*old(self));
                &&& final(bus).l@ == faded_channel(
                    old(bus).l@,
                    old(self).gain,
                    step,
                    frames as int,
                )
                &&& final(bus).r@ == faded_channel(
                    old(bus).r@,
                    old(self).gain,
                    step,
                    frames as int,
                )
            },
    {
        let leaving = self.swap_waited.is_some();
        if self.node.is_none() || (!leaving && S::of(1).le(self.gain)) {
            return;
        }
        let step = S::of(1).div(
            ratio::<S>(35, 1000).mul(S::of(at_least_one(self.sample_rate) as usize)),
        );
        let step = if leaving {
            step.neg()
        } else {
            step
        };
        let ghost gain = self.gain;
        let ghost l = bus.l@;
        let ghost r = bus.r@;
        let mut frame: usize = 0;
        assert(bus.l@ =~= faded_channel(l, gain, step, 0));
        assert(bus.r@ =~= faded_channel(r, gain, step, 0));
        while frame < frames
            invariant
                frame <= frames <= l.len(),
                l.len() == r.len(),
                l.len() == old(bus).l@.len(),
                gain == old(self).gain,
                *self == (HostedSource { gain: self.gain, ..*old(self) }),
                self.gain == faded(gain, step, frame as int),
                bus.l@ == faded_channel(l, gain, step, frame as int),
                bus.r@ == faded_channel(r, gain, step, frame as int),
            decreases frames - frame,
        {
            self.gain = clamp(self.gain.add(step), S::of(0), S::of(1));
            bus.l[frame] = bus.l[frame].mul(self.gain);
            bus.r[frame] = bus.r[frame].mul(self.gain);
            frame = frame + 1;
            assert(bus.l@ =~= faded_channel(l, gain, step, frame as int));
            assert(bus.r@ =~= faded_channel(r, gain, step, frame as int));
        }
    }

    /// Whether the source may be left alone, given whether its processor
    /// may: without one there is nothing to hear.
    pub fn is_at_rest(&self, processor_rests: bool) -> (answer: bool)
        ensures
            answer == (self.node is None || processor_rests),
    {
        self.node.is_none() || processor_rests
    }

    /// How long the source goes on sounding, given how long its processor
    /// does: without one, not at all.
    pub fn tail_frames(&self, processor_tail: u32) -> (frames: u32)
        ensures
            frames == (if self.node is None {
                0
            } else {
                processor_tail
            }),
    {
        if self.node.is_none() {
            0
        } else {
            processor_tail
        }
    }

    pub fn kind(&self) -> (kind: DeviceKind)
        ensures
            kind == DeviceKind::Plugin,
    {
        DeviceKind::Plugin
    }

    pub fn generator_params(&self) -> (params: GeneratorParams)
        ensures
            params == GeneratorParams::Plugin(self.slot),
    {
        GeneratorParams::Plugin(self.slot)
    }

    /// Take a parameter block. A native block is refused. A plugin block is
    /// this source's when it names the same slot, or when this one has neither
    /// a slot nor a processor yet.
    pub fn set_generator_params(&mut self, params: &GeneratorParams) -> (taken: bool)
        ensures
            taken == match *params {
                GeneratorParams::Plugin(slot) => slot == old(self).slot || !old(
                    self,
                ).slot.assigned() && old(self).node is None,
                GeneratorParams::Native => false,
            },
            *final(self) == match *params {
                GeneratorParams::Plugin(slot) => if taken {
                    HostedSource { slot, ..*old(self) }
                } else {
                    *old(self)
                },
                GeneratorParams::Native => *old(self),
            },
    {
        match *params {
            GeneratorParams::Native => false,
            GeneratorParams::Plugin(slot) => {
                if slot == self.slot {
                    return true;
                }
                if !self.slot.is_assigned() && self.node.is_none() {
                    self.slot = slot;
                    return true;
                }
                false
            },
        }
    }

    /// Swap a processor in, or out. The one that leaves comes back; one for
    /// another slot is handed back as it came. Whatever arrives fades back in
    /// from where the fade-out left the level.
    pub fn host_processor(&mut self, slot: PluginSlotId, node: Option<N>) -> (swapped: Result<
        Option<N>,
        Option<N>,
    >)
        ensures
            slot == old(self).slot && slot.assigned() ==> swapped == Ok::<Option<N>, Option<N>>(
                old(self).node,
            ) && *final(self) == (HostedSource { swap_waited: None, node, ..*old(self) }),
            !(slot == old(self).slot && slot.assigned()) ==> swapped == Err::<
                Option<N>,
                Option<N>,
            >(node) && *final(self) == *old(self),
    {
        if slot != self.slot || !slot.is_assigned() {
            return Err(node);
        }
        self.swap_waited = None;
        let leaving = self.node.take();
        self.node = node;
        Ok(leaving)
    }

    /// Whether a swap may go now. Fades out under a sounding processor before
    /// it leaves, and goes anyway once it has waited long enough: the fade
    /// only runs while the source renders, and one asleep is silent already.
    pub fn ready_for_processor_swap(&mut self, slot: PluginSlotId, frames: usize) -> (ready: bool)
        ensures
            (*final(self), ready) == swap_asked(*old(self), slot, frames),
    {
        if slot != self.slot || !slot.is_assigned() || self.node.is_none() || self.sample_rate
            == 0 {
            return true;
        }
        let waited: u32 = match self.swap_waited {
            None => 0,
            Some(waited) => waited.saturating_add(frames as u32),
        };
        self.swap_waited = Some(waited);
        if self.gain.le(S::of(0)) {
            return true;
        }
        let longest: u32 = count(
            ratio::<S>(1, 10).mul(S::of(self.sample_rate as usize)).whole(),
        );
        if waited >= longest {
            self.gain = S::of(0);
            return true;
        }
        false
    }
}

/// A fade-out is never louder than where it began and arrives at silence
/// exactly, once its steps have covered the level.
pub proof fn a_fade_out_arrives_at_silence(gain: Fixed, step: Fixed, frames: nat)
    requires
        0 <= gain.raw <= FRACTION,
        -FRACTION <= step.raw < 0,
    ensures
        0 <= faded(gain, step, frames as int).raw <= gain.raw,
        gain.raw + frames * step.raw <= 0 ==> faded(gain, step, frames as int).raw == 0,
        gain.raw + frames * step.raw >= 0 ==> faded(gain, step, frames as int).raw == gain.raw
            + frames * step.raw,
    decreases frames,
{
    if frames > 0 {
        a_fade_out_arrives_at_silence(gain, step, (frames - 1) as nat);
        assert((frames - 1) * step.raw + step.raw == frames * step.raw) by (nonlinear_arith);
    } else {
        assert(0 * step.raw == 0) by (nonlinear_arith);
    }
}

/// A fade-in is never quieter than where it began and arrives at full level
/// exactly, once its steps have covered the way.
pub proof fn a_fade_in_arrives_at_full_level(gain: Fixed, step: Fixed, frames: nat)
    requires
        0 <= gain.raw <= FRACTION,
        0 < step.raw <= FRACTION,
    ensures
        gain.raw <= faded(gain, step, frames as int).raw <= FRACTION,
        gain.raw + frames * step.raw >= FRACTION ==> faded(gain, step, frames as int).raw
            == FRACTION,
        gain.raw + frames * step.raw <= FRACTION ==> faded(gain, step, frames as int).raw
            == gain.raw + frames * step.raw,
    decreases frames,
{
    if frames > 0 {
        a_fade_in_arrives_at_full_level(gain, step, (frames - 1) as nat);
        assert((frames - 1) * step.raw + step.raw == frames * step.raw) by (nonlinear_arith);
    } else {
        assert(0 * step.raw == 0) by (nonlinear_arith);
    }
}

/// A fade never moves the level by more than one step from a sample to the
/// next.
pub proof fn a_fade_never_jumps(gain: Fixed, step: Fixed)
    requires
        0 <= gain.raw <= FRACTION,
        -FRACTION <= step.raw <= FRACTION,
    ensures
        magnitude(faded_once(gain, step).raw - gain.raw) <= magnitude(step.raw as int),
{
}

/// Where a fade lasts a sample at least, its step is a step: something, and no
/// more than the whole way.
proof fn lemma_a_fade_step_is_a_step(sample_rate: u32)
    requires
        29 <= sample_rate,
    ensures
        0 < fade_step_of::<Fixed>(sample_rate).raw <= FRACTION,
{
    let f = FRACTION as int;
    let time = ratio_of::<Fixed>(35, 1000);
    assert(time.raw == 150_323_855) by {
        assert((35 * f) * f == 35 * 0x1_0000_0000_0000_0000) by (nonlinear_arith)
            requires
                f == 0x1_0000_0000,
        ;
        assert((35int * 0x1_0000_0000_0000_0000) / (1000int * 0x1_0000_0000) == 150_323_855);
    }
    let n = 150_323_855 * sample_rate;
    let rate = Fixed::of_spec(sample_rate as nat);
    if sample_rate < 0x8000_0000 {
        assert(rate.raw == sample_rate * f);
        assert(150_323_855 * (sample_rate * f) == n * f && (n * f) / f == n && n * f >= 0)
            by (nonlinear_arith)
            requires
                n == 150_323_855 * sample_rate,
                f == 0x1_0000_0000,
        ;
        assert(time.times(rate).raw == n);
    } else {
        assert(0x7fff_ffff_0000_0000 <= rate.raw);
        let product = 150_323_855 * rate.raw;
        assert(f <= product / f <= 0x7fff_ffff_ffff_ffff && 0 <= product) by (nonlinear_arith)
            requires
                product == 150_323_855 * rate.raw,
                0x7fff_ffff_0000_0000 <= rate.raw <= 0x7fff_ffff_ffff_ffff,
                f == 0x1_0000_0000,
        ;
    }
    let d = time.times(rate).raw as int;
    assert(f <= d);
    assert(0 < f * f / d <= f && 0 <= f * f) by (nonlinear_arith)
        requires
            f <= d <= 0x7fff_ffff_ffff_ffff,
            f == 0x1_0000_0000,
    ;
}

/// A source that is asked before each block whether a swap may go, after some
/// blocks.
pub open spec fn swap_waiting<N, S: Sample>(
    source: HostedSource<N, S>,
    slot: PluginSlotId,
    frames: usize,
    blocks: nat,
) -> HostedSource<N, S>
    decreases blocks,
{
    if blocks == 0 {
        source
    } else {
        let before = swap_waiting(source, slot, frames, (blocks - 1) as nat);
        let asked = swap_asked(before, slot, frames);
        fade_rendered(asked.0, frames as int)
    }
}

/// Whether a source sounds at full level, and nothing is waiting.
pub open spec fn sounds_fully<N>(source: HostedSource<N, Fixed>, slot: PluginSlotId) -> bool {
    &&& source.slot == slot
    &&& slot.assigned()
    &&& source.node is Some
    &&& source.sample_rate > 0
    &&& source.swap_waited is None
    &&& source.gain == Fixed::of_spec(1)
}

/// A swap under a sounding processor waits for its fade-out and no longer: asked
/// before each block, the source says yes at the first block by which its steps
/// have covered the level, and is exactly silent there; until that it is louder
/// by exactly the steps that are left.
pub proof fn a_swap_waits_for_its_fade<N>(
    source: HostedSource<N, Fixed>,
    slot: PluginSlotId,
    frames: usize,
    blocks: nat,
)
    requires
        sounds_fully(source, slot),
        29 <= source.sample_rate,
        blocks * frames < longest_wait::<Fixed>(source.sample_rate),
        frames <= u32::MAX,
    ensures
        ({
            let step = fade_step_of::<Fixed>(source.sample_rate).raw as int;
            let steps = blocks * frames * step;
            let waiting = swap_waiting(source, slot, frames, blocks);
            let asked = swap_asked(waiting, slot, frames);
            &&& waiting.gain.raw == if steps >= FRACTION {
                0
            } else {
                FRACTION - steps
            }
            &&& asked.1 == (steps >= FRACTION)
            &&& asked.0.gain == waiting.gain
            &&& asked.0 == (HostedSource {
                gain: waiting.gain,
                swap_waited: Some((blocks * frames) as u32),
                ..source
            })
        }),
    decreases blocks,
{
    let step = fade_step_of::<Fixed>(source.sample_rate);
    let s = step.raw as int;
    let n = frames as int;
    lemma_a_fade_step_is_a_step(source.sample_rate);
    if blocks == 0 {
        assert(0 * n == 0 && 0 * s == 0) by (nonlinear_arith);
        assert(swap_waiting(source, slot, frames, 0) == source);
    } else {
        let earlier = (blocks - 1) as nat;
        assert(earlier * n + n == blocks * n && 0 <= earlier * n) by (nonlinear_arith)
            requires
                earlier == blocks - 1,
                0 <= n,
        ;
        assert(earlier * n * s + n * s == blocks * n * s && 0 <= n * s) by (nonlinear_arith)
            requires
                earlier == blocks - 1,
                0 <= n,
                0 < s,
        ;
        a_swap_waits_for_its_fade(source, slot, frames, earlier);
        let before = swap_waiting(source, slot, frames, earlier);
        let asked = swap_asked(before, slot, frames).0;
        let down = step.negated();
        assert(fade_direction(asked) == down);
        a_fade_out_arrives_at_silence(asked.gain, down, frames as nat);
        assert(n * down.raw == -(n * s)) by (nonlinear_arith)
            requires
                down.raw == -s,
        ;
    }
}

/// A whole swap. The frames heard before the yes are those of the fade and less
/// than one block more; the source is exactly silent there. The processor that
/// arrives climbs back to full level exactly once its steps have covered the
/// way, and from there on is multiplied by nothing at all.
pub proof fn a_whole_swap<N>(
    source: HostedSource<N, Fixed>,
    slot: PluginSlotId,
    frames: usize,
    blocks: nat,
    arriving: N,
    heard: nat,
)
    requires
        sounds_fully(source, slot),
        29 <= source.sample_rate,
        blocks * frames < longest_wait::<Fixed>(source.sample_rate),
        frames <= u32::MAX,
        swap_asked(swap_waiting(source, slot, frames, blocks), slot, frames).1,
        blocks > 0 ==> !swap_asked(
            swap_waiting(source, slot, frames, (blocks - 1) as nat),
            slot,
            frames,
        ).1,
        heard * fade_step_of::<Fixed>(source.sample_rate).raw >= FRACTION,
    ensures
        ({
            let step = fade_step_of::<Fixed>(source.sample_rate).raw as int;
            let leaving = swap_asked(swap_waiting(source, slot, frames, blocks), slot, frames).0;
            let arrived = HostedSource { swap_waited: None, node: Some(arriving), ..leaving };
            let back = fade_rendered(arrived, heard as int);
            &&& FRACTION <= blocks * frames * step < FRACTION + frames * step
            &&& leaving.gain == Fixed::of_spec(0)
            &&& back.gain == Fixed::of_spec(1)
            &&& fade_rests(back)
        }),
{
    let step = fade_step_of::<Fixed>(source.sample_rate);
    let s = step.raw as int;
    let n = frames as int;
    lemma_a_fade_step_is_a_step(source.sample_rate);
    a_swap_waits_for_its_fade(source, slot, frames, blocks);
    if blocks > 0 {
        let earlier = (blocks - 1) as nat;
        assert(earlier * n <= blocks * n && earlier * n * s + n * s == blocks * n * s)
            by (nonlinear_arith)
            requires
                earlier == blocks - 1,
                0 <= n,
        ;
        a_swap_waits_for_its_fade(source, slot, frames, earlier);
    } else {
        assert(0 * n * s == 0) by (nonlinear_arith);
    }
    let leaving = swap_asked(swap_waiting(source, slot, frames, blocks), slot, frames).0;
    let arrived = HostedSource { swap_waited: None, node: Some(arriving), ..leaving };
    assert(fade_direction(arrived) == step);
    a_fade_in_arrives_at_full_level(arrived.gain, step, heard);
}

} // verus!
