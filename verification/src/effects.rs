//! One constructor for every insert, so that a new kind is wired in once.

use vstd::prelude::*;

use crate::bitcrush::{crusher_new, BitcrushEffect, BitcrushParams};
use crate::bus_comp::{BusCompEffect, BusSection};
use crate::curves::Curves;
use crate::delay::{delay_new, division_ms, DelayEffect, DelayParams};
use crate::drive::{drive_new, DriveEffect, DriveParams, Saturator};
use crate::dynamics::{
    comp_new, gate_new, CompressorEffect, CompressorParams, GateEffect, GateParams,
};
use crate::eq::{bank_new, bank_resolved, EqEffect, EqParams};
use crate::filter_effect::{filter_new, FilterEffect, FilterParams};
use crate::hosted_source::PluginSlotId;
use crate::limiter::{limiter_made, LimiterEffect, LimiterParams, TRUE_PEAK_DELAY};
use crate::modulation::{mod_new, ModulationEffect, ModulationParams};
use crate::num::{Sample, Wide};
use crate::placeholder::{ContainerEffect, PluginPlaceholder};
use crate::plate::{plate_new, PlateEffect, PlateParams};
use crate::preamp::{preamp_new, PreampEffect, PreampParams, Stage};
use crate::reverb::{hall_new, hall_resolved, ReverbEffect, ReverbParams};

verus! {

/// The controls of an insert. `B` are those of a bus compressor, and `K` those
/// of a container.
pub enum EffectParams<S, B, K> {
    Eq(EqParams<S>),
    Modulation(ModulationParams<S>),
    Filter(FilterParams<S>),
    Drive(DriveParams<S>),
    Preamp(PreampParams<S>),
    Bitcrush(BitcrushParams<S>),
    Delay(DelayParams<S>),
    Reverb(ReverbParams<S>),
    Plate(PlateParams<S>),
    Gate(GateParams<S>),
    Compressor(CompressorParams<S>),
    BusComp(B),
    Limiter(LimiterParams<S>),
    Chain(K),
    Layer(K),
    Plugin(PluginSlotId),
}

/// An insert.
pub enum Effect<S, W, O, P, C, K> {
    Eq(EqEffect<S>),
    Modulation(ModulationEffect<S>),
    Filter(FilterEffect<S>),
    Drive(DriveEffect<S, O>),
    Preamp(PreampEffect<S, P>),
    Bitcrush(BitcrushEffect<S>),
    Delay(DelayEffect<S>),
    Reverb(ReverbEffect<S>),
    Plate(PlateEffect<S>),
    Gate(GateEffect<S>),
    Compressor(CompressorEffect<S>),
    BusComp(BusCompEffect<C>),
    Limiter(LimiterEffect<S, W>),
    Container(ContainerEffect<K>),
    Plugin(PluginPlaceholder<S>),
}

/// What the engine settles once for all of its inserts.
#[derive(Clone, Copy, Debug)]
pub struct Fittings<S> {
    /// The most control ticks in a block.
    pub max_ticks: usize,
    /// The level drive is anchored at.
    pub reference: S,
    /// The longest delay time.
    pub max_time_ms: S,
    /// The latency limiters declare.
    pub limiter_latency: usize,
    /// The master's id of the bus compressor's first parameter, and how many
    /// there are.
    pub bus_comp_first: u32,
    pub bus_comp_count: u32,
}

impl<S> Fittings<S> {
    pub open spec fn well_formed(&self) -> bool {
        &&& TRUE_PEAK_DELAY <= self.limiter_latency <= usize::MAX - 2
        &&& self.bus_comp_first + self.bus_comp_count <= u32::MAX
    }
}

/// The controls of a delay at a tempo: a synced one takes its time from its
/// division.
pub open spec fn at_tempo<S: Sample>(params: DelayParams<S>, bpm: S) -> DelayParams<S> {
    if params.tempo_sync {
        DelayParams { time_ms: division_ms(params.time_division, bpm), ..params }
    } else {
        params
    }
}

/// Whether an insert is the one its controls call for.
pub open spec fn is_built<
    S: Curves,
    W: Curves + Wide<S>,
    O: Saturator<S>,
    P: Stage<S>,
    C: BusSection<S>,
    K: Copy,
>(
    effect: Effect<S, W, O, P, C, K>,
    params: EffectParams<S, C::Params, K>,
    sample_rate: u32,
    bpm: S,
    fittings: Fittings<S>,
) -> bool {
    match params {
        EffectParams::Eq(p) => match effect {
            Effect::Eq(e) => {
                &&& e.well_formed()
                &&& e.bank()@ == bank_resolved(bank_new(p, sample_rate))
                &&& e.curves()@.len() == 0
                &&& e.curves().row() == fittings.max_ticks
            },
            _ => false,
        },
        EffectParams::Modulation(p) => match effect {
            Effect::Modulation(e) => e.well_formed() && e@ == mod_new(p, sample_rate),
            _ => false,
        },
        EffectParams::Filter(p) => effect == Effect::<S, W, O, P, C, K>::Filter(
            filter_new(p, sample_rate, fittings.reference),
        ),
        EffectParams::Drive(p) => match effect {
            Effect::Drive(e) => e.well_formed() && e@ == drive_new::<S, O>(p, sample_rate),
            _ => false,
        },
        EffectParams::Preamp(p) => effect == Effect::<S, W, O, P, C, K>::Preamp(
            preamp_new(p, sample_rate),
        ),
        EffectParams::Bitcrush(p) => effect == Effect::<S, W, O, P, C, K>::Bitcrush(
            crusher_new(p),
        ),
        EffectParams::Delay(p) => match effect {
            Effect::Delay(e) => {
                &&& e.well_formed()
                &&& e@ == delay_new(at_tempo(p, bpm), sample_rate, fittings.max_time_ms)
            },
            _ => false,
        },
        EffectParams::Reverb(p) => match effect {
            Effect::Reverb(e) => {
                &&& e.well_formed()
                &&& e@ == hall_resolved(
                    hall_new(p, if sample_rate < 1 { 1 } else { sample_rate }),
                )
            },
            _ => false,
        },
        EffectParams::Plate(p) => match effect {
            Effect::Plate(e) => {
                &&& e.well_formed()
                &&& e@ == plate_new(p, if sample_rate < 1 { 1 } else { sample_rate })
            },
            _ => false,
        },
        EffectParams::Gate(p) => effect == Effect::<S, W, O, P, C, K>::Gate(
            gate_new(p, sample_rate),
        ),
        EffectParams::Compressor(p) => effect == Effect::<S, W, O, P, C, K>::Compressor(
            comp_new(p, sample_rate),
        ),
        EffectParams::BusComp(p) => match effect {
            Effect::BusComp(e) => {
                &&& e.comp.ready()
                &&& C::made(p, sample_rate, &e.comp)
                &&& e.sample_rate == sample_rate
                &&& e.first_id == fittings.bus_comp_first
                &&& e.count == fittings.bus_comp_count
            },
            _ => false,
        },
        EffectParams::Limiter(p) => match effect {
            Effect::Limiter(e) => {
                &&& e.well_formed()
                &&& limiter_made(e@, p, sample_rate, fittings.limiter_latency as nat)
            },
            _ => false,
        },
        EffectParams::Chain(p) => effect == Effect::<S, W, O, P, C, K>::Container(
            ContainerEffect { params: p },
        ),
        EffectParams::Layer(p) => effect == Effect::<S, W, O, P, C, K>::Container(
            ContainerEffect { params: p },
        ),
        EffectParams::Plugin(slot) => match effect {
            Effect::Plugin(e) => e.well_formed() && e.slot == slot && e.held() is None,
            _ => false,
        },
    }
}

/// Construct the insert of a parameter set, at the tempo a song starts with.
///
/// This allocates, so it belongs on the control side.
pub fn build_effect<
    S: Curves,
    W: Curves + Wide<S>,
    O: Saturator<S>,
    P: Stage<S>,
    C: BusSection<S>,
    K: Copy,
>(params: EffectParams<S, C::Params, K>, sample_rate: u32, fittings: &Fittings<S>) -> (effect:
    Effect<S, W, O, P, C, K>)
    requires
        fittings.well_formed(),
    ensures
        is_built(effect, params, sample_rate, S::of_spec(120), *fittings),
{
    build_effect_at_tempo(params, sample_rate, S::of(120), fittings)
}

/// Construct an insert using the transport's tempo, for devices whose state is
/// sized in beats.
pub fn build_effect_at_tempo<
    S: Curves,
    W: Curves + Wide<S>,
    O: Saturator<S>,
    P: Stage<S>,
    C: BusSection<S>,
    K: Copy,
>(
    params: EffectParams<S, C::Params, K>,
    sample_rate: u32,
    bpm: S,
    fittings: &Fittings<S>,
) -> (effect: Effect<S, W, O, P, C, K>)
    requires
        fittings.well_formed(),
    ensures
        is_built(effect, params, sample_rate, bpm, *fittings),
{
    match params {
        EffectParams::Eq(p) => Effect::Eq(EqEffect::new(p, sample_rate, fittings.max_ticks)),
        EffectParams::Modulation(p) => Effect::Modulation(ModulationEffect::new(p, sample_rate)),
        EffectParams::Filter(p) => Effect::Filter(
            FilterEffect::new(p, sample_rate, fittings.reference),
        ),
        EffectParams::Drive(p) => Effect::Drive(DriveEffect::new(p, sample_rate)),
        EffectParams::Preamp(p) => Effect::Preamp(PreampEffect::new(p, sample_rate)),
        EffectParams::Bitcrush(p) => Effect::Bitcrush(BitcrushEffect::new(p)),
        EffectParams::Delay(p) => {
            let mut p = p;
            if p.tempo_sync {
                p.time_ms = p.time_division.time_ms(bpm);
            }
            Effect::Delay(DelayEffect::new(p, sample_rate, fittings.max_time_ms))
        },
        EffectParams::Reverb(p) => Effect::Reverb(ReverbEffect::new(p, sample_rate)),
        EffectParams::Plate(p) => Effect::Plate(PlateEffect::new(p, sample_rate)),
        EffectParams::Gate(p) => Effect::Gate(GateEffect::new(p, sample_rate)),
        EffectParams::Compressor(p) => Effect::Compressor(CompressorEffect::new(p, sample_rate)),
        EffectParams::BusComp(p) => Effect::BusComp(
            BusCompEffect::new(p, sample_rate, fittings.bus_comp_first, fittings.bus_comp_count),
        ),
        EffectParams::Limiter(p) => Effect::Limiter(
            LimiterEffect::new(p, sample_rate, fittings.limiter_latency),
        ),
        // Transparent: a container's mix belongs to its host.
        EffectParams::Chain(p) => Effect::Container(ContainerEffect::new(p)),
        EffectParams::Layer(p) => Effect::Container(ContainerEffect::new(p)),
        // A pass-through that names its slot until a plugin is swapped in.
        EffectParams::Plugin(slot) => Effect::Plugin(PluginPlaceholder::new(slot)),
    }
}

} // verus!
