//! Laws of how inserts are put together: each stands on the controls it was built
//! from, and a bus compressor is its section under other ids.

use vstd::prelude::*;

use crate::bus_comp::{BusCompEffect, BusSection};
use crate::curves::Curves;
use crate::delay::DelayParams;
use crate::drive::Saturator;
use crate::dynamics::{comp_next, comp_out, comp_taking, CompressorEffect};
use crate::effects::{is_built, Effect, EffectParams, Fittings};
use crate::num::{Fixed, Sample, Wide};
use crate::preamp::Stage;
use crate::render_laws::{a_compressor_renders_its_frames, changed_at};
use crate::split::RangeProcessor;

verus! {

/// An insert is of the kind its controls call for, holds those controls, and runs at
/// the rate it was built for; a delay's time may come from the tempo, and nothing
/// else of its controls.
pub proof fn an_insert_holds_its_controls<
    S: Curves,
    W: Curves + Wide<S>,
    O: Saturator<S>,
    P: Stage<S>,
    C: BusSection<S>,
    K: Copy,
>(
    effect: Effect<S, W, O, P, C, K>,
    params: EffectParams<S, C::Params, K>,
    sample_rate: u32,
    bpm: S,
    fittings: Fittings<S>,
)
    requires
        is_built(effect, params, sample_rate, bpm, fittings),
        sample_rate > 0,
    ensures
        params matches EffectParams::Eq(p) ==> effect is Eq && effect->Eq_0.bank()@.params == p
            && effect->Eq_0.bank()@.sample_rate == sample_rate,
        params matches EffectParams::Modulation(p) ==> effect is Modulation
            && effect->Modulation_0@.params == p && effect->Modulation_0@.sample_rate
            == sample_rate,
        params matches EffectParams::Filter(p) ==> effect is Filter && effect->Filter_0.params
            == p,
        params matches EffectParams::Drive(p) ==> effect is Drive && effect->Drive_0@.params == p
            && effect->Drive_0@.sample_rate == sample_rate,
        params matches EffectParams::Preamp(p) ==> effect is Preamp && effect->Preamp_0.params == p
            && effect->Preamp_0.sample_rate == sample_rate,
        params matches EffectParams::Bitcrush(p) ==> effect is Bitcrush
            && effect->Bitcrush_0.params == p,
        params matches EffectParams::Delay(p) ==> effect is Delay && effect->Delay_0@.params == (
        DelayParams { time_ms: effect->Delay_0@.params.time_ms, ..p })
            && effect->Delay_0@.sample_rate == sample_rate && effect->Delay_0@.max_time_ms
            == fittings.max_time_ms && (!p.tempo_sync ==> effect->Delay_0@.params == p),
        params matches EffectParams::Reverb(p) ==> effect is Reverb && effect->Reverb_0@.params == p
            && effect->Reverb_0@.sample_rate == sample_rate,
        params matches EffectParams::Plate(p) ==> effect is Plate && effect->Plate_0@.params == p
            && effect->Plate_0@.sample_rate == sample_rate,
        params matches EffectParams::Gate(p) ==> effect is Gate && effect->Gate_0.params == p
            && effect->Gate_0.sample_rate == sample_rate,
        params matches EffectParams::Compressor(p) ==> effect is Compressor
            && effect->Compressor_0.params == p && effect->Compressor_0.sample_rate == sample_rate,
        params matches EffectParams::BusComp(p) ==> effect is BusComp
            && effect->BusComp_0.first_id == fittings.bus_comp_first && effect->BusComp_0.count
            == fittings.bus_comp_count && effect->BusComp_0.sample_rate == sample_rate,
        params matches EffectParams::Limiter(p) ==> effect is Limiter && effect->Limiter_0@.params
            == p && effect->Limiter_0@.sample_rate == sample_rate
            && effect->Limiter_0@.delay_l.len() == fittings.limiter_latency
            && effect->Limiter_0@.delay_r.len() == fittings.limiter_latency,
        params matches EffectParams::Chain(p) ==> effect is Container && effect->Container_0.params
            == p,
        params matches EffectParams::Layer(p) ==> effect is Container && effect->Container_0.params
            == p,
        params matches EffectParams::Plugin(slot) ==> effect is Plugin && effect->Plugin_0.slot
            == slot,
{
}

/// A bus compressor does to a frame what its section does, and a control of its own
/// is the section's that many past its first; past the last it has, nothing happens.
pub proof fn a_bus_compressor_is_its_section(
    d: &BusCompEffect<CompressorEffect<Fixed>>,
    l: Seq<Fixed>,
    r: Seq<Fixed>,
    at: int,
    after: &BusCompEffect<CompressorEffect<Fixed>>,
    new_l: Seq<Fixed>,
    new_r: Seq<Fixed>,
    id: u32,
    value: Fixed,
)
    requires
        0 <= at < l.len(),
        l.len() == r.len(),
        d.first_id + d.count <= u32::MAX,
    ensures
        d.renders(l, r, at, at + 1, after, new_l, new_r) ==> after.comp == comp_next(
            d.comp,
            l[at],
            r[at],
        ) && changed_at(l, at, comp_out(d.comp, l[at], r[at]).0, new_l) && changed_at(
            r,
            at,
            comp_out(d.comp, l[at], r[at]).1,
            new_r,
        ) && after.first_id == d.first_id && after.count == d.count && after.sample_rate
            == d.sample_rate,
        d.takes(id, value, after) && id < d.count ==> after.comp == comp_taking(
            d.comp,
            (d.first_id + id) as u32,
            value,
        ) && after.first_id == d.first_id && after.count == d.count,
        d.takes(id, value, after) && id >= d.count ==> *after == *d,
{
    a_compressor_renders_its_frames(
        &d.comp,
        l,
        r,
        at,
        &after.comp,
        new_l,
        new_r,
        (d.first_id + id) as u32,
        value,
    );
}

} // verus!
