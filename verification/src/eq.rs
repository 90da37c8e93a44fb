//! Seven-band parametric equalizer with dedicated high- and low-pass filters.
//!
//! The filter bank is entirely fixed-size. Only the stages that are switched
//! on are run, and coefficient changes are made only at sample-timed parameter
//! boundaries: a parameter marks its stages, and the next range designs them,
//! once each however many of their parameters changed.

use vstd::prelude::*;

use crate::biquad::{
    an_empty_stage_stays_silent, an_identity_stage_changes_nothing, band_design, identity_stage,
    magnitude_of, pass_design, retuned, stage_after, stage_out, stage_resting, Biquad, EqBandKind,
    EqQProfile,
};
use crate::bus::{fitting, StereoBus};
use crate::curves::Curves;
use crate::event::EventList;
use crate::fold::{
    after_frames, left_of, lemma_frame_rendered, lemma_nothing_rendered, right_of,
};
use crate::node::ProcessContext;
use crate::num::{magnitude, products_stay_within, ratio, ratio_of, within, Fixed, Sample, FRACTION};
use crate::split::{
    captured, carried_out, curve_plan, param_plan, process_curve_split, process_param_split,
    ControlCurve, CurveFrame, Desk, RangeProcessor,
};

verus! {

pub const EQ_MAX_BANDS: usize = 7;

pub const PASS_STAGES: usize = 6;

/// Every stage the bank can hold: seven bands, then a high-pass and a low-pass
/// of up to six stages each.
pub const STAGES: usize = 19;

/// Frames between two control ticks.
pub const CONTROL_RATE_FRAMES: usize = 32;

/// Fields of a band, and of a pass filter.
pub const EQ_BAND_FIELDS: u32 = 6;

pub const EQ_PASS_FIELDS: u32 = 4;

pub const EQ_BAND_ON: u32 = 0;

pub const EQ_BAND_KIND: u32 = 1;

pub const EQ_BAND_FREQ: u32 = 2;

pub const EQ_BAND_GAIN: u32 = 3;

pub const EQ_BAND_Q: u32 = 4;

pub const EQ_BAND_Q_PROFILE: u32 = 5;

pub const EQ_HIGH_PASS: u32 = 0;

pub const EQ_LOW_PASS: u32 = 1;

pub const EQ_PASS_ON: u32 = 0;

pub const EQ_PASS_FREQ: u32 = 1;

pub const EQ_PASS_Q: u32 = 2;

pub const EQ_PASS_SLOPE: u32 = 3;

/// Where the pass filters' parameters begin: after seven bands of six fields.
pub const EQ_PASS_BASE: u32 = 42;

/// How many parameters there are.
pub const EQ_DESCRIPTOR_COUNT: u32 = 50;

/// How steep a pass filter is: how many stages it runs.
#[derive(Clone, Copy, Debug, PartialEq, Eq, Structural)]
pub enum EqSlope {
    Db6,
    Db12,
    Db18,
    Db24,
    Db30,
    Db36,
}

impl EqSlope {
    pub open spec fn count(self) -> nat {
        match self {
            EqSlope::Db6 => 1,
            EqSlope::Db12 => 2,
            EqSlope::Db18 => 3,
            EqSlope::Db24 => 4,
            EqSlope::Db30 => 5,
            EqSlope::Db36 => 6,
        }
    }

    pub fn stages(self) -> (count: usize)
        ensures
            count == self.count(),
    {
        match self {
            EqSlope::Db6 => 1,
            EqSlope::Db12 => 2,
            EqSlope::Db18 => 3,
            EqSlope::Db24 => 4,
            EqSlope::Db30 => 5,
            EqSlope::Db36 => 6,
        }
    }
}

/// One band's settings.
#[derive(Clone, Copy, Debug)]
pub struct EqBand<S> {
    pub enabled: bool,
    pub kind: EqBandKind,
    pub frequency_hz: S,
    pub gain_db: S,
    pub q: S,
    pub q_profile: EqQProfile,
}

/// One pass filter's settings.
#[derive(Clone, Copy, Debug)]
pub struct EqPass<S> {
    pub enabled: bool,
    pub frequency_hz: S,
    pub q: S,
    pub slope: EqSlope,
}

/// The controls of the equalizer.
#[derive(Clone, Copy, Debug)]
pub struct EqParams<S> {
    pub bands: [EqBand<S>; EQ_MAX_BANDS],
    pub high_pass: EqPass<S>,
    pub low_pass: EqPass<S>,
}

/// The parameter of a band's field.
pub fn eq_band_param(band: u32, field: u32) -> (id: u32)
    requires
        band < EQ_MAX_BANDS,
        field < EQ_BAND_FIELDS,
    ensures
        id == band * EQ_BAND_FIELDS + field,
        eq_band_at(id) == Some((band, field)),
{
    band * EQ_BAND_FIELDS + field
}

/// The parameter of a pass filter's field.
pub fn eq_pass_param(pass: u32, field: u32) -> (id: u32)
    requires
        pass <= EQ_LOW_PASS,
        field < EQ_PASS_FIELDS,
    ensures
        id == EQ_PASS_BASE + pass * EQ_PASS_FIELDS + field,
        eq_pass_at(id) == Some((pass, field)),
        eq_band_at(id) is None,
{
    EQ_PASS_BASE + pass * EQ_PASS_FIELDS + field
}

/// The band and field a parameter belongs to.
pub open spec fn eq_band_at(id: u32) -> Option<(u32, u32)> {
    if id < EQ_PASS_BASE {
        Some((id / EQ_BAND_FIELDS, id % EQ_BAND_FIELDS))
    } else {
        None
    }
}

/// The pass filter and field a parameter belongs to.
pub open spec fn eq_pass_at(id: u32) -> Option<(u32, u32)> {
    if EQ_PASS_BASE <= id < EQ_DESCRIPTOR_COUNT {
        Some((
            ((id - EQ_PASS_BASE) / EQ_PASS_FIELDS as int) as u32,
            ((id - EQ_PASS_BASE) % EQ_PASS_FIELDS as int) as u32,
        ))
    } else {
        None
    }
}

pub fn eq_band_of(id: u32) -> (place: Option<(u32, u32)>)
    ensures
        place == eq_band_at(id),
{
    if id < EQ_PASS_BASE {
        Some((id / EQ_BAND_FIELDS, id % EQ_BAND_FIELDS))
    } else {
        None
    }
}

pub fn eq_pass_of(id: u32) -> (place: Option<(u32, u32)>)
    ensures
        place == eq_pass_at(id),
{
    if EQ_PASS_BASE <= id && id < EQ_DESCRIPTOR_COUNT {
        let at: u32 = id - EQ_PASS_BASE;
        Some((at / EQ_PASS_FIELDS, at % EQ_PASS_FIELDS))
    } else {
        None
    }
}

/// A switch's position as a value says it.
pub open spec fn switched<S: Sample>(value: S) -> bool {
    ratio_of::<S>(1, 2).at_most(value)
}

/// A choice's place as a value says it.
pub open spec fn chosen<S: Sample>(value: S) -> nat {
    value.round_spec().whole_spec()
}

/// The kind at a place, the last one for what is past it.
pub open spec fn kind_at(place: nat) -> EqBandKind {
    if place == 0 {
        EqBandKind::Bell
    } else if place == 1 {
        EqBandKind::LowShelf
    } else {
        EqBandKind::HighShelf
    }
}

/// The profile at a place.
pub open spec fn profile_at(place: nat) -> EqQProfile {
    if place == 0 {
        EqQProfile::Constant
    } else {
        EqQProfile::Proportional
    }
}

/// The slope at a place, the last one for what is past it.
pub open spec fn slope_at(place: nat) -> EqSlope {
    if place == 0 {
        EqSlope::Db6
    } else if place == 1 {
        EqSlope::Db12
    } else if place == 2 {
        EqSlope::Db18
    } else if place == 3 {
        EqSlope::Db24
    } else if place == 4 {
        EqSlope::Db30
    } else {
        EqSlope::Db36
    }
}

/// A band with one field set.
pub open spec fn band_with<S: Sample>(band: EqBand<S>, field: u32, value: S) -> EqBand<S> {
    if field == EQ_BAND_ON {
        EqBand { enabled: switched(value), ..band }
    } else if field == EQ_BAND_KIND {
        EqBand { kind: kind_at(chosen(value)), ..band }
    } else if field == EQ_BAND_FREQ {
        EqBand { frequency_hz: value, ..band }
    } else if field == EQ_BAND_GAIN {
        EqBand { gain_db: value, ..band }
    } else if field == EQ_BAND_Q {
        EqBand { q: value, ..band }
    } else {
        EqBand { q_profile: profile_at(chosen(value)), ..band }
    }
}

/// A pass filter with one field set.
pub open spec fn pass_with<S: Sample>(pass: EqPass<S>, field: u32, value: S) -> EqPass<S> {
    if field == EQ_PASS_ON {
        EqPass { enabled: switched(value), ..pass }
    } else if field == EQ_PASS_FREQ {
        EqPass { frequency_hz: value, ..pass }
    } else if field == EQ_PASS_Q {
        EqPass { q: value, ..pass }
    } else {
        EqPass { slope: slope_at(chosen(value)), ..pass }
    }
}

impl<S: Sample> EqBand<S> {
    fn set(&mut self, field: u32, value: S)
        requires
            field < EQ_BAND_FIELDS,
        ensures
            *final(self) == band_with(*old(self), field, value),
    {
        match field {
            EQ_BAND_ON => {
                self.enabled = ratio::<S>(1, 2).le(value);
            },
            EQ_BAND_KIND => {
                self.kind = match value.round().whole() {
                    0 => EqBandKind::Bell,
                    1 => EqBandKind::LowShelf,
                    _ => EqBandKind::HighShelf,
                };
            },
            EQ_BAND_FREQ => {
                self.frequency_hz = value;
            },
            EQ_BAND_GAIN => {
                self.gain_db = value;
            },
            EQ_BAND_Q => {
                self.q = value;
            },
            _ => {
                self.q_profile = match value.round().whole() {
                    0 => EqQProfile::Constant,
                    _ => EqQProfile::Proportional,
                };
            },
        }
    }
}

impl<S: Sample> EqPass<S> {
    fn set(&mut self, field: u32, value: S)
        requires
            field < EQ_PASS_FIELDS,
        ensures
            *final(self) == pass_with(*old(self), field, value),
    {
        match field {
            EQ_PASS_ON => {
                self.enabled = ratio::<S>(1, 2).le(value);
            },
            EQ_PASS_FREQ => {
                self.frequency_hz = value;
            },
            EQ_PASS_Q => {
                self.q = value;
            },
            _ => {
                self.slope = match value.round().whole() {
                    0 => EqSlope::Db6,
                    1 => EqSlope::Db12,
                    2 => EqSlope::Db18,
                    3 => EqSlope::Db24,
                    4 => EqSlope::Db30,
                    _ => EqSlope::Db36,
                };
            },
        }
    }
}

/// Whether a set of controls is another with one parameter set.
pub open spec fn params_with<S: Sample>(
    before: EqParams<S>,
    id: u32,
    value: S,
    after: EqParams<S>,
) -> bool {
    match (eq_band_at(id), eq_pass_at(id)) {
        (Some((band, field)), _) => {
            &&& after.bands@ == before.bands@.update(
                band as int,
                band_with(before.bands[band as int], field, value),
            )
            &&& after.high_pass == before.high_pass
            &&& after.low_pass == before.low_pass
        },
        (None, Some((pass, field))) => {
            &&& after.bands@ == before.bands@
            &&& after.high_pass == (if pass == EQ_HIGH_PASS {
                pass_with(before.high_pass, field, value)
            } else {
                before.high_pass
            })
            &&& after.low_pass == (if pass == EQ_HIGH_PASS {
                before.low_pass
            } else {
                pass_with(before.low_pass, field, value)
            })
        },
        (None, None) => after == before,
    }
}

impl<S: Sample> EqParams<S> {
    /// Set one parameter; `false`, with nothing changed, where there is none
    /// of that number.
    pub fn set(&mut self, id: u32, value: S) -> (known: bool)
        ensures
            known == (id < EQ_DESCRIPTOR_COUNT),
            params_with(*old(self), id, value, *final(self)),
    {
        if let Some((band, field)) = eq_band_of(id) {
            let mut changed = self.bands[band as usize];
            changed.set(field, value);
            self.bands[band as usize] = changed;
            true
        } else if let Some((pass, field)) = eq_pass_of(id) {
            if pass == EQ_HIGH_PASS {
                self.high_pass.set(field, value);
            } else {
                self.low_pass.set(field, value);
            }
            true
        } else {
            false
        }
    }
}

/// The pass filter a stage after the bands belongs to.
pub open spec fn pass_of_stage<S>(params: EqParams<S>, stage: int) -> EqPass<S> {
    if stage < EQ_MAX_BANDS + PASS_STAGES {
        params.high_pass
    } else {
        params.low_pass
    }
}

/// A stage's place among those of its pass filter.
pub open spec fn place_in_pass(stage: int) -> int {
    if stage < EQ_MAX_BANDS + PASS_STAGES {
        stage - EQ_MAX_BANDS
    } else {
        stage - EQ_MAX_BANDS - PASS_STAGES
    }
}

/// Whether the controls switch a stage on.
pub open spec fn stage_on<S>(params: EqParams<S>, stage: int) -> bool {
    if stage < EQ_MAX_BANDS {
        params.bands[stage].enabled
    } else {
        let pass = pass_of_stage(params, stage);
        pass.enabled && place_in_pass(stage) < pass.slope.count()
    }
}

/// A stage designed as the controls say. One that is off is the identity; one
/// that is on keeps what it has stored.
pub open spec fn stage_designed<S: Curves>(
    before: Biquad<S>,
    params: EqParams<S>,
    stage: int,
    sample_rate: u32,
) -> Biquad<S> {
    if !stage_on(params, stage) {
        identity_stage()
    } else if stage < EQ_MAX_BANDS {
        let band = params.bands[stage];
        retuned(
            before,
            band_design(
                band.kind,
                band.frequency_hz,
                band.gain_db,
                band.q,
                band.q_profile,
                sample_rate,
            ),
        )
    } else {
        let pass = pass_of_stage(params, stage);
        retuned(
            before,
            pass_design(
                pass.frequency_hz,
                pass.q,
                stage < EQ_MAX_BANDS + PASS_STAGES,
                sample_rate,
            ),
        )
    }
}

/// The indices of the stages among the first `count` that are live, in order.
pub open spec fn live_stages(live: Seq<bool>, count: int) -> Seq<u8>
    decreases count,
{
    if count <= 0 {
        seq![]
    } else {
        let before = live_stages(live, count - 1);
        if live[count - 1] {
            before.push((count - 1) as u8)
        } else {
            before
        }
    }
}

/// What live stages are: live, in order, and all of them.
proof fn lemma_live_stages(live: Seq<bool>, count: int)
    requires
        0 <= count <= live.len(),
        live.len() <= 255,
    ensures
        live_stages(live, count).len() <= count,
        forall|i: int|
            0 <= i < live_stages(live, count).len() ==> (#[trigger] live_stages(live, count)[i])
                < count && live[live_stages(live, count)[i] as int],
    decreases count,
{
    if count > 0 {
        lemma_live_stages(live, count - 1);
    }
}

/// The bank: its stages, and which of them do something.
pub struct EqBank<S> {
    pub params: EqParams<S>,
    pub sample_rate: u32,
    pub left: [Biquad<S>; STAGES],
    pub right: [Biquad<S>; STAGES],
    /// Which stages are doing something, in order.
    pub active: [u8; STAGES],
    pub active_len: usize,
    /// One stage's own liveness.
    pub live: [bool; STAGES],
    /// Which stages have a parameter change waiting to be designed in.
    pub dirty: [bool; STAGES],
}

/// What the bank is.
pub struct Bank<S> {
    pub params: EqParams<S>,
    pub sample_rate: u32,
    pub left: Seq<Biquad<S>>,
    pub right: Seq<Biquad<S>>,
    pub active: Seq<u8>,
    pub live: Seq<bool>,
    pub dirty: Seq<bool>,
}

impl<S> View for EqBank<S> {
    type V = Bank<S>;

    closed spec fn view(&self) -> Bank<S> {
        Bank {
            params: self.params,
            sample_rate: self.sample_rate,
            left: self.left@,
            right: self.right@,
            active: self.active@.take(self.active_len as int),
            live: self.live@,
            dirty: self.dirty@,
        }
    }
}

/// What holds of a bank: the active list is that of the live stages, a stage
/// that is not live is the identity, and a stage with nothing waiting is live
/// as the controls say.
pub open spec fn bank_formed<S: Sample>(bank: Bank<S>) -> bool {
    &&& bank.left.len() == STAGES
    &&& bank.right.len() == STAGES
    &&& bank.live.len() == STAGES
    &&& bank.dirty.len() == STAGES
    &&& bank.active == live_stages(bank.live, STAGES as int)
    &&& forall|i: int|
        0 <= i < STAGES && !(#[trigger] bank.live[i]) ==> bank.left[i] == identity_stage::<S>()
            && bank.right[i] == identity_stage::<S>()
    &&& forall|i: int|
        0 <= i < STAGES && !(#[trigger] bank.dirty[i]) ==> bank.live[i] == stage_on(
            bank.params,
            i,
        )
}

/// One channel with the stages that are waiting designed.
pub open spec fn stages_resolved<S: Curves>(
    stages: Seq<Biquad<S>>,
    params: EqParams<S>,
    sample_rate: u32,
    dirty: Seq<bool>,
) -> Seq<Biquad<S>> {
    Seq::new(
        stages.len(),
        |i: int|
            if dirty[i] {
                stage_designed(stages[i], params, i, sample_rate)
            } else {
                stages[i]
            },
    )
}

/// The bank with every stage that was waiting designed, and no other touched.
pub open spec fn bank_resolved<S: Curves>(bank: Bank<S>) -> Bank<S> {
    let live = Seq::new(
        bank.live.len(),
        |i: int|
            if bank.dirty[i] {
                stage_on(bank.params, i)
            } else {
                bank.live[i]
            },
    );
    Bank {
        left: stages_resolved(bank.left, bank.params, bank.sample_rate, bank.dirty),
        right: stages_resolved(bank.right, bank.params, bank.sample_rate, bank.dirty),
        live,
        active: live_stages(live, STAGES as int),
        dirty: Seq::new(bank.dirty.len(), |i: int| false),
        ..bank
    }
}

/// The stages a parameter affects.
pub open spec fn affected(id: u32, stage: int) -> bool {
    match (eq_band_at(id), eq_pass_at(id)) {
        (Some((band, _)), _) => stage == band,
        (None, Some((pass, _))) => EQ_MAX_BANDS + pass * PASS_STAGES <= stage < EQ_MAX_BANDS + (
        pass + 1) * PASS_STAGES,
        (None, None) => false,
    }
}

/// The bank with the stages a parameter affects marked.
pub open spec fn bank_marked<S>(bank: Bank<S>, id: u32) -> Bank<S> {
    Bank {
        dirty: Seq::new(bank.dirty.len(), |i: int| bank.dirty[i] || affected(id, i)),
        ..bank
    }
}

/// What the first `count` active stages make of a sample.
pub open spec fn chain_out<S: Sample>(
    stages: Seq<Biquad<S>>,
    active: Seq<u8>,
    input: S,
    count: int,
) -> S
    decreases count,
{
    if count <= 0 {
        input
    } else {
        stage_out(
            chain_after(stages, active, input, count - 1)[active[count - 1] as int],
            chain_out(stages, active, input, count - 1),
        )
    }
}

/// The stages after the first `count` active ones have passed a sample on.
pub open spec fn chain_after<S: Sample>(
    stages: Seq<Biquad<S>>,
    active: Seq<u8>,
    input: S,
    count: int,
) -> Seq<Biquad<S>>
    decreases count,
{
    if count <= 0 {
        stages
    } else {
        let before = chain_after(stages, active, input, count - 1);
        let stage = active[count - 1] as int;
        before.update(
            stage,
            stage_after(before[stage], chain_out(stages, active, input, count - 1)),
        )
    }
}

/// The bank after one frame.
pub open spec fn bank_next<S: Sample>(bank: Bank<S>, l: S, r: S) -> Bank<S> {
    let count = bank.active.len() as int;
    Bank {
        left: chain_after(bank.left, bank.active, l, count),
        right: chain_after(bank.right, bank.active, r, count),
        ..bank
    }
}

/// What the bank makes of one frame.
pub open spec fn bank_out<S: Sample>(bank: Bank<S>, l: S, r: S) -> (S, S) {
    let count = bank.active.len() as int;
    (chain_out(bank.left, bank.active, l, count), chain_out(bank.right, bank.active, r, count))
}

/// The bank as a step.
pub open spec fn bank_step<S: Sample>() -> spec_fn(Bank<S>, S, S) -> Bank<S> {
    |bank: Bank<S>, l: S, r: S| bank_next(bank, l, r)
}

/// What the bank puts out at a step.
pub open spec fn bank_heard<S: Sample>() -> spec_fn(Bank<S>, S, S) -> (S, S) {
    |bank: Bank<S>, l: S, r: S| bank_out(bank, l, r)
}

/// A chain changes no stage but its own, and no stage's place.
proof fn lemma_chain_keeps<S: Sample>(
    stages: Seq<Biquad<S>>,
    active: Seq<u8>,
    input: S,
    count: int,
    stage: int,
)
    requires
        0 <= count <= active.len(),
        0 <= stage < stages.len(),
        forall|i: int|
            0 <= i < active.len() ==> #[trigger] active[i] != stage && active[i] < stages.len(),
    ensures
        chain_after(stages, active, input, count).len() == stages.len(),
        chain_after(stages, active, input, count)[stage] == stages[stage],
    decreases count,
{
    if count > 0 {
        lemma_chain_keeps(stages, active, input, count - 1, stage);
        assert(active[count - 1] != stage);
    }
}

proof fn lemma_chain_len<S: Sample>(
    stages: Seq<Biquad<S>>,
    active: Seq<u8>,
    input: S,
    count: int,
)
    requires
        0 <= count <= active.len(),
        forall|i: int| 0 <= i < active.len() ==> #[trigger] active[i] < stages.len(),
    ensures
        chain_after(stages, active, input, count).len() == stages.len(),
    decreases count,
{
    if count > 0 {
        lemma_chain_len(stages, active, input, count - 1);
        assert(active[count - 1] < stages.len());
    }
}

/// A frame through the bank leaves it formed: a stage that is off stays the
/// identity, because it is never run.
proof fn lemma_bank_stays_formed<S: Sample>(bank: Bank<S>, l: S, r: S)
    requires
        bank_formed(bank),
    ensures
        bank_formed(bank_next(bank, l, r)),
{
    let after = bank_next(bank, l, r);
    let count = bank.active.len() as int;
    lemma_live_stages(bank.live, STAGES as int);
    lemma_chain_len(bank.left, bank.active, l, count);
    lemma_chain_len(bank.right, bank.active, r, count);
    assert forall|i: int| 0 <= i < STAGES && !(#[trigger] after.live[i]) implies after.left[i]
        == identity_stage::<S>() && after.right[i] == identity_stage::<S>() by {
        assert forall|k: int| 0 <= k < bank.active.len() implies #[trigger] bank.active[k]
            != i && bank.active[k] < bank.left.len() by {
            assert(bank.live[bank.active[k] as int]);
        }
        assert(!bank.live[i]);
        lemma_chain_keeps(bank.left, bank.active, l, count, i);
        lemma_chain_keeps(bank.right, bank.active, r, count, i);
    }
}

impl<S: Curves> EqBank<S> {
    pub closed spec fn well_formed(&self) -> bool {
        self.active_len <= STAGES && bank_formed(self@)
    }

    /// Redesign whichever stages are marked, and refold the active list if any
    /// was.
    pub fn resolve_dirty(&mut self)
        requires
            old(self).well_formed(),
        ensures
            final(self).well_formed(),
            final(self)@ == bank_resolved(old(self)@),
    {
        let ghost before = self@;
        let ghost after = bank_resolved(before);
        let mut refolded = false;
        let mut stage: usize = 0;
        while stage < STAGES
            invariant
                stage <= STAGES,
                before == old(self)@,
                bank_formed(before),
                after == bank_resolved(before),
                self.active_len <= STAGES,
                self.params == before.params,
                self.sample_rate == before.sample_rate,
                self.active == old(self).active,
                self.active_len == old(self).active_len,
                forall|i: int|
                    #![trigger self.left[i]]
                    #![trigger self.right[i]]
                    #![trigger self.live[i]]
                    #![trigger self.dirty[i]]
                    0 <= i < stage ==> self.left[i] == after.left[i] && self.right[i]
                        == after.right[i] && self.live[i] == after.live[i] && !self.dirty[i],
                forall|i: int|
                    #![trigger self.left[i]]
                    #![trigger self.right[i]]
                    #![trigger self.live[i]]
                    #![trigger self.dirty[i]]
                    stage <= i < STAGES ==> self.left[i] == before.left[i] && self.right[i]
                        == before.right[i] && self.live[i] == before.live[i] && self.dirty[i]
                        == before.dirty[i],
                !refolded ==> forall|i: int|
                    0 <= i < stage ==> !(#[trigger] before.dirty[i]),
            decreases STAGES - stage,
        {
            if self.dirty[stage] {
                let live = self.design_stage(stage);
                self.live[stage] = live;
                self.dirty[stage] = false;
                refolded = true;
            }
            stage = stage + 1;
        }
        assert(self.left@ =~= after.left);
        assert(self.right@ =~= after.right);
        assert(self.live@ =~= after.live);
        assert(self.dirty@ =~= after.dirty);
        if refolded {
            self.refold();
        } else {
            assert(self.live@ =~= before.live);
        }
        assert(self@.active == after.active);
        proof {
            assert forall|i: int| 0 <= i < STAGES && !(#[trigger] after.live[i]) implies after.left[i]
                == identity_stage::<S>() && after.right[i] == identity_stage::<S>() by {
                if !before.dirty[i] {
                    assert(!before.live[i]);
                }
            }
            assert forall|i: int| 0 <= i < STAGES && !(#[trigger] after.dirty[i]) implies after.live[i]
                == stage_on(after.params, i) by {
                if !before.dirty[i] {
                    assert(before.live[i] == stage_on(before.params, i));
                }
            }
            assert(self@ == after);
        }
    }

    /// Design one stage of both channels; whether it is on.
    fn design_stage(&mut self, stage: usize) -> (live: bool)
        requires
            stage < STAGES,
        ensures
            live == stage_on(old(self).params, stage as int),
            *final(self) == (EqBank {
                left: final(self).left,
                right: final(self).right,
                ..*old(self)
            }),
            final(self).left@ == old(self).left@.update(
                stage as int,
                stage_designed(
                    old(self).left[stage as int],
                    old(self).params,
                    stage as int,
                    old(self).sample_rate,
                ),
            ),
            final(self).right@ == old(self).right@.update(
                stage as int,
                stage_designed(
                    old(self).right[stage as int],
                    old(self).params,
                    stage as int,
                    old(self).sample_rate,
                ),
            ),
    {
        let (left, live) = design_one(
            self.left[stage],
            &self.params,
            stage,
            self.sample_rate,
        );
        let (right, _) = design_one(self.right[stage], &self.params, stage, self.sample_rate);
        self.left[stage] = left;
        self.right[stage] = right;
        live
    }

    /// Write the active list anew.
    fn refold(&mut self)
        ensures
            final(self).active_len <= STAGES,
            final(self)@ == (Bank {
                active: live_stages(old(self)@.live, STAGES as int),
                ..old(self)@
            }),
    {
        self.active_len = 0;
        let mut index: usize = 0;
        assert(self.active@.take(0) =~= live_stages(self.live@, 0));
        while index < STAGES
            invariant
                index <= STAGES,
                self.active_len <= index,
                self.params == old(self).params,
                self.sample_rate == old(self).sample_rate,
                self.left == old(self).left,
                self.right == old(self).right,
                self.live == old(self).live,
                self.dirty == old(self).dirty,
                self.active@.take(self.active_len as int) == live_stages(
                    self.live@,
                    index as int,
                ),
            decreases STAGES - index,
        {
            let ghost before = self.active@.take(self.active_len as int);
            if self.live[index] {
                self.active[self.active_len] = index as u8;
                self.active_len = self.active_len + 1;
                assert(self.active@.take(self.active_len as int) =~= before.push(index as u8));
            }
            index = index + 1;
        }
    }

    /// Mark every stage `id` affects, without redesigning anything.
    fn mark_dirty(&mut self, id: u32)
        ensures
            final(self)@ == bank_marked(old(self)@, id),
            *final(self) == (EqBank { dirty: final(self).dirty, ..*old(self) }),
    {
        let ghost before = self.dirty@;
        if let Some((band, _)) = eq_band_of(id) {
            self.dirty[band as usize] = true;
        } else if let Some((pass, _)) = eq_pass_of(id) {
            let base: usize = EQ_MAX_BANDS + pass as usize * PASS_STAGES;
            let mut stage: usize = 0;
            while stage < PASS_STAGES
                invariant
                    stage <= PASS_STAGES,
                    pass <= 1,
                    base == EQ_MAX_BANDS + pass * PASS_STAGES,
                    before == old(self).dirty@,
                    *self == (EqBank { dirty: self.dirty, ..*old(self) }),
                    forall|i: int|
                        0 <= i < STAGES ==> #[trigger] self.dirty[i] == (before[i] || base <= i
                            < base + stage),
                decreases PASS_STAGES - stage,
            {
                self.dirty[base + stage] = true;
                stage = stage + 1;
            }
        }
        assert(self@.dirty =~= bank_marked(old(self)@, id).dirty);
    }
}

/// One stage designed as the controls say, and whether it is on.
fn design_one<S: Curves>(
    before: Biquad<S>,
    params: &EqParams<S>,
    stage: usize,
    sample_rate: u32,
) -> (designed: (Biquad<S>, bool))
    requires
        stage < STAGES,
    ensures
        designed.0 == stage_designed(before, *params, stage as int, sample_rate),
        designed.1 == stage_on(*params, stage as int),
{
    let mut filter = before;
    if stage < EQ_MAX_BANDS {
        let band = params.bands[stage];
        design_band(&mut filter, band, sample_rate);
        (filter, band.enabled)
    } else {
        let high = stage < EQ_MAX_BANDS + PASS_STAGES;
        let pass = if high {
            params.high_pass
        } else {
            params.low_pass
        };
        let place: usize = if high {
            stage - EQ_MAX_BANDS
        } else {
            stage - EQ_MAX_BANDS - PASS_STAGES
        };
        let enabled = pass.enabled && place < pass.slope.stages();
        if enabled {
            filter.pass(pass.frequency_hz, pass.q, high, sample_rate);
        } else {
            filter = Biquad::identity();
        }
        (filter, enabled)
    }
}

/// One band's coefficients.
fn design_band<S: Curves>(filter: &mut Biquad<S>, band: EqBand<S>, sample_rate: u32)
    ensures
        *final(filter) == (if band.enabled {
            retuned(
                *old(filter),
                band_design(
                    band.kind,
                    band.frequency_hz,
                    band.gain_db,
                    band.q,
                    band.q_profile,
                    sample_rate,
                ),
            )
        } else {
            identity_stage()
        }),
{
    if !band.enabled {
        *filter = Biquad::identity();
        return;
    }
    filter.eq_band(
        band.kind,
        band.frequency_hz,
        band.gain_db,
        band.q,
        band.q_profile,
        sample_rate,
    );
}

/// Design the whole bank into `stages`, and report which of them are live. The
/// stages are the caller's, because the audio path's carry stored samples
/// across a coefficient swap.
pub fn design_eq_bank<S: Curves>(
    params: &EqParams<S>,
    sample_rate: u32,
    stages: &mut [Biquad<S>; STAGES],
) -> (live: [bool; STAGES])
    ensures
        forall|i: int|
            0 <= i < STAGES ==> #[trigger] final(stages)[i] == stage_designed(
                old(stages)[i],
                *params,
                i,
                sample_rate,
            ),
        forall|i: int| 0 <= i < STAGES ==> #[trigger] live[i] == stage_on(*params, i),
{
    let ghost before = stages@;
    let mut live = [false; STAGES];
    let mut stage: usize = 0;
    while stage < STAGES
        invariant
            stage <= STAGES,
            before == old(stages)@,
            forall|i: int|
                0 <= i < stage ==> #[trigger] stages[i] == stage_designed(
                    before[i],
                    *params,
                    i,
                    sample_rate,
                ),
            forall|i: int| stage <= i < STAGES ==> #[trigger] stages[i] == before[i],
            forall|i: int| 0 <= i < stage ==> #[trigger] live[i] == stage_on(*params, i),
        decreases STAGES - stage,
    {
        let (designed, on) = design_one(stages[stage], params, stage, sample_rate);
        stages[stage] = designed;
        live[stage] = on;
        stage = stage + 1;
    }
    live
}

/// The frequency at a place along the response plot: 20 Hz to 20 kHz, evenly
/// in octaves.
pub open spec fn plot_hz<S: Curves>(place: S) -> S {
    S::of_spec(20).times(S::of_spec(1000).powf_spec(place))
}

pub fn eq_plot_frequency<S: Curves>(place: S) -> (hz: S)
    ensures
        hz == plot_hz(place),
{
    S::of(20).mul(S::of(1000).powf(place))
}

/// The gain of the first `count` stages at a frequency, those that are live.
pub open spec fn response_sum<S: Curves>(
    params: EqParams<S>,
    hz: S,
    sample_rate: u32,
    count: int,
) -> S
    decreases count,
{
    if count <= 0 {
        S::of_spec(0)
    } else {
        let before = response_sum(params, hz, sample_rate, count - 1);
        if stage_on(params, count - 1) {
            before.plus(
                magnitude_of(
                    stage_designed(identity_stage(), params, count - 1, sample_rate),
                    hz,
                    sample_rate,
                ),
            )
        } else {
            before
        }
    }
}

/// The bank's gain at each of `samples` points along the response plot's
/// frequency axis, in decibels. At least two points.
///
/// This is what the device does, not a shape that resembles it: every stage is
/// designed by the function the audio path designs it with.
pub fn eq_response_db<S: Curves>(params: &EqParams<S>, sample_rate: u32, samples: usize) -> (curve:
    Vec<S>)
    ensures
        curve@.len() == (if samples < 2 { 2 } else { samples as nat }),
        forall|i: int|
            0 <= i < curve@.len() ==> #[trigger] curve@[i] == response_sum(
                *params,
                plot_hz(
                    S::of_spec(i as nat).over(S::of_spec((curve@.len() - 1) as nat)),
                ),
                sample_rate,
                STAGES as int,
            ),
{
    let mut stages = [Biquad::<S>::identity(); STAGES];
    let live = design_eq_bank(params, sample_rate, &mut stages);
    let points: usize = if samples < 2 {
        2
    } else {
        samples
    };
    let mut curve: Vec<S> = Vec::with_capacity(points);
    let mut index: usize = 0;
    while index < points
        invariant
            index <= points,
            points >= 2,
            curve@.len() == index,
            forall|i: int|
                0 <= i < STAGES ==> #[trigger] stages[i] == stage_designed(
                    identity_stage(),
                    *params,
                    i,
                    sample_rate,
                ),
            forall|i: int| 0 <= i < STAGES ==> #[trigger] live[i] == stage_on(*params, i),
            forall|i: int|
                0 <= i < index ==> #[trigger] curve@[i] == response_sum(
                    *params,
                    plot_hz(S::of_spec(i as nat).over(S::of_spec((points - 1) as nat))),
                    sample_rate,
                    STAGES as int,
                ),
        decreases points - index,
    {
        let hz = eq_plot_frequency(S::of(index).div(S::of(points - 1)));
        let mut sum = S::of(0);
        let mut stage: usize = 0;
        while stage < STAGES
            invariant
                stage <= STAGES,
                forall|i: int|
                    0 <= i < STAGES ==> #[trigger] stages[i] == stage_designed(
                        identity_stage(),
                        *params,
                        i,
                        sample_rate,
                    ),
                forall|i: int| 0 <= i < STAGES ==> #[trigger] live[i] == stage_on(*params, i),
                sum == response_sum(*params, hz, sample_rate, stage as int),
            decreases STAGES - stage,
        {
            if live[stage] {
                sum = sum.add(stages[stage].magnitude_db(hz, sample_rate));
            }
            stage = stage + 1;
        }
        curve.push(sum);
        index = index + 1;
    }
    curve
}

impl<S: Curves> RangeProcessor<S> for EqBank<S> {
    open spec fn ready(&self) -> bool {
        self.well_formed()
    }

    open spec fn renders(
        &self,
        l: Seq<S>,
        r: Seq<S>,
        start: int,
        end: int,
        after: &Self,
        new_l: Seq<S>,
        new_r: Seq<S>,
    ) -> bool {
        let bank = bank_resolved(self@);
        &&& after@ == after_frames(bank_step(), bank, l, r, start, end - start)
        &&& new_l == left_of(bank_step(), bank_heard(), bank, l, r, start, end)
        &&& new_r == right_of(bank_step(), bank_heard(), bank, l, r, start, end)
    }

    open spec fn takes(&self, id: u32, value: S, after: &Self) -> bool {
        &&& params_with(self@.params, id, value, after@.params)
        &&& after@ == (Bank { params: after@.params, ..bank_marked(self@, id) })
    }

    fn process_range(&mut self, bus: &mut StereoBus<S>, start: usize, end: usize) {
        self.resolve_dirty();
        let ghost before = self@;
        let ghost l = bus.l@;
        let ghost r = bus.r@;
        proof {
            lemma_nothing_rendered(bank_step(), bank_heard(), before, l, r, start as int);
        }
        let mut i: usize = start;
        while i < end
            invariant
                start <= i <= end <= l.len(),
                l.len() == r.len(),
                bus.l@.len() == l.len(),
                bus.r@.len() == r.len(),
                self.well_formed(),
                self@ == after_frames(bank_step(), before, l, r, start as int, i - start),
                bus.l@ == left_of(
                    bank_step(),
                    bank_heard(),
                    before,
                    l,
                    r,
                    start as int,
                    i as int,
                ),
                bus.r@ == right_of(
                    bank_step(),
                    bank_heard(),
                    before,
                    l,
                    r,
                    start as int,
                    i as int,
                ),
            decreases end - i,
        {
            proof {
                lemma_frame_rendered(
                    bank_step(),
                    bank_heard(),
                    before,
                    l,
                    r,
                    start as int,
                    i as int,
                );
            }
            let (out_l, out_r) = self.process_frame(bus.l[i], bus.r[i]);
            bus.l[i] = out_l;
            bus.r[i] = out_r;
            i = i + 1;
        }
    }

    fn apply_param(&mut self, id: u32, value: S) {
        let ghost before = self@;
        if self.params.set(id, value) {
            self.mark_dirty(id);
        }
        proof {
            let after = self@;
            assert(after.dirty =~= bank_marked(before, id).dirty);
            assert forall|i: int| 0 <= i < STAGES && !(#[trigger] after.dirty[i]) implies after.live[i]
                == stage_on(after.params, i) by {
                assert(!before.dirty[i]);
                assert(before.live[i] == stage_on(before.params, i));
                assert(!affected(id, i));
            }
        }
    }
}

impl<S: Curves> EqBank<S> {
    /// One frame through the stages that are switched on.
    fn process_frame(&mut self, l: S, r: S) -> (out: (S, S))
        requires
            old(self).well_formed(),
        ensures
            final(self).well_formed(),
            final(self)@ == bank_next(old(self)@, l, r),
            out == bank_out(old(self)@, l, r),
    {
        let ghost before = self@;
        proof {
            lemma_live_stages(before.live, STAGES as int);
            lemma_bank_stays_formed(before, l, r);
        }
        let mut out_l = l;
        let mut out_r = r;
        let mut place: usize = 0;
        while place < self.active_len
            invariant
                before == old(self)@,
                bank_formed(before),
                place <= self.active_len <= STAGES,
                *self == (EqBank { left: self.left, right: self.right, ..*old(self) }),
                self.active_len == before.active.len(),
                forall|i: int|
                    0 <= i < before.active.len() ==> (#[trigger] before.active[i]) < STAGES,
                self.left@ == chain_after(before.left, before.active, l, place as int),
                self.right@ == chain_after(before.right, before.active, r, place as int),
                out_l == chain_out(before.left, before.active, l, place as int),
                out_r == chain_out(before.right, before.active, r, place as int),
            decreases self.active_len - place,
        {
            let stage: usize = self.active[place] as usize;
            assert(before.active[place as int] == stage);
            let mut left = self.left[stage];
            let mut right = self.right[stage];
            out_l = left.process(out_l);
            out_r = right.process(out_r);
            self.left[stage] = left;
            self.right[stage] = right;
            place = place + 1;
        }
        (out_l, out_r)
    }

    /// Whether nothing the bank has stored is audible.
    pub fn is_at_rest(&self, epsilon: S) -> (answer: bool)
        requires
            self.well_formed(),
        ensures
            answer == forall|i: int|
                0 <= i < self@.active.len() ==> stage_resting(
                    self@.left[(#[trigger] self@.active[i]) as int],
                    epsilon,
                ) && stage_resting(self@.right[self@.active[i] as int], epsilon),
    {
        proof {
            lemma_live_stages(self@.live, STAGES as int);
        }
        let mut place: usize = 0;
        while place < self.active_len
            invariant
                place <= self.active_len <= STAGES,
                self.active_len == self@.active.len(),
                forall|i: int|
                    0 <= i < self@.active.len() ==> (#[trigger] self@.active[i]) < STAGES,
                forall|i: int|
                    0 <= i < place ==> stage_resting(
                        self@.left[(#[trigger] self@.active[i]) as int],
                        epsilon,
                    ) && stage_resting(self@.right[self@.active[i] as int], epsilon),
            decreases self.active_len - place,
        {
            let stage: usize = self.active[place] as usize;
            assert(self@.active[place as int] == stage);
            if !self.left[stage].is_at_rest(epsilon) || !self.right[stage].is_at_rest(epsilon) {
                return false;
            }
            place = place + 1;
        }
        true
    }
}

/// The bank as it is made, before anything is designed.
pub open spec fn bank_new<S: Sample>(params: EqParams<S>, sample_rate: u32) -> Bank<S> {
    Bank {
        params,
        sample_rate,
        left: Seq::new(STAGES as nat, |i: int| identity_stage()),
        right: Seq::new(STAGES as nat, |i: int| identity_stage()),
        active: seq![],
        live: Seq::new(STAGES as nat, |i: int| false),
        dirty: Seq::new(STAGES as nat, |i: int| true),
    }
}

proof fn lemma_nothing_live(live: Seq<bool>, count: int)
    requires
        0 <= count <= live.len(),
        forall|i: int| 0 <= i < live.len() ==> !#[trigger] live[i],
    ensures
        live_stages(live, count) == Seq::<u8>::empty(),
    decreases count,
{
    if count > 0 {
        lemma_nothing_live(live, count - 1);
    }
}

/// The equalizer: its bank, and the curves of the block to come.
pub struct EqEffect<S> {
    pub bank: EqBank<S>,
    /// This block's curves, captured by `apply_curves` and consumed by
    /// `process`. Empty on a block with nothing modulated or automated.
    pub curve_frame: CurveFrame<S>,
}

impl<S: Curves> EqEffect<S> {
    /// The bank.
    pub closed spec fn bank(&self) -> EqBank<S> {
        self.bank
    }

    /// The curves waiting for the next block.
    pub closed spec fn curves(&self) -> CurveFrame<S> {
        self.curve_frame
    }

    pub open spec fn well_formed(&self) -> bool {
        self.bank().well_formed() && self.curves().well_formed()
    }

    /// An equalizer for blocks of at most `max_ticks` control ticks. Every
    /// stage is designed at once, so that a node that has never rendered
    /// answers for the bank it will render with.
    pub fn new(params: EqParams<S>, sample_rate: u32, max_ticks: usize) -> (effect: Self)
        ensures
            effect.well_formed(),
            effect.bank()@ == bank_resolved(bank_new(params, sample_rate)),
            effect.curves()@.len() == 0,
            effect.curves().row() == max_ticks,
    {
        let mut bank = EqBank {
            params,
            sample_rate,
            left: [Biquad::identity(); STAGES],
            right: [Biquad::identity(); STAGES],
            active: [0; STAGES],
            active_len: 0,
            live: [false; STAGES],
            dirty: [true; STAGES],
        };
        proof {
            let fresh = bank_new(params, sample_rate);
            assert(bank@.left =~= fresh.left);
            assert(bank@.right =~= fresh.right);
            assert(bank@.active =~= fresh.active);
            assert(bank@.live =~= fresh.live);
            assert(bank@.dirty =~= fresh.dirty);
            lemma_nothing_live(bank@.live, STAGES as int);
        }
        bank.resolve_dirty();
        EqEffect { bank, curve_frame: CurveFrame::empty(max_ticks) }
    }

    pub fn is_at_rest(&self, epsilon: S) -> (answer: bool)
        requires
            self.well_formed(),
        ensures
            answer == forall|i: int|
                0 <= i < self.bank()@.active.len() ==> stage_resting(
                    self.bank()@.left[(#[trigger] self.bank()@.active[i]) as int],
                    epsilon,
                ) && stage_resting(
                    self.bank()@.right[self.bank()@.active[i] as int],
                    epsilon,
                ),
    {
        self.bank.is_at_rest(epsilon)
    }

    /// Take one parameter value at once.
    pub fn apply_param(&mut self, id: u32, value: S)
        requires
            old(self).well_formed(),
        ensures
            final(self).well_formed(),
            final(self).curves() == old(self).curves(),
            old(self).bank().takes(id, value, &final(self).bank()),
    {
        self.bank.apply_param(id, value);
    }

    /// Keep this block's curves for the `process` that follows.
    pub fn apply_curves(&mut self, curves: &[ControlCurve<'_, S>])
        requires
            old(self).well_formed(),
        ensures
            final(self).well_formed(),
            final(self).bank() == old(self).bank(),
            final(self).curves()@ == captured(curves@, old(self).curves().row() as int),
            final(self).curves().row() == old(self).curves().row(),
    {
        self.curve_frame.capture(curves);
    }

    /// Render a block, split at the ticks of its curves where it has any and
    /// at its events where it has none. The curves are used up.
    pub fn process<B: Copy>(
        &mut self,
        ctx: &ProcessContext,
        bus: &mut StereoBus<S>,
        events_in: &EventList<S, B>,
    )
        requires
            old(self).well_formed(),
            old(bus).well_formed(),
        ensures
            final(self).well_formed(),
            final(bus).well_formed(),
            final(self).curves()@.len() == 0,
            final(self).curves().row() == old(self).curves().row(),
            carried_out(
                Desk { node: old(self).bank(), l: old(bus).l@, r: old(bus).r@ },
                if old(self).curves()@.len() == 0 {
                    param_plan(
                        events_in@,
                        fitting(ctx.frames as int, old(bus).l@.len() as int),
                    )
                } else {
                    curve_plan(
                        events_in@,
                        old(self).curves()@,
                        CONTROL_RATE_FRAMES as int,
                        fitting(ctx.frames as int, old(bus).l@.len() as int),
                    )
                },
                Desk { node: final(self).bank(), l: final(bus).l@, r: final(bus).r@ },
            ),
    {
        let capacity: usize = bus.capacity();
        let frames: usize = if ctx.frames < capacity {
            ctx.frames
        } else {
            capacity
        };
        if self.curve_frame.is_empty() {
            process_param_split(&mut self.bank, bus, events_in, frames);
        } else {
            process_curve_split(
                &mut self.bank,
                bus,
                events_in,
                &self.curve_frame,
                CONTROL_RATE_FRAMES,
                frames,
            );
            self.curve_frame.clear();
        }
    }
}

/// A parameter redesigns the stages it affects and no others: after it is
/// taken and resolved, every other stage of a bank with nothing waiting is
/// what it was.
pub proof fn a_parameter_redesigns_only_its_own_stages<S: Curves>(
    bank: Bank<S>,
    id: u32,
    params: EqParams<S>,
    stage: int,
)
    requires
        bank_formed(bank),
        0 <= stage < STAGES,
        !bank.dirty[stage],
        !affected(id, stage),
    ensures
        ({
            let after = bank_resolved(Bank { params, ..bank_marked(bank, id) });
            &&& after.left[stage] == bank.left[stage]
            &&& after.right[stage] == bank.right[stage]
            &&& after.live[stage] == bank.live[stage]
        }),
{
}

/// However often a stage is marked before it is resolved, it is designed once:
/// resolving a resolved bank designs nothing.
pub proof fn resolving_twice_is_resolving<S: Curves>(bank: Bank<S>)
    requires
        bank_formed(bank),
    ensures
        bank_resolved(bank_resolved(bank)) == bank_resolved(bank),
{
    let once = bank_resolved(bank);
    let twice = bank_resolved(once);
    assert(twice.left =~= once.left);
    assert(twice.right =~= once.right);
    assert(twice.live =~= once.live);
    assert(twice.dirty =~= once.dirty);
}

/// A bank with nothing switched on hands every frame on untouched.
pub proof fn an_empty_bank_passes_through<S: Sample>(bank: Bank<S>, l: S, r: S)
    requires
        bank.active.len() == 0,
    ensures
        bank_out(bank, l, r) == (l, r),
        bank_next(bank, l, r) == bank,
{
}

/// Every stage, in order.
pub open spec fn every_stage(count: int) -> Seq<u8> {
    Seq::new(count as nat, |i: int| i as u8)
}

proof fn lemma_chain_prefix<S: Sample>(
    stages: Seq<Biquad<S>>,
    active: Seq<u8>,
    other: Seq<u8>,
    input: S,
    count: int,
)
    requires
        count <= active.len(),
        count <= other.len(),
        forall|i: int| 0 <= i < count ==> #[trigger] active[i] == other[i],
    ensures
        chain_out(stages, active, input, count) == chain_out(stages, other, input, count),
        chain_after(stages, active, input, count) == chain_after(stages, other, input, count),
    decreases count,
{
    if count > 0 {
        lemma_chain_prefix(stages, active, other, input, count - 1);
        assert(active[count - 1] == other[count - 1]);
    }
}

proof fn lemma_idle_stages(
    stages: Seq<Biquad<Fixed>>,
    live: Seq<bool>,
    input: Fixed,
    count: int,
)
    requires
        stages.len() == STAGES,
        live.len() == STAGES,
        0 <= count <= STAGES,
        forall|i: int|
            0 <= i < STAGES && !live[i] ==> #[trigger] stages[i] == identity_stage::<Fixed>(),
    ensures
        ({
            let active = live_stages(live, count);
            let all = every_stage(STAGES as int);
            &&& chain_out(stages, active, input, active.len() as int) == chain_out(
                stages,
                all,
                input,
                count,
            )
            &&& chain_after(stages, active, input, active.len() as int) == chain_after(
                stages,
                all,
                input,
                count,
            )
            &&& chain_after(stages, all, input, count).len() == STAGES
            &&& forall|j: int|
                count <= j < STAGES ==> #[trigger] chain_after(stages, all, input, count)[j]
                    == stages[j]
        }),
    decreases count,
{
    if count > 0 {
        let stage = count - 1;
        let active = live_stages(live, count);
        let earlier = live_stages(live, stage);
        let all = every_stage(STAGES as int);
        lemma_idle_stages(stages, live, input, stage);
        assert(all[stage] as int == stage);
        let before = chain_after(stages, all, input, stage);
        let out = chain_out(stages, all, input, stage);
        if live[stage] {
            lemma_chain_prefix(stages, earlier, active, input, earlier.len() as int);
        } else {
            assert(stages[stage] == identity_stage::<Fixed>());
            an_identity_stage_changes_nothing(out);
            assert(before.update(stage, before[stage]) =~= before);
        }
    }
}

/// Stepping over the stages that are out is exact: it makes of a sample what
/// running every stage would, and leaves the stages as that would.
pub proof fn stepping_over_idle_stages_is_exact(bank: Bank<Fixed>, l: Fixed, r: Fixed)
    requires
        bank.left.len() == STAGES,
        bank.right.len() == STAGES,
        bank.live.len() == STAGES,
        bank.active == live_stages(bank.live, STAGES as int),
        forall|i: int|
            0 <= i < STAGES && !bank.live[i] ==> #[trigger] bank.left[i] == identity_stage::<
                Fixed,
            >(),
        forall|i: int|
            0 <= i < STAGES && !bank.live[i] ==> #[trigger] bank.right[i] == identity_stage::<
                Fixed,
            >(),
    ensures
        ({
            let all = Bank { active: every_stage(STAGES as int), ..bank };
            &&& bank_out(bank, l, r) == bank_out(all, l, r)
            &&& bank_next(bank, l, r).left == bank_next(all, l, r).left
            &&& bank_next(bank, l, r).right == bank_next(all, l, r).right
        }),
{
    lemma_idle_stages(bank.left, bank.live, l, STAGES as int);
    lemma_idle_stages(bank.right, bank.live, r, STAGES as int);
}

/// Whether a bank went on by taking a parameter or by being resolved.
pub open spec fn bank_went_on<S: Curves>(before: Bank<S>, after: Bank<S>) -> bool {
    ||| after == bank_resolved(before)
    ||| exists|id: u32, value: S| #[trigger]
        params_with(before.params, id, value, after.params) && after == (Bank {
            params: after.params,
            ..bank_marked(before, id)
        })
}

/// What holds of a bank that has not rendered yet: nothing is stored, and a
/// stage with nothing waiting is designed as the controls say.
spec fn bank_unplayed<S: Curves>(bank: Bank<S>) -> bool {
    &&& bank_formed(bank)
    &&& forall|i: int|
        #![trigger bank.left[i]]
        0 <= i < STAGES ==> {
            &&& bank.left[i].z1 == S::of_spec(0)
            &&& bank.left[i].z2 == S::of_spec(0)
            &&& bank.right[i] == bank.left[i]
            &&& !bank.dirty[i] ==> bank.left[i] == stage_designed(
                identity_stage(),
                bank.params,
                i,
                bank.sample_rate,
            )
        }
}

proof fn lemma_resolving_keeps_unplayed<S: Curves>(bank: Bank<S>)
    requires
        bank_unplayed(bank),
    ensures
        bank_unplayed(bank_resolved(bank)),
        bank_resolved(bank) == bank_resolved(bank_new(bank.params, bank.sample_rate)),
{
    let once = bank_resolved(bank);
    let whole = bank_resolved(bank_new(bank.params, bank.sample_rate));
    assert forall|i: int| 0 <= i < STAGES implies once.left[i] == stage_designed(
        identity_stage(),
        bank.params,
        i,
        bank.sample_rate,
    ) && #[trigger] once.right[i] == once.left[i] && once.live[i] == stage_on(bank.params, i) by {
        assert(bank.right[i] == bank.left[i]);
        assert(!bank.dirty[i] ==> bank.live[i] == stage_on(bank.params, i));
    }
    assert(once.left =~= whole.left) by {
        assert forall|i: int| 0 <= i < STAGES implies once.left[i] == whole.left[i] by {
            assert(once.right[i] == once.left[i]);
        }
    }
    assert(once.right =~= whole.right);
    assert(once.live =~= whole.live) by {
        assert forall|i: int| 0 <= i < STAGES implies once.live[i] == whole.live[i] by {
            assert(once.right[i] == once.left[i]);
        }
    }
    assert(once.dirty =~= whole.dirty);
    assert(bank_unplayed(once)) by {
        assert forall|i: int| 0 <= i < STAGES && !(#[trigger] once.live[i]) implies once.left[i]
            == identity_stage::<S>() && once.right[i] == identity_stage::<S>() by {
            assert(once.right[i] == once.left[i]);
        }
        assert forall|i: int| 0 <= i < STAGES && !(#[trigger] once.dirty[i]) implies once.live[i]
            == stage_on(once.params, i) by {
            assert(once.right[i] == once.left[i]);
        }
        assert forall|i: int| 0 <= i < STAGES implies {
            &&& (#[trigger] once.left[i]).z1 == S::of_spec(0)
            &&& once.left[i].z2 == S::of_spec(0)
            &&& once.right[i] == once.left[i]
        } by {
            assert(once.right[i] == once.left[i]);
        }
    }
}

proof fn lemma_taking_keeps_unplayed<S: Curves>(
    bank: Bank<S>,
    id: u32,
    value: S,
    params: EqParams<S>,
)
    requires
        bank_unplayed(bank),
        params_with(bank.params, id, value, params),
    ensures
        bank_unplayed(Bank { params, ..bank_marked(bank, id) }),
{
    let after = Bank { params, ..bank_marked(bank, id) };
    assert forall|i: int| 0 <= i < STAGES && !affected(id, i) implies #[trigger] stage_on(
        params,
        i,
    ) == stage_on(bank.params, i) && stage_designed(
        identity_stage(),
        params,
        i,
        bank.sample_rate,
    ) == stage_designed(identity_stage(), bank.params, i, bank.sample_rate) by {
        if i < EQ_MAX_BANDS {
            assert(params.bands@[i] == bank.params.bands@[i]);
        }
    }
    assert forall|i: int| 0 <= i < STAGES && !(#[trigger] after.dirty[i]) implies after.live[i]
        == stage_on(after.params, i) by {
        assert(!bank.dirty[i] && !affected(id, i));
        assert(stage_on(params, i) == stage_on(bank.params, i));
    }
    assert forall|i: int| 0 <= i < STAGES implies {
        &&& (#[trigger] after.left[i]).z1 == S::of_spec(0)
        &&& after.left[i].z2 == S::of_spec(0)
        &&& after.right[i] == after.left[i]
        &&& !after.dirty[i] ==> after.left[i] == stage_designed(
            identity_stage(),
            after.params,
            i,
            after.sample_rate,
        )
    } by {
        assert(bank.right[i] == bank.left[i]);
        if !after.dirty[i] {
            assert(!bank.dirty[i] && !affected(id, i));
            assert(stage_on(params, i) == stage_on(bank.params, i));
        }
    }
}

/// Whatever parameters were taken, and however often the bank was resolved
/// between them, it lands where designing the whole of it from the last
/// controls does: the same stages, live and stored alike, to the bit.
pub proof fn any_history_lands_on_the_last_controls<S: Curves>(
    first: EqParams<S>,
    sample_rate: u32,
    history: Seq<Bank<S>>,
)
    requires
        history.len() > 0,
        history[0] == bank_resolved(bank_new(first, sample_rate)),
        forall|i: int|
            0 < i < history.len() ==> bank_went_on(history[i - 1], #[trigger] history[i]),
    ensures
        bank_resolved(history.last()) == bank_resolved(
            bank_new(history.last().params, sample_rate),
        ),
{
    lemma_history_is_unplayed(first, sample_rate, history, history.len() - 1);
    lemma_resolving_keeps_unplayed(history.last());
}

proof fn lemma_history_is_unplayed<S: Curves>(
    first: EqParams<S>,
    sample_rate: u32,
    history: Seq<Bank<S>>,
    at: int,
)
    requires
        0 <= at < history.len(),
        history[0] == bank_resolved(bank_new(first, sample_rate)),
        forall|i: int|
            0 < i < history.len() ==> bank_went_on(history[i - 1], #[trigger] history[i]),
    ensures
        bank_unplayed(history[at]),
        history[at].sample_rate == sample_rate,
    decreases at,
{
    if at == 0 {
        let made = bank_new(first, sample_rate);
        lemma_nothing_live(made.live, STAGES as int);
        assert(bank_unplayed(made));
        lemma_resolving_keeps_unplayed(made);
    } else {
        lemma_history_is_unplayed(first, sample_rate, history, at - 1);
        let before = history[at - 1];
        let after = history[at];
        assert(bank_went_on(before, after));
        if after == bank_resolved(before) {
            lemma_resolving_keeps_unplayed(before);
        } else {
            let (id, value) = choose|id: u32, value: S| #[trigger]
                params_with(before.params, id, value, after.params) && after == (Bank {
                    params: after.params,
                    ..bank_marked(before, id)
                });
            lemma_taking_keeps_unplayed(before, id, value, after.params);
        }
    }
}

proof fn lemma_silent_chain(stages: Seq<Biquad<Fixed>>, active: Seq<u8>, count: int)
    requires
        count <= active.len(),
        forall|i: int|
            0 <= i < count ==> (#[trigger] active[i]) < stages.len() && stage_resting(
                stages[active[i] as int],
                Fixed::of_spec(0),
            ),
    ensures
        chain_out(stages, active, Fixed::of_spec(0), count) == Fixed::of_spec(0),
        chain_after(stages, active, Fixed::of_spec(0), count) == stages,
    decreases count,
{
    if count > 0 {
        lemma_silent_chain(stages, active, count - 1);
        let stage = active[count - 1] as int;
        an_empty_stage_stays_silent(stages[stage]);
        assert(stages.update(stage, stages[stage]) =~= stages);
    }
}

/// An EQ that has nothing stored stays silent: a silent frame comes out silent,
/// and changes nothing.
pub proof fn a_resting_bank_stays_silent(bank: Bank<Fixed>)
    requires
        bank_formed(bank),
        forall|i: int|
            0 <= i < bank.active.len() ==> stage_resting(
                bank.left[(#[trigger] bank.active[i]) as int],
                Fixed::of_spec(0),
            ) && stage_resting(bank.right[bank.active[i] as int], Fixed::of_spec(0)),
    ensures
        bank_out(bank, Fixed::of_spec(0), Fixed::of_spec(0)) == (
            Fixed::of_spec(0),
            Fixed::of_spec(0),
        ),
        bank_next(bank, Fixed::of_spec(0), Fixed::of_spec(0)) == bank,
{
    lemma_live_stages(bank.live, STAGES as int);
    lemma_silent_chain(bank.left, bank.active, bank.active.len() as int);
    lemma_silent_chain(bank.right, bank.active, bank.active.len() as int);
}

/// Whether what a stage has stored is finite.
pub open spec fn stage_finite<S: Sample>(stage: Biquad<S>) -> bool {
    stage.z1.finite_spec() && stage.z2.finite_spec()
}

proof fn lemma_live_is_listed(live: Seq<bool>, count: int, stage: int) -> (place: int)
    requires
        0 <= stage < count <= live.len(),
        live.len() <= 255,
        live[stage],
    ensures
        0 <= place < live_stages(live, count).len(),
        live_stages(live, count)[place] == stage,
    decreases count,
{
    if stage == count - 1 {
        live_stages(live, count - 1).len() as int
    } else {
        lemma_live_is_listed(live, count - 1, stage)
    }
}

proof fn lemma_chain_finite<S: Sample>(
    stages: Seq<Biquad<S>>,
    active: Seq<u8>,
    input: S,
    count: int,
    place: int,
)
    requires
        S::of_spec(0).finite_spec(),
        0 <= place < count <= active.len(),
        forall|i: int| 0 <= i < active.len() ==> (#[trigger] active[i]) < stages.len(),
    ensures
        stage_finite(chain_after(stages, active, input, count)[active[place] as int]),
    decreases count,
{
    lemma_chain_len(stages, active, input, count - 1);
    if active[count - 1] != active[place] {
        lemma_chain_finite(stages, active, input, count - 1, place);
    }
}

/// Whatever a frame holds, every number the bank has stored after it is finite,
/// in any format whose silence is: what is not finite is gone from the bank
/// before the next sample comes.
pub proof fn a_frame_leaves_every_stage_finite<S: Sample>(bank: Bank<S>, l: S, r: S, stage: int)
    requires
        S::of_spec(0).finite_spec(),
        bank_formed(bank),
        0 <= stage < STAGES,
    ensures
        stage_finite(bank_next(bank, l, r).left[stage]),
        stage_finite(bank_next(bank, l, r).right[stage]),
{
    let count = bank.active.len() as int;
    lemma_live_stages(bank.live, STAGES as int);
    if bank.live[stage] {
        let place = lemma_live_is_listed(bank.live, STAGES as int, stage);
        lemma_chain_finite(bank.left, bank.active, l, count, place);
        lemma_chain_finite(bank.right, bank.active, r, count, place);
    } else {
        lemma_chain_keeps(bank.left, bank.active, l, count, stage);
        lemma_chain_keeps(bank.right, bank.active, r, count, stage);
    }
}

/// How far the first `count` stages at rest can bring what they make of silence:
/// each passes on its own gain of what it is given, and adds its threshold.
pub open spec fn rest_reach(
    stages: Seq<Biquad<Fixed>>,
    active: Seq<u8>,
    epsilon: Fixed,
    count: int,
) -> int
    decreases count,
{
    if count <= 0 {
        0
    } else {
        let gain = magnitude(stages[active[count - 1] as int].b0.raw as int);
        gain * rest_reach(stages, active, epsilon, count - 1) / (FRACTION as int) + 1 + epsilon.raw
    }
}

proof fn lemma_live_in_order(live: Seq<bool>, count: int)
    requires
        0 <= count <= live.len(),
        live.len() <= 255,
    ensures
        forall|i: int, j: int|
            0 <= i < j < live_stages(live, count).len() ==> (#[trigger] live_stages(live, count)[i])
                < (#[trigger] live_stages(live, count)[j]),
    decreases count,
{
    if count > 0 {
        lemma_live_in_order(live, count - 1);
        lemma_live_stages(live, count - 1);
    }
}

proof fn lemma_chain_untouched<S: Sample>(
    stages: Seq<Biquad<S>>,
    active: Seq<u8>,
    input: S,
    count: int,
    stage: int,
)
    requires
        0 <= count <= active.len(),
        0 <= stage < stages.len(),
        forall|i: int| 0 <= i < active.len() ==> (#[trigger] active[i]) < stages.len(),
        forall|i: int| 0 <= i < count ==> (#[trigger] active[i]) != stage,
    ensures
        chain_after(stages, active, input, count)[stage] == stages[stage],
        chain_after(stages, active, input, count).len() == stages.len(),
    decreases count,
{
    if count > 0 {
        lemma_chain_untouched(stages, active, input, count - 1, stage);
        assert(active[count - 1] != stage);
    }
}

proof fn lemma_resting_chain(
    stages: Seq<Biquad<Fixed>>,
    active: Seq<u8>,
    epsilon: Fixed,
    count: int,
)
    requires
        0 <= count <= active.len(),
        0 <= epsilon.raw,
        forall|i: int|
            0 <= i < active.len() ==> (#[trigger] active[i]) < stages.len() && stage_resting(
                stages[active[i] as int],
                epsilon,
            ),
        forall|i: int, j: int|
            0 <= i < j < active.len() ==> (#[trigger] active[i]) < (#[trigger] active[j]),
    ensures
        0 <= rest_reach(stages, active, epsilon, count),
        within(
            chain_out(stages, active, Fixed::of_spec(0), count),
            rest_reach(stages, active, epsilon, count),
        ),
    decreases count,
{
    if count > 0 {
        lemma_resting_chain(stages, active, epsilon, count - 1);
        let zero = Fixed::of_spec(0);
        let at = active[count - 1] as int;
        assert forall|i: int| 0 <= i < count - 1 implies (#[trigger] active[i]) != at by {
            assert(active[i] < active[count - 1]);
        }
        lemma_chain_untouched(stages, active, zero, count - 1, at);
        let stage = stages[at];
        let given = chain_out(stages, active, zero, count - 1);
        let reach = rest_reach(stages, active, epsilon, count - 1);
        let f = FRACTION as int;
        let gain = magnitude(stage.b0.raw as int);
        let most = gain * reach / f + 1;
        assert(gain * reach <= most * f && 0 <= gain * reach / f) by (nonlinear_arith)
            requires
                most == gain * reach / f + 1,
                0 <= gain,
                0 <= reach,
                f == 0x1_0000_0000,
        {
            assert(0 <= gain * reach);
        }
        products_stay_within(stage.b0, given, gain, reach, most);
    }
}

/// An EQ at rest is inaudible: what it makes of a silent frame lies within what
/// its stages' thresholds come to, each carried through the stages after it.
pub proof fn a_resting_bank_is_inaudible(bank: Bank<Fixed>, epsilon: Fixed)
    requires
        bank_formed(bank),
        0 <= epsilon.raw,
        forall|i: int|
            0 <= i < bank.active.len() ==> stage_resting(
                bank.left[(#[trigger] bank.active[i]) as int],
                epsilon,
            ) && stage_resting(bank.right[bank.active[i] as int], epsilon),
    ensures
        ({
            let count = bank.active.len() as int;
            let out = bank_out(bank, Fixed::of_spec(0), Fixed::of_spec(0));
            &&& within(out.0, rest_reach(bank.left, bank.active, epsilon, count))
            &&& within(out.1, rest_reach(bank.right, bank.active, epsilon, count))
        }),
{
    lemma_live_stages(bank.live, STAGES as int);
    lemma_live_in_order(bank.live, STAGES as int);
    lemma_resting_chain(bank.left, bank.active, epsilon, bank.active.len() as int);
    lemma_resting_chain(bank.right, bank.active, epsilon, bank.active.len() as int);
}

} // verus!
