//! The hall reverb's network: eight delay lines that feed back through a
//! normalized Hadamard matrix, each return diffused inside the loop.
//!
//! The network is stated one sample at a time: [`lines_after`] is the row of
//! lines after a sample of input, and [`taps_of`] what is heard of them.

use vstd::prelude::*;

use crate::filter::{leaked, OnePoleLp};
use crate::num::{
    a_gain_scales_a_bound, magnitude, ratio, ratio_of, within, Fixed, Sample, FRACTION,
};
use crate::ring::{
    diffused, diffuser_after, diffuser_at_rest, diffuser_glided, heard, remembered, Diffuser,
    DiffuserState, Ring,
};
use crate::smooth::glided;

verus! {

/// Delay lines in the network.
pub const LINES: usize = 8;

/// Diffusers between the input and the network.
pub const DIFFUSERS: usize = 4;

/// One delay line of the network, with its damping filter, feedback gain,
/// modulation phase, and the in-loop allpass its return is diffused through.
pub struct Line<S> {
    pub ring: Ring<S>,
    /// Nominal length in samples, before modulation. Glides toward
    /// `target_len` rather than jumping.
    pub len: S,
    /// Where `size` most recently asked this line to end up.
    pub target_len: S,
    /// Peak modulation excursion in samples.
    pub mod_depth: S,
    /// Phase increment per sample, in turns.
    pub mod_step: S,
    pub phase: S,
    pub damp: OnePoleLp<S>,
    pub feedback: S,
    /// The allpass the recirculating signal passes through before it is
    /// written back into the line. This is what makes the tail dense.
    pub loop_ap: Diffuser<S>,
}

/// What a line is, apart from where its samples lie.
pub struct LineState<S> {
    pub past: Seq<S>,
    pub len: S,
    pub target_len: S,
    pub mod_depth: S,
    pub mod_step: S,
    pub phase: S,
    pub damp: OnePoleLp<S>,
    pub feedback: S,
    pub loop_ap: DiffuserState<S>,
}

impl<S> View for Line<S> {
    type V = LineState<S>;

    open spec fn view(&self) -> LineState<S> {
        LineState {
            past: self.ring@,
            len: self.len,
            target_len: self.target_len,
            mod_depth: self.mod_depth,
            mod_step: self.mod_step,
            phase: self.phase,
            damp: self.damp,
            feedback: self.feedback,
            loop_ap: self.loop_ap@,
        }
    }
}

/// The gain of the in-loop allpasses: `0.6`. High enough that each lap adds
/// density, low enough that the stages smear rather than ring.
pub open spec fn loop_gain<S: Sample>() -> S {
    ratio_of(6, 10)
}

/// A phase one step on, kept inside one turn.
pub open spec fn phase_after<S: Sample>(phase: S, step: S) -> S {
    let next = phase.plus(step);
    if S::of_spec(1).at_most(next) {
        next.minus(S::of_spec(1))
    } else {
        next
    }
}

/// The modulator: a triangle between minus one and one.
pub open spec fn triangle<S: Sample>(phase: S) -> S {
    S::of_spec(4).times(phase.minus(ratio_of(1, 2)).abs_spec()).minus(S::of_spec(1))
}

/// A line whose modulator and length have moved one sample on. The line's
/// modulation is free-running: it moves whether or not anything is heard.
pub open spec fn line_moved<S: Sample>(line: LineState<S>, glide: S) -> LineState<S> {
    LineState {
        len: glided(line.len, line.target_len, glide),
        phase: phase_after(line.phase, line.mod_step),
        ..line
    }
}

/// A line that the host skipped a sample of.
pub open spec fn line_skipped<S: Sample>(line: LineState<S>, glide: S) -> LineState<S> {
    LineState {
        loop_ap: diffuser_glided(line.loop_ap, glide),
        ..line_moved(line, glide)
    }
}

/// What is heard of a line.
pub open spec fn line_tap<S: Sample>(line: LineState<S>, glide: S) -> S {
    let moved = line_moved(line, glide);
    heard(moved.past, moved.len.plus(triangle(moved.phase).times(moved.mod_depth)))
}

/// What a line returns to the matrix: its tap, damped and attenuated.
pub open spec fn line_return<S: Sample>(line: LineState<S>, glide: S) -> S {
    leaked(line.damp.state, line_tap(line, glide), line.damp.coeff).times(line.feedback)
}

/// A line after `injected` has passed its allpass and been written back.
pub open spec fn line_closed<S: Sample>(
    line: LineState<S>,
    injected: S,
    glide: S,
) -> LineState<S> {
    LineState {
        past: remembered(line.past, diffused(line.loop_ap, injected, loop_gain(), glide)),
        damp: OnePoleLp {
            state: leaked(line.damp.state, line_tap(line, glide), line.damp.coeff),
            coeff: line.damp.coeff,
        },
        loop_ap: diffuser_after(line.loop_ap, injected, loop_gain(), glide),
        ..line_moved(line, glide)
    }
}

/// Whether neither of a line's glides moves any more.
pub open spec fn line_at_rest<S: Sample>(line: LineState<S>, glide: S) -> bool {
    glided(line.len, line.target_len, glide) == line.len && diffuser_at_rest(line.loop_ap, glide)
}

impl<S: Sample> Line<S> {
    pub open spec fn well_formed(&self) -> bool {
        self.ring.well_formed() && self.loop_ap.well_formed()
    }

    /// Forget the stored audio and the damping state, but not `phase`: the
    /// modulation arrives at the same place across a seek exactly as it does
    /// across a sleep. The decay the line was set to stays.
    pub fn clear(&mut self)
        requires
            old(self).well_formed(),
        ensures
            final(self).well_formed(),
            final(self)@ == line_cleared(old(self)@),
    {
        self.ring.clear();
        self.damp.reset();
        self.loop_ap.clear();
    }

    /// Advance the modulation oscillator and the glides without reading, for
    /// a block the host skipped.
    pub fn step_silent(&mut self, glide: S)
        requires
            old(self).well_formed(),
        ensures
            final(self).well_formed(),
            final(self)@ == line_skipped(old(self)@, glide),
    {
        self.len = self.len.add(self.target_len.sub(self.len).mul(glide));
        self.turn();
        self.loop_ap.step_silent(glide);
    }

    /// Whether both of this line's glides, its length's and its loop
    /// allpass's, have stalled.
    pub fn at_rest(&self, glide: S) -> (answer: bool)
        ensures
            answer == line_at_rest(self@, glide),
    {
        self.len.add(self.target_len.sub(self.len).mul(glide)).same(self.len)
            && self.loop_ap.at_rest(glide)
    }

    /// Move the modulator one sample on.
    fn turn(&mut self)
        requires
            old(self).well_formed(),
        ensures
            final(self).well_formed(),
            final(self)@ == (LineState {
                phase: phase_after(old(self).phase, old(self).mod_step),
                ..old(self)@
            }),
    {
        let next = self.phase.add(self.mod_step);
        self.phase = if S::of(1).le(next) {
            next.sub(S::of(1))
        } else {
            next
        };
    }

    /// Move one sample on and read the line. A line at rest may be told so,
    /// and then skips its glide.
    fn read(&mut self, glide: S, gliding: bool) -> (tap: S)
        requires
            old(self).well_formed(),
            !gliding ==> line_at_rest(old(self)@, glide),
        ensures
            final(self).well_formed(),
            final(self)@ == line_moved(old(self)@, glide),
            tap == line_tap(old(self)@, glide),
    {
        if gliding {
            self.len = self.len.add(self.target_len.sub(self.len).mul(glide));
        }
        self.turn();
        let triangle = S::of(4).mul(self.phase.sub(ratio(1, 2)).abs()).sub(S::of(1));
        self.ring.read(self.len.add(triangle.mul(self.mod_depth)))
    }

    /// Pass a sample through the allpass and write it back.
    fn close(&mut self, injected: S, glide: S, gliding: bool)
        requires
            old(self).well_formed(),
            !gliding ==> diffuser_at_rest(old(self).loop_ap@, glide),
        ensures
            final(self).well_formed(),
            final(self)@ == (LineState {
                past: remembered(
                    old(self)@.past,
                    diffused(old(self)@.loop_ap, injected, loop_gain(), glide),
                ),
                loop_ap: diffuser_after(old(self)@.loop_ap, injected, loop_gain(), glide),
                ..old(self)@
            }),
    {
        let returned = if gliding {
            self.loop_ap.process(injected, ratio(6, 10), glide)
        } else {
            self.loop_ap.process_at_rest(injected, ratio(6, 10))
        };
        self.ring.write(returned);
    }
}

/// A line with its stored audio forgotten.
pub open spec fn line_cleared<S: Sample>(line: LineState<S>) -> LineState<S> {
    LineState {
        past: crate::ring::forgotten(line.past.len()),
        damp: OnePoleLp { state: S::of_spec(0), coeff: line.damp.coeff },
        loop_ap: DiffuserState {
            past: crate::ring::forgotten(line.loop_ap.past.len()),
            ..line.loop_ap
        },
        ..line
    }
}

/// Whether a value is the first of its pair, where the pairs are `span` apart
/// and `span` is one, two or four.
pub open spec fn leads(i: int, span: int) -> bool {
    if span == 1 {
        i % 2 == 0
    } else if span == 2 {
        i % 4 < 2
    } else {
        i % 8 < 4
    }
}

/// Sums and differences of the values `span` apart.
pub open spec fn butterflies<S: Sample>(values: Seq<S>, span: int) -> Seq<S> {
    Seq::new(
        values.len(),
        |i: int|
            if leads(i, span) {
                values[i].plus(values[i + span])
            } else {
                values[i - span].minus(values[i])
            },
    )
}

/// `1 / sqrt(8)`, as a fraction of `2^25`: three stages of butterflies each
/// grew the norm by `sqrt(2)`.
pub open spec fn hadamard_norm<S: Sample>() -> S {
    ratio_of(11_863_284, 33_554_432)
}

/// The network's mixing matrix: the normalized Walsh-Hadamard transform. It is
/// dense, so one trip through it spreads every line's output across all eight.
pub open spec fn mixed_through<S: Sample>(values: Seq<S>) -> Seq<S> {
    let spread = butterflies(butterflies(butterflies(values, 1), 2), 4);
    Seq::new(values.len(), |i: int| spread[i].times(hadamard_norm()))
}

/// In-place normalized fast Walsh-Hadamard transform. Twenty-four additions
/// and subtractions and eight multiplications.
pub fn hadamard<S: Sample>(values: &mut [S; LINES])
    ensures
        final(values)@ == mixed_through(old(values)@),
{
    let ghost before = values@;
    butterfly(values, 1);
    butterfly(values, 2);
    butterfly(values, 4);
    let ghost spread = values@;
    let norm = ratio::<S>(11_863_284, 33_554_432);
    let mut at: usize = 0;
    while at < LINES
        invariant
            at <= LINES,
            spread.len() == LINES,
            norm == hadamard_norm::<S>(),
            forall|i: int| 0 <= i < at ==> values[i] == spread[i].times(norm),
            forall|i: int| at <= i < LINES ==> values[i] == spread[i],
        decreases LINES - at,
    {
        values[at] = values[at].mul(norm);
        at = at + 1;
    }
    assert(values@ =~= mixed_through(before));
}

/// One stage of the transform.
fn butterfly<S: Sample>(values: &mut [S; LINES], span: usize)
    requires
        span == 1 || span == 2 || span == 4,
    ensures
        final(values)@ == butterflies(old(values)@, span as int),
{
    let ghost before = values@;
    let mut base: usize = 0;
    while base < LINES
        invariant
            span == 1 || span == 2 || span == 4,
            base <= LINES,
            span == 1 ==> base % 2 == 0,
            span == 2 ==> base % 4 == 0,
            span == 4 ==> base % 8 == 0,
            before.len() == LINES,
            forall|i: int| 0 <= i < base ==> values[i] == butterflies(before, span as int)[i],
            forall|i: int| base <= i < LINES ==> values[i] == before[i],
        decreases LINES - base,
    {
        let mut offset: usize = base;
        while offset < base + span
            invariant
                span == 1 || span == 2 || span == 4,
                base <= offset <= base + span,
                base < LINES,
                span == 1 ==> base % 2 == 0,
                span == 2 ==> base % 4 == 0,
                span == 4 ==> base % 8 == 0,
                before.len() == LINES,
                forall|i: int|
                    0 <= i < base ==> values[i] == butterflies(before, span as int)[i],
                forall|i: int|
                    base <= i < offset ==> values[i] == before[i].plus(before[i + span]),
                forall|i: int|
                    base + span <= i < offset + span ==> values[i] == before[i - span].minus(
                        before[i],
                    ),
                forall|i: int| offset <= i < base + span ==> values[i] == before[i],
                forall|i: int| offset + span <= i < LINES ==> values[i] == before[i],
            decreases base + span - offset,
        {
            let a = values[offset];
            let b = values[offset + span];
            values[offset] = a.add(b);
            values[offset + span] = a.sub(b);
            offset = offset + 1;
        }
        base = base + span * 2;
    }
    assert(values@ =~= butterflies(before, span as int));
}

/// Signs of the left output tap: a row of the matrix.
pub open spec fn left_sign(line: int) -> bool {
    line == 0 || line == 1 || line == 4 || line == 5
}

/// Signs of the right output tap: a row orthogonal to the left's, so the two
/// channels are decorrelated rather than panned.
pub open spec fn right_sign(line: int) -> bool {
    line == 0 || line == 2 || line == 5 || line == 7
}

/// Signs the input is injected with: a third orthogonal row.
pub open spec fn inject_sign(line: int) -> bool {
    line < 4
}

/// One, or minus one.
pub open spec fn sign_of<S: Sample>(positive: bool) -> S {
    if positive {
        S::of_spec(1)
    } else {
        S::of_spec(1).negated()
    }
}

fn sign<S: Sample>(positive: bool) -> (value: S)
    ensures
        value == sign_of::<S>(positive),
{
    if positive {
        S::of(1)
    } else {
        S::of(1).neg()
    }
}

/// What is heard of every line.
pub open spec fn taps_of<S: Sample>(lines: Seq<LineState<S>>, glide: S) -> Seq<S> {
    lines.map_values(|line: LineState<S>| line_tap(line, glide))
}

/// What every line returns to the matrix.
pub open spec fn returns_of<S: Sample>(lines: Seq<LineState<S>>, glide: S) -> Seq<S> {
    lines.map_values(|line: LineState<S>| line_return(line, glide))
}

/// The sum of the first `count` taps, each with its sign.
pub open spec fn signed_sum<S: Sample>(taps: Seq<S>, left: bool, count: int) -> S
    decreases count,
{
    if count <= 0 {
        S::of_spec(0)
    } else {
        let line = count - 1;
        let positive = if left {
            left_sign(line)
        } else {
            right_sign(line)
        };
        signed_sum(taps, left, line).plus(taps[line].times(sign_of(positive)))
    }
}

/// What is written back into a line: its share of the matrix and the input.
pub open spec fn injected<S: Sample>(
    lines: Seq<LineState<S>>,
    input: S,
    glide: S,
    line: int,
) -> S {
    mixed_through(returns_of(lines, glide))[line].plus(input.times(sign_of(inject_sign(line))))
}

/// The lines after one sample of input.
pub open spec fn lines_after<S: Sample>(
    lines: Seq<LineState<S>>,
    input: S,
    glide: S,
) -> Seq<LineState<S>> {
    Seq::new(
        lines.len(),
        |line: int| line_closed(lines[line], injected(lines, input, glide, line), glide),
    )
}

/// The states of a row of lines.
pub open spec fn line_states<S>(lines: Seq<Line<S>>) -> Seq<LineState<S>> {
    lines.map_values(|line: Line<S>| line@)
}

/// The states of a row of diffusers.
pub open spec fn diffuser_states<S>(diffusers: Seq<Diffuser<S>>) -> Seq<DiffuserState<S>> {
    diffusers.map_values(|diffuser: Diffuser<S>| diffuser@)
}

/// Eight lines, each in order.
pub open spec fn lines_formed<S: Sample>(lines: Seq<Line<S>>) -> bool {
    lines.len() == LINES && forall|i: int|
        0 <= i < LINES ==> (#[trigger] lines[i]).well_formed()
}

/// Run the network one sample: read it, tap the output, then close the loop.
/// Tapping the delayed line contents means the output carries the tail as it
/// currently stands rather than one bounce ahead.
pub fn network_step<S: Sample>(
    lines: &mut Vec<Line<S>>,
    input: S,
    glide: S,
    gliding: bool,
) -> (wet: (S, S))
    requires
        lines_formed(old(lines)@),
        !gliding ==> forall|i: int|
            0 <= i < LINES ==> line_at_rest((#[trigger] old(lines)[i])@, glide),
    ensures
        lines_formed(final(lines)@),
        line_states(final(lines)@) == lines_after(line_states(old(lines)@), input, glide),
        wet.0 == signed_sum(taps_of(line_states(old(lines)@), glide), true, LINES as int),
        wet.1 == signed_sum(taps_of(line_states(old(lines)@), glide), false, LINES as int),
{
    let ghost before = line_states(lines@);
    let ghost taps = taps_of(before, glide);
    let ghost returned_row = returns_of(before, glide);
    let mut wet_l = S::of(0);
    let mut wet_r = S::of(0);
    let mut feedback = [S::of(0); LINES];
    let mut j: usize = 0;
    while j < LINES
        invariant
            j <= LINES,
            lines_formed(lines@),
            before.len() == LINES,
            taps == taps_of(before, glide),
            returned_row == returns_of(before, glide),
            !gliding ==> forall|i: int|
                0 <= i < LINES ==> line_at_rest(#[trigger] before[i], glide),
            wet_l == signed_sum(taps, true, j as int),
            wet_r == signed_sum(taps, false, j as int),
            forall|i: int| 0 <= i < j ==> feedback[i] == returned_row[i],
            forall|i: int|
                0 <= i < j ==> (#[trigger] lines[i])@ == (LineState {
                    damp: OnePoleLp {
                        state: leaked(before[i].damp.state, taps[i], before[i].damp.coeff),
                        coeff: before[i].damp.coeff,
                    },
                    ..line_moved(before[i], glide)
                }),
            forall|i: int| j <= i < LINES ==> (#[trigger] lines[i])@ == before[i],
        decreases LINES - j,
    {
        let line = &mut lines[j];
        let tap = line.read(glide, gliding);
        let returned = line.damp.next_sample(tap).mul(line.feedback);
        feedback[j] = returned;
        wet_l = wet_l.add(tap.mul(sign(j == 0 || j == 1 || j == 4 || j == 5)));
        wet_r = wet_r.add(tap.mul(sign(j == 0 || j == 2 || j == 5 || j == 7)));
        j = j + 1;
    }
    assert(feedback@ =~= returned_row);
    hadamard(&mut feedback);
    j = 0;
    while j < LINES
        invariant
            j <= LINES,
            lines_formed(lines@),
            before.len() == LINES,
            taps == taps_of(before, glide),
            feedback@ == mixed_through(returns_of(before, glide)),
            !gliding ==> forall|i: int|
                0 <= i < LINES ==> line_at_rest(#[trigger] before[i], glide),
            forall|i: int|
                0 <= i < j ==> (#[trigger] lines[i])@ == lines_after(before, input, glide)[i],
            forall|i: int|
                j <= i < LINES ==> (#[trigger] lines[i])@ == (LineState {
                    damp: OnePoleLp {
                        state: leaked(before[i].damp.state, taps[i], before[i].damp.coeff),
                        coeff: before[i].damp.coeff,
                    },
                    ..line_moved(before[i], glide)
                }),
        decreases LINES - j,
    {
        let share = feedback[j].add(input.mul(sign(j < 4)));
        let line = &mut lines[j];
        line.close(share, glide, gliding);
        j = j + 1;
    }
    assert(line_states(lines@) =~= lines_after(before, input, glide));
    (wet_l, wet_r)
}

/// The square of a number, in the square of its unit.
pub open spec fn square(x: Fixed) -> int {
    x.raw * x.raw
}

/// The energy of the eight lines.
pub open spec fn energy(values: Seq<Fixed>) -> int {
    square(values[0]) + square(values[1]) + square(values[2]) + square(values[3]) + square(
        values[4],
    ) + square(values[5]) + square(values[6]) + square(values[7])
}

/// Whether every line stays within a bound.
pub open spec fn all_within(values: Seq<Fixed>, bound: int) -> bool {
    forall|i: int| 0 <= i < values.len() ==> within(#[trigger] values[i], bound)
}

proof fn lemma_pair_energy(a: Fixed, b: Fixed, bound: int)
    requires
        within(a, bound),
        within(b, bound),
        bound <= 0x2000_0000_0000_0000,
    ensures
        within(a.plus(b), 2 * bound),
        within(a.minus(b), 2 * bound),
        square(a.plus(b)) + square(a.minus(b)) == 2 * (square(a) + square(b)),
{
    let x = a.raw as int;
    let y = b.raw as int;
    assert(a.plus(b).raw == x + y);
    assert(a.minus(b).raw == x - y);
    assert((x + y) * (x + y) + (x - y) * (x - y) == 2 * (x * x + y * y)) by (nonlinear_arith);
}

proof fn lemma_butterflies_energy(values: Seq<Fixed>, span: int, bound: int)
    requires
        values.len() == LINES,
        span == 1 || span == 2 || span == 4,
        all_within(values, bound),
        bound <= 0x2000_0000_0000_0000,
    ensures
        butterflies(values, span).len() == LINES,
        all_within(butterflies(values, span), 2 * bound),
        energy(butterflies(values, span)) == 2 * energy(values),
{
    let after = butterflies(values, span);
    assert forall|i: int| 0 <= i < LINES implies within(#[trigger] after[i], 2 * bound) by {
        if leads(i, span) {
            assert(within(values[i], bound) && within(values[i + span], bound));
            lemma_pair_energy(values[i], values[i + span], bound);
        } else {
            assert(within(values[i - span], bound) && within(values[i], bound));
            lemma_pair_energy(values[i - span], values[i], bound);
        }
    }
    if span == 1 {
        lemma_pair_energy(values[0], values[1], bound);
        lemma_pair_energy(values[2], values[3], bound);
        lemma_pair_energy(values[4], values[5], bound);
        lemma_pair_energy(values[6], values[7], bound);
    } else if span == 2 {
        lemma_pair_energy(values[0], values[2], bound);
        lemma_pair_energy(values[1], values[3], bound);
        lemma_pair_energy(values[4], values[6], bound);
        lemma_pair_energy(values[5], values[7], bound);
    } else {
        lemma_pair_energy(values[0], values[4], bound);
        lemma_pair_energy(values[1], values[5], bound);
        lemma_pair_energy(values[2], values[6], bound);
        lemma_pair_energy(values[3], values[7], bound);
    }
}

/// A product with the norm is no larger than the norm makes it.
proof fn lemma_normalized_square(value: Fixed)
    ensures
        square(value.times(hadamard_norm())) * (FRACTION * FRACTION) <= square(value) * (
        1_518_500_352 * 1_518_500_352),
{
    let f = FRACTION as int;
    let norm: int = 1_518_500_352;
    let x = magnitude(value.raw as int);
    let out = value.times(hadamard_norm());
    assert(hadamard_norm::<Fixed>().raw == norm) by {
        assert((11_863_284 * f) * f == 218838963821733344333266944) by (nonlinear_arith)
            requires
                f == 0x1_0000_0000,
        ;
        assert(218838963821733344333266944int / 144115188075855872 == norm);
    }
    let scaled = x * norm / f;
    assert(scaled * f <= x * norm && 0 <= scaled <= x) by (nonlinear_arith)
        requires
            scaled == x * norm / f,
            f == 0x1_0000_0000,
            norm == 1_518_500_352,
            0 <= x,
    ;
    assert(magnitude(value.raw * norm) == x * norm) by (nonlinear_arith)
        requires
            x == magnitude(value.raw as int),
            norm == 1_518_500_352,
    ;
    assert(magnitude(out.raw as int) <= scaled);
    let y = magnitude(out.raw as int);
    assert(square(out) == y * y) by (nonlinear_arith)
        requires
            y == magnitude(out.raw as int),
            square(out) == out.raw * out.raw,
    ;
    assert(square(value) == x * x) by (nonlinear_arith)
        requires
            x == magnitude(value.raw as int),
            square(value) == value.raw * value.raw,
    ;
    assert(y * f <= x * norm) by (nonlinear_arith)
        requires
            y <= scaled,
            scaled * f <= x * norm,
            f == 0x1_0000_0000,
    ;
    assert((y * y) * (f * f) <= (x * x) * (norm * norm)) by (nonlinear_arith)
        requires
            0 <= y * f <= x * norm,
    ;
}

/// The matrix spreads the lines' energy and adds none: the sums and differences
/// hold eight times what went in, exactly, and what the norm leaves of that
/// exceeds it by less than one part in seven million.
pub proof fn the_matrix_keeps_the_energy(values: Seq<Fixed>)
    requires
        values.len() == LINES,
        all_within(values, 0x400_0000_0000_0000),
    ensures
        energy(butterflies(butterflies(butterflies(values, 1), 2), 4)) == 8 * energy(values),
        7_000_000 * energy(mixed_through(values)) <= 7_000_001 * energy(values),
{
    let once = butterflies(values, 1);
    let twice = butterflies(once, 2);
    let spread = butterflies(twice, 4);
    lemma_butterflies_energy(values, 1, 0x400_0000_0000_0000);
    lemma_butterflies_energy(once, 2, 0x800_0000_0000_0000);
    lemma_butterflies_energy(twice, 4, 0x1000_0000_0000_0000);
    let out = mixed_through(values);
    assert(spread.len() == LINES);
    lemma_normalized_square(spread[0]);
    lemma_normalized_square(spread[1]);
    lemma_normalized_square(spread[2]);
    lemma_normalized_square(spread[3]);
    lemma_normalized_square(spread[4]);
    lemma_normalized_square(spread[5]);
    lemma_normalized_square(spread[6]);
    lemma_normalized_square(spread[7]);
    let e = energy(values);
    let f: int = 0x1_0000_0000_0000_0000;
    let n: int = 1_518_500_352int * 1_518_500_352int;
    assert(FRACTION * FRACTION == f);
    assert(energy(out) * f <= 8 * e * n);
    assert(0 <= e) by {
        assert forall|x: Fixed| 0 <= #[trigger] square(x) by {
            assert(0 <= x.raw * x.raw) by (nonlinear_arith);
        }
    }
    assert(7_000_000 * (8 * e * n) <= 7_000_001 * (e * f)) by (nonlinear_arith)
        requires
            0 <= e,
            7_000_000 * 8 * n <= 7_000_001 * f,
    ;
    assert(7_000_000 * energy(out) <= 7_000_001 * e) by (nonlinear_arith)
        requires
            energy(out) * f <= 8 * e * n,
            7_000_000 * (8 * e * n) <= 7_000_001 * (e * f),
            f == 0x1_0000_0000_0000_0000,
    ;
}

/// A product with the norm is what the norm makes it, less a part of a unit.
proof fn lemma_normalized(value: Fixed) -> (rest: int)
    requires
        within(value, 0x2000_0000_0000_0000),
    ensures
        value.times(hadamard_norm()).raw * 4_294_967_296 == value.raw * 1_518_500_352 - rest,
        -4_294_967_296 < rest < 4_294_967_296,
        magnitude(value.times(hadamard_norm()).raw as int) * 4_294_967_296 + 4_294_967_296
            >= magnitude(value.raw as int) * 1_518_500_352,
        within(value.times(hadamard_norm()), 0x1000_0000_0000_0000),
{
    let f = FRACTION as int;
    let norm: int = 1_518_500_352;
    let x = magnitude(value.raw as int);
    assert(hadamard_norm::<Fixed>().raw == norm) by {
        assert((11_863_284 * f) * f == 218838963821733344333266944) by (nonlinear_arith)
            requires
                f == 0x1_0000_0000,
        ;
        assert(218838963821733344333266944int / 144115188075855872 == norm);
    }
    let part = (x * 1_518_500_352) / 4_294_967_296;
    if value.raw >= 0 {
        assert(value.times(hadamard_norm()).raw == part);
    } else {
        assert(magnitude(value.raw * norm) == x * 1_518_500_352);
        assert(value.times(hadamard_norm()).raw == -part);
    }
    value.raw * 1_518_500_352 - value.times(hadamard_norm()).raw * 4_294_967_296
}

/// A number for each line.
pub struct Octet {
    pub a: int,
    pub b: int,
    pub c: int,
    pub d: int,
    pub e: int,
    pub f: int,
    pub g: int,
    pub h: int,
}

/// The lines' numbers, in units.
pub open spec fn units(values: Seq<Fixed>) -> Octet {
    Octet {
        a: values[0].raw as int,
        b: values[1].raw as int,
        c: values[2].raw as int,
        d: values[3].raw as int,
        e: values[4].raw as int,
        f: values[5].raw as int,
        g: values[6].raw as int,
        h: values[7].raw as int,
    }
}

/// The sums and differences of eight numbers: the rows of the matrix.
#[verifier::opaque]
pub open spec fn rows(v: Octet) -> Octet {
    Octet {
        a: v.a + v.b + v.c + v.d + v.e + v.f + v.g + v.h,
        b: v.a - v.b + v.c - v.d + v.e - v.f + v.g - v.h,
        c: v.a + v.b - v.c - v.d + v.e + v.f - v.g - v.h,
        d: v.a - v.b - v.c + v.d + v.e - v.f - v.g + v.h,
        e: v.a + v.b + v.c + v.d - v.e - v.f - v.g - v.h,
        f: v.a - v.b + v.c - v.d - v.e + v.f - v.g + v.h,
        g: v.a + v.b - v.c - v.d - v.e - v.f + v.g + v.h,
        h: v.a - v.b - v.c + v.d - v.e + v.f + v.g - v.h,
    }
}

/// The number of one line.
#[verifier::opaque]
spec fn of_line(v: Octet, line: int) -> int {
    if line == 0 {
        v.a
    } else if line == 1 {
        v.b
    } else if line == 2 {
        v.c
    } else if line == 3 {
        v.d
    } else if line == 4 {
        v.e
    } else if line == 5 {
        v.f
    } else if line == 6 {
        v.g
    } else {
        v.h
    }
}

proof fn lemma_line_of(values: Seq<Fixed>, line: int)
    requires
        0 <= line < LINES,
    ensures
        of_line(units(values), line) == values[line].raw,
{
    reveal(of_line);
}

/// Sums and differences of the numbers one, two or four lines apart.
spec fn paired(v: Octet, span: int) -> Octet {
    if span == 1 {
        Octet {
            a: v.a + v.b,
            b: v.a - v.b,
            c: v.c + v.d,
            d: v.c - v.d,
            e: v.e + v.f,
            f: v.e - v.f,
            g: v.g + v.h,
            h: v.g - v.h,
        }
    } else if span == 2 {
        Octet {
            a: v.a + v.c,
            b: v.b + v.d,
            c: v.a - v.c,
            d: v.b - v.d,
            e: v.e + v.g,
            f: v.f + v.h,
            g: v.e - v.g,
            h: v.f - v.h,
        }
    } else {
        Octet {
            a: v.a + v.e,
            b: v.b + v.f,
            c: v.c + v.g,
            d: v.d + v.h,
            e: v.a - v.e,
            f: v.b - v.f,
            g: v.c - v.g,
            h: v.d - v.h,
        }
    }
}

proof fn lemma_pairs_are_rows(v: Octet)
    ensures
        paired(paired(paired(v, 1), 2), 4) == rows(v),
{
    reveal(rows);
}

proof fn lemma_butterflies_are_pairs(values: Seq<Fixed>, span: int)
    requires
        values.len() == LINES,
        span == 1 || span == 2 || span == 4,
        all_within(values, 0x2000_0000_0000_0000),
    ensures
        units(butterflies(values, span)) == paired(units(values), span),
{
    let after = butterflies(values, span);
    assert forall|i: int| 0 <= i < LINES implies #[trigger] after[i].raw == (if leads(i, span) {
        values[i].raw + values[i + span].raw
    } else {
        values[i - span].raw - values[i].raw
    }) by {
        if leads(i, span) {
            assert(within(values[i], 0x2000_0000_0000_0000));
            assert(within(values[i + span], 0x2000_0000_0000_0000));
        } else {
            assert(within(values[i - span], 0x2000_0000_0000_0000));
            assert(within(values[i], 0x2000_0000_0000_0000));
        }
    }
}

proof fn lemma_within_more(values: Seq<Fixed>, bound: int, more: int)
    requires
        all_within(values, bound),
        bound <= more,
    ensures
        all_within(values, more),
{
    assert forall|i: int| 0 <= i < values.len() implies within(#[trigger] values[i], more) by {
        assert(within(values[i], bound));
    }
}

/// What the sums and differences come to: the rows of the matrix.
proof fn lemma_spread(values: Seq<Fixed>, bound: int)
    requires
        values.len() == LINES,
        all_within(values, bound),
        0 <= bound <= 0x400_0000_0000_0000,
    ensures
        ({
            let spread = butterflies(butterflies(butterflies(values, 1), 2), 4);
            &&& spread.len() == LINES
            &&& all_within(spread, 8 * bound)
            &&& units(spread) == rows(units(values))
        }),
{
    let once = butterflies(values, 1);
    let twice = butterflies(once, 2);
    lemma_butterflies_energy(values, 1, bound);
    lemma_butterflies_energy(once, 2, 2 * bound);
    lemma_butterflies_energy(twice, 4, 4 * bound);
    lemma_within_more(values, bound, 0x2000_0000_0000_0000);
    lemma_within_more(once, 2 * bound, 0x2000_0000_0000_0000);
    lemma_within_more(twice, 4 * bound, 0x2000_0000_0000_0000);
    lemma_butterflies_are_pairs(values, 1);
    lemma_butterflies_are_pairs(once, 2);
    lemma_butterflies_are_pairs(twice, 4);
    lemma_pairs_are_rows(units(values));
}

/// Whether numbers are others through the norm, less some rest.
#[verifier::opaque]
spec fn normed(out: Octet, spread: Octet, rest: Octet) -> bool {
    &&& 4_294_967_296 * out.a == 1_518_500_352 * spread.a - rest.a
    &&& 4_294_967_296 * out.b == 1_518_500_352 * spread.b - rest.b
    &&& 4_294_967_296 * out.c == 1_518_500_352 * spread.c - rest.c
    &&& 4_294_967_296 * out.d == 1_518_500_352 * spread.d - rest.d
    &&& 4_294_967_296 * out.e == 1_518_500_352 * spread.e - rest.e
    &&& 4_294_967_296 * out.f == 1_518_500_352 * spread.f - rest.f
    &&& 4_294_967_296 * out.g == 1_518_500_352 * spread.g - rest.g
    &&& 4_294_967_296 * out.h == 1_518_500_352 * spread.h - rest.h
}

proof fn lemma_rows_undo(v: Octet, out: Octet, rest: Octet, line: int)
    requires
        normed(out, rows(v), rest),
        0 <= line < LINES,
    ensures
        4_294_967_296 * of_line(rows(out), line) == 12_148_002_816 * of_line(v, line) - of_line(
            rows(rest),
            line,
        ),
{
    reveal(normed);
    reveal(of_line);
    let spread = rows(v);
    assert(of_line(rows(spread), line) == 8 * of_line(v, line)) by {
        reveal(rows);
    }
    assert(4_294_967_296 * of_line(rows(out), line) == 1_518_500_352 * of_line(rows(spread), line)
        - of_line(rows(rest), line)) by {
        reveal(rows);
    }
}

/// Whether every number is less than a whole one of the norm's.
#[verifier::opaque]
spec fn parts(v: Octet) -> bool {
    &&& -4_294_967_296 < v.a < 4_294_967_296
    &&& -4_294_967_296 < v.b < 4_294_967_296
    &&& -4_294_967_296 < v.c < 4_294_967_296
    &&& -4_294_967_296 < v.d < 4_294_967_296
    &&& -4_294_967_296 < v.e < 4_294_967_296
    &&& -4_294_967_296 < v.f < 4_294_967_296
    &&& -4_294_967_296 < v.g < 4_294_967_296
    &&& -4_294_967_296 < v.h < 4_294_967_296
}

proof fn lemma_rows_of_parts(v: Octet, line: int)
    requires
        parts(v),
        0 <= line < LINES,
    ensures
        -34_359_738_368 <= of_line(rows(v), line) <= 34_359_738_368,
{
    reveal(rows);
    reveal(parts);
    reveal(of_line);
}

/// Twice through the norm: what eight times a value, less some units, comes to.
proof fn lemma_back_through(value: int, spread: int, out: int, rest: int, last: int)
    requires
        4_294_967_296 * spread == 12_148_002_816 * value - rest,
        -34_359_738_368 <= rest <= 34_359_738_368,
        4_294_967_296 * out == 1_518_500_352 * spread - last,
        -4_294_967_296 <= last <= 4_294_967_296,
    ensures
        7_000_000 * magnitude(out - value) <= magnitude(value) + 28_000_000,
{
}

/// The matrix is its own inverse: two trips through it give every line back,
/// but for less than one part in seven million and four units.
pub proof fn the_matrix_undoes_itself(values: Seq<Fixed>, line: int)
    requires
        values.len() == LINES,
        all_within(values, 0x100_0000_0000_0000),
        0 <= line < LINES,
    ensures
        7_000_000 * magnitude(mixed_through(mixed_through(values))[line].raw - values[line].raw)
            <= magnitude(values[line].raw as int) + 28_000_000,
{
    let out = mixed_through(values);
    let again = butterflies(butterflies(butterflies(out, 1), 2), 4);
    let rest = lemma_first_trip(values);
    lemma_spread(out, 0x400_0000_0000_0000);
    lemma_rows_undo(units(values), units(out), rest, line);
    lemma_rows_of_parts(rest, line);
    assert(within(again[line], 0x2000_0000_0000_0000));
    let last = lemma_normalized(again[line]);
    lemma_line_of(values, line);
    lemma_line_of(again, line);
    lemma_back_through(
        values[line].raw as int,
        again[line].raw as int,
        mixed_through(out)[line].raw as int,
        of_line(rows(rest), line),
        last,
    );
}

/// One trip, and what rounding took from each line.
proof fn lemma_first_trip(values: Seq<Fixed>) -> (rest: Octet)
    requires
        values.len() == LINES,
        all_within(values, 0x100_0000_0000_0000),
    ensures
        mixed_through(values).len() == LINES,
        normed(units(mixed_through(values)), rows(units(values)), rest),
        parts(rest),
        all_within(mixed_through(values), 0x400_0000_0000_0000),
{
    let spread = butterflies(butterflies(butterflies(values, 1), 2), 4);
    let out = mixed_through(values);
    lemma_spread(values, 0x100_0000_0000_0000);
    assert forall|i: int| 0 <= i < LINES implies within(
        #[trigger] out[i],
        0x400_0000_0000_0000,
    ) by {
        assert(within(spread[i], 0x800_0000_0000_0000));
        let rest = lemma_normalized(spread[i]);
    }
    reveal(normed);
    reveal(parts);
    lemma_within_more(spread, 0x800_0000_0000_0000, 0x2000_0000_0000_0000);
    assert(within(spread[0], 0x2000_0000_0000_0000) && within(spread[1], 0x2000_0000_0000_0000));
    assert(within(spread[2], 0x2000_0000_0000_0000) && within(spread[3], 0x2000_0000_0000_0000));
    assert(within(spread[4], 0x2000_0000_0000_0000) && within(spread[5], 0x2000_0000_0000_0000));
    assert(within(spread[6], 0x2000_0000_0000_0000) && within(spread[7], 0x2000_0000_0000_0000));
    Octet {
        a: lemma_normalized(spread[0]),
        b: lemma_normalized(spread[1]),
        c: lemma_normalized(spread[2]),
        d: lemma_normalized(spread[3]),
        e: lemma_normalized(spread[4]),
        f: lemma_normalized(spread[5]),
        g: lemma_normalized(spread[6]),
        h: lemma_normalized(spread[7]),
    }
}

/// The sum of the lines' magnitudes.
pub open spec fn size(values: Seq<Fixed>) -> int {
    magnitude(values[0].raw as int) + magnitude(values[1].raw as int) + magnitude(
        values[2].raw as int,
    ) + magnitude(values[3].raw as int) + magnitude(values[4].raw as int) + magnitude(
        values[5].raw as int,
    ) + magnitude(values[6].raw as int) + magnitude(values[7].raw as int)
}

proof fn lemma_little_is_lost(value: Fixed)
    requires
        within(value, 0x2000_0000_0000_0000),
    ensures
        ({
            let out = value.times(hadamard_norm());
            (square(out) + 2 * magnitude(out.raw as int) + 1) * 0x1_0000_0000_0000_0000
                >= square(value) * (1_518_500_352 * 1_518_500_352)
        }),
{
    let rest = lemma_normalized(value);
    let out = value.times(hadamard_norm());
    let x = magnitude(value.raw as int);
    let y = magnitude(out.raw as int);
    assert(square(out) == y * y) by (nonlinear_arith)
        requires
            y == magnitude(out.raw as int),
            square(out) == out.raw * out.raw,
    ;
    assert(square(value) == x * x) by (nonlinear_arith)
        requires
            x == magnitude(value.raw as int),
            square(value) == value.raw * value.raw,
    ;
    let a = (y + 1) * 4_294_967_296;
    let b = x * 1_518_500_352;
    assert(a * a >= b * b) by (nonlinear_arith)
        requires
            a >= b,
            b >= 0,
    ;
    assert(a * a == (y * y + 2 * y + 1) * 0x1_0000_0000_0000_0000) by (nonlinear_arith)
        requires
            a == (y + 1) * 4_294_967_296,
    ;
    assert(b * b == (x * x) * (1_518_500_352 * 1_518_500_352)) by (nonlinear_arith)
        requires
            b == x * 1_518_500_352,
    ;
}

/// The matrix removes no energy either, beyond what rounding each line to a
/// unit does.
pub proof fn the_matrix_removes_no_energy(values: Seq<Fixed>)
    requires
        values.len() == LINES,
        all_within(values, 0x400_0000_0000_0000),
    ensures
        energy(values) <= energy(mixed_through(values)) + 2 * size(mixed_through(values)) + 8,
{
    let spread = butterflies(butterflies(butterflies(values, 1), 2), 4);
    let out = mixed_through(values);
    lemma_spread(values, 0x400_0000_0000_0000);
    the_matrix_keeps_the_energy(values);
    assert(within(spread[0], 0x2000_0000_0000_0000) && within(spread[1], 0x2000_0000_0000_0000));
    assert(within(spread[2], 0x2000_0000_0000_0000) && within(spread[3], 0x2000_0000_0000_0000));
    assert(within(spread[4], 0x2000_0000_0000_0000) && within(spread[5], 0x2000_0000_0000_0000));
    assert(within(spread[6], 0x2000_0000_0000_0000) && within(spread[7], 0x2000_0000_0000_0000));
    lemma_little_is_lost(spread[0]);
    lemma_little_is_lost(spread[1]);
    lemma_little_is_lost(spread[2]);
    lemma_little_is_lost(spread[3]);
    lemma_little_is_lost(spread[4]);
    lemma_little_is_lost(spread[5]);
    lemma_little_is_lost(spread[6]);
    lemma_little_is_lost(spread[7]);
    let e = energy(values);
    let n: int = 1_518_500_352int * 1_518_500_352int;
    assert((energy(out) + 2 * size(out) + 8) * 0x1_0000_0000_0000_0000 >= 8 * e * n);
    assert(0 <= e) by {
        assert forall|x: Fixed| 0 <= #[trigger] square(x) by {
            assert(0 <= x.raw * x.raw) by (nonlinear_arith);
        }
    }
    assert(8 * e * n >= e * 0x1_0000_0000_0000_0000) by (nonlinear_arith)
        requires
            0 <= e,
            8 * n >= 0x1_0000_0000_0000_0000,
    ;
}

/// What the lines hold once their damping has had them.
pub open spec fn lines_damped(lines: Seq<LineState<Fixed>>, glide: Fixed) -> Seq<Fixed> {
    Seq::new(
        lines.len(),
        |i: int| leaked(lines[i].damp.state, line_tap(lines[i], glide), lines[i].damp.coeff),
    )
}

proof fn lemma_return_loses(damped: Fixed, feedback: Fixed, gain: int)
    requires
        0 <= feedback.raw <= gain <= FRACTION,
        within(damped, 0x400_0000_0000_0000),
    ensures
        (FRACTION * FRACTION) * square(damped.times(feedback)) <= (gain * gain) * square(damped),
        within(damped.times(feedback), 0x400_0000_0000_0000),
{
    let f = FRACTION as int;
    let x = magnitude(damped.raw as int);
    let g = feedback.raw as int;
    a_gain_scales_a_bound(damped, feedback, x);
    let out = damped.times(feedback).raw as int;
    let y = magnitude(out);
    let most = x * g / f;
    assert(most * f <= x * g) by (nonlinear_arith)
        requires
            most == x * g / f,
            f == 0x1_0000_0000,
    ;
    assert(y * f <= x * gain) by (nonlinear_arith)
        requires
            y <= most,
            most * f <= x * g,
            0 <= x,
            g <= gain,
            f == 0x1_0000_0000,
    ;
    assert((f * f) * (y * y) <= (gain * gain) * (x * x)) by (nonlinear_arith)
        requires
            0 <= y * f <= x * gain,
    {
        assert((y * f) * (y * f) <= (x * gain) * (x * gain));
    }
    let d = damped.raw as int;
    assert(y * y == out * out && x * x == d * d) by (nonlinear_arith)
        requires
            y == out || y == -out,
            x == d || x == -d,
    ;
}

/// A pass through the network loses its gain. What the matrix sends back into
/// the lines holds no more of the energy they had after their damping than the
/// square of the loudest line's feedback, but for the matrix's one part in seven
/// million.
pub proof fn a_pass_through_the_network_loses_its_gain(
    lines: Seq<LineState<Fixed>>,
    glide: Fixed,
    gain: int,
)
    requires
        lines.len() == LINES,
        gain <= FRACTION,
        forall|i: int| 0 <= i < LINES ==> 0 <= (#[trigger] lines[i]).feedback.raw <= gain,
        all_within(lines_damped(lines, glide), 0x400_0000_0000_0000),
    ensures
        7_000_000 * ((FRACTION * FRACTION) * energy(mixed_through(returns_of(lines, glide))))
            <= 7_000_001 * ((gain * gain) * energy(lines_damped(lines, glide))),
{
    let f = FRACTION as int;
    let damped = lines_damped(lines, glide);
    let returned = returns_of(lines, glide);
    assert forall|i: int| 0 <= i < LINES implies within(#[trigger] returned[i], 0x400_0000_0000_0000)
        && (f * f) * square(returned[i]) <= (gain * gain) * square(damped[i]) by {
        assert(within(damped[i], 0x400_0000_0000_0000));
        assert(0 <= lines[i].feedback.raw <= gain);
        assert(returned[i] == damped[i].times(lines[i].feedback));
        lemma_return_loses(damped[i], lines[i].feedback, gain);
    }
    the_matrix_keeps_the_energy(returned);
    let a = energy(mixed_through(returned));
    let b = energy(returned);
    let c = energy(damped);
    assert((f * f) * b <= (gain * gain) * c) by {
        assert((f * f) * square(returned[0]) <= (gain * gain) * square(damped[0]));
        assert((f * f) * square(returned[1]) <= (gain * gain) * square(damped[1]));
        assert((f * f) * square(returned[2]) <= (gain * gain) * square(damped[2]));
        assert((f * f) * square(returned[3]) <= (gain * gain) * square(damped[3]));
        assert((f * f) * square(returned[4]) <= (gain * gain) * square(damped[4]));
        assert((f * f) * square(returned[5]) <= (gain * gain) * square(damped[5]));
        assert((f * f) * square(returned[6]) <= (gain * gain) * square(damped[6]));
        assert((f * f) * square(returned[7]) <= (gain * gain) * square(damped[7]));
        lemma_shared_out(f * f, returned);
        lemma_shared_out(gain * gain, damped);
    }
    assert(7_000_000 * ((f * f) * a) <= 7_000_001 * ((gain * gain) * c)) by (nonlinear_arith)
        requires
            7_000_000 * a <= 7_000_001 * b,
            (f * f) * b <= (gain * gain) * c,
            f == 0x1_0000_0000,
    {
        assert((f * f) * (7_000_000 * a) <= (f * f) * (7_000_001 * b));
    }
}

proof fn lemma_shared_out(share: int, values: Seq<Fixed>)
    ensures
        share * energy(values) == share * square(values[0]) + share * square(values[1]) + share
            * square(values[2]) + share * square(values[3]) + share * square(values[4]) + share
            * square(values[5]) + share * square(values[6]) + share * square(values[7]),
{
    let a = square(values[0]);
    let b = square(values[1]);
    let c = square(values[2]);
    let d = square(values[3]);
    let e = square(values[4]);
    let g = square(values[5]);
    let h = square(values[6]);
    let i = square(values[7]);
    assert(share * (a + b + c + d + e + g + h + i) == share * a + share * b + share * c + share * d
        + share * e + share * g + share * h + share * i) by (nonlinear_arith);
}

} // verus!
