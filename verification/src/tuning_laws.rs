//! Which way the controls turn: what a longer decay, a brighter tone, more damping,
//! a larger size and more resonance do to the gains they set.

use vstd::prelude::*;

use crate::bitcrush::{a_crushed_sample_lies_on_the_grid, quantized, step_of};
use crate::curves::{
    exponentials_are_not_negative, exponentials_keep_order, logarithms_keep_order, tau_of,
    the_exponential_of_nothing_is_one, the_logarithm_of_one_is_nothing, Curves,
};
use crate::delay::tone_coeff_of;
use crate::eq::{params_with, EqParams};
use crate::filter::{
    feedback_gain, highest_cutoff, loop_input, pole_decay, rate_of,
};
use crate::hall::LineState;
use crate::modulation::{channel_run, Cascading};
use crate::num::{
    a_product_is_exact_to_a_count, a_ratio_is_exact_to_a_count, a_share_is_exact_to_a_count,
    clamp_of, clamp_param_of, is_gain, magnitude, max_of, nothing_times, products_commute,
    products_keep_order, quotient, quotients_keep_order, ratio_of, within, Fixed, Sample, FRACTION,
};
use crate::plate::{comb_damped, comb_decaying, CombState};
use crate::preamp::{HarmonicStage, Stage};
use crate::reverb::{damping_coeff, feedback_of, size_multiplier_of};

verus! {

proof fn lemma_quotients_turn(a: int, b: int, d: int)
    requires
        a <= b,
        0 < d,
    ensures
        quotient(a, d) <= quotient(b, d),
{
    let x = magnitude(a);
    let y = magnitude(b);
    let p = x / d;
    let q = y / d;
    assert(0 <= p && 0 <= q && (x <= y ==> p <= q) && (y <= x ==> q <= p)) by (nonlinear_arith)
        requires
            p == x / d,
            q == y / d,
            0 <= x,
            0 <= y,
            0 < d,
    ;
}

/// Products with a number that is not positive turn the order of what is
/// multiplied.
pub proof fn products_turn_order(low: Fixed, high: Fixed, by: Fixed)
    requires
        low.raw <= high.raw,
        by.raw <= 0,
    ensures
        high.times(by).raw <= low.times(by).raw,
        by.times(high).raw <= by.times(low).raw,
{
    let a = low.raw * by.raw;
    let b = high.raw * by.raw;
    assert(b <= a) by (nonlinear_arith)
        requires
            a == low.raw * by.raw,
            b == high.raw * by.raw,
            low.raw <= high.raw,
            by.raw <= 0,
    ;
    lemma_quotients_turn(b, a, FRACTION as int);
    products_commute(low, by);
    products_commute(high, by);
}

/// What is not positive lies nearer to nothing over a larger number.
pub proof fn a_larger_divisor_brings_nearer(part: Fixed, less: Fixed, more: Fixed)
    requires
        part.raw <= 0,
        0 < less.raw <= more.raw,
    ensures
        part.over(less).raw <= part.over(more).raw <= 0,
{
    let f = FRACTION as int;
    let n = -part.raw * f;
    let a = less.raw as int;
    let b = more.raw as int;
    let p = n / a;
    let q = n / b;
    assert(0 <= n && part.raw * f == -n) by (nonlinear_arith)
        requires
            n == -part.raw * f,
            part.raw <= 0,
            f == 0x1_0000_0000,
    ;
    assert(0 <= q <= p) by (nonlinear_arith)
        requires
            p == n / a,
            q == n / b,
            0 <= n,
            0 < a <= b,
    {
        assert(q * b <= n);
        assert(q * a <= q * b);
    }
    assert(0int / a == 0 && 0int / b == 0) by (nonlinear_arith)
        requires
            0 < a,
            0 < b,
    ;
}

/// Powers of a number above one grow with the exponent, and powers of one below it
/// shrink.
pub proof fn powers_keep_order(base: Fixed, low: Fixed, high: Fixed)
    requires
        low.raw <= high.raw,
    ensures
        base.raw >= FRACTION ==> base.powf_spec(low).raw <= base.powf_spec(high).raw,
        base.raw <= FRACTION ==> base.powf_spec(high).raw <= base.powf_spec(low).raw,
        base.powf_spec(low).raw >= 0,
        base.powf_spec(Fixed::of_spec(0)) == Fixed::of_spec(1),
{
    let one = Fixed::of_spec(1);
    the_logarithm_of_one_is_nothing();
    let ln = base.ln_spec();
    if base.raw >= FRACTION {
        logarithms_keep_order(one, base);
        products_keep_order(low, high, ln);
        exponentials_keep_order(low.times(ln), high.times(ln));
    }
    if base.raw <= FRACTION {
        logarithms_keep_order(base, one);
        products_turn_order(low, high, ln);
        exponentials_keep_order(high.times(ln), low.times(ln));
    }
    exponentials_are_not_negative(low.times(ln));
    nothing_times(ln);
    the_exponential_of_nothing_is_one();
}

/// A pole at a higher cutoff forgets faster.
pub proof fn a_higher_pole_forgets_faster(low: Fixed, high: Fixed, sample_rate: u32)
    requires
        low.raw <= high.raw,
        100 <= sample_rate <= 0x4_0000,
    ensures
        pole_decay(high, sample_rate).raw <= pole_decay(low, sample_rate).raw,
{
    let sr = rate_of::<Fixed>(sample_rate);
    let top = highest_cutoff(sr);
    let a = clamp_param_of(low, Fixed::of_spec(10), top);
    let b = clamp_param_of(high, Fixed::of_spec(10), top);
    let tau = tau_of::<Fixed>();
    assert(tau.raw >= 0) by {
        crate::num::products_stay_within(
            Fixed::of_spec(2),
            Fixed::pi_spec(),
            0x2_0000_0000,
            13_493_038_080,
            0x1000_0000_0000,
        );
    }
    a_ratio_is_exact_to_a_count(45, 100);
    a_share_is_exact_to_a_count(sr, ratio_of(45, 100));
    let f = FRACTION as int;
    let g = ratio_of::<Fixed>(45, 100).raw as int;
    let t = top.raw as int;
    assert(t >= 10 * f) by (nonlinear_arith)
        requires
            -f < f * t - sr.raw * g < f,
            sr.raw >= 100 * f,
            g >= f / 4,
            f == 0x1_0000_0000,
    {
        assert(sr.raw * g >= (100 * f) * g);
        assert((100 * f) * g >= (100 * f) * (f / 4));
    }
    products_turn_order(a, b, tau.negated());
    quotients_keep_order(tau.negated().times(b), tau.negated().times(a), sr);
    exponentials_keep_order(
        tau.negated().times(b).over(sr),
        tau.negated().times(a).over(sr),
    );
}

/// A brighter tone lets more of each repeat of a delay through.
pub proof fn a_brighter_tone_damps_less(dark: Fixed, bright: Fixed, sample_rate: u32)
    requires
        dark.raw <= bright.raw,
        1 <= sample_rate <= 0x4_0000,
    ensures
        tone_coeff_of(dark, sample_rate).raw <= tone_coeff_of(bright, sample_rate).raw,
        is_gain(tone_coeff_of(dark, sample_rate)),
{
    let zero = Fixed::of_spec(0);
    let one = Fixed::of_spec(1);
    let a = clamp_of(dark, zero, one);
    let b = clamp_of(bright, zero, one);
    let span = Fixed::of_spec(20_000).over(Fixed::of_spec(200));
    assert(span == Fixed::of_spec(100)) by {
        let f = FRACTION as int;
        assert((20_000 * f) * f / (200 * f) == 100 * f && 0 <= (20_000 * f) * f)
            by (nonlinear_arith)
            requires
                f == 0x1_0000_0000,
        ;
    }
    powers_keep_order(span, a, b);
    let p = span.powf_spec(a);
    let q = span.powf_spec(b);
    let base = Fixed::of_spec(200);
    products_keep_order(p, q, base);
    let tau = tau_of::<Fixed>();
    assert(tau.raw >= 0) by {
        crate::num::products_stay_within(
            Fixed::of_spec(2),
            Fixed::pi_spec(),
            0x2_0000_0000,
            13_493_038_080,
            0x1000_0000_0000,
        );
    }
    let sr = Fixed::of_spec(sample_rate as nat);
    products_turn_order(base.times(p), base.times(q), tau.negated());
    quotients_keep_order(
        tau.negated().times(base.times(q)),
        tau.negated().times(base.times(p)),
        sr,
    );
    exponentials_keep_order(
        tau.negated().times(base.times(q)).over(sr),
        tau.negated().times(base.times(p)).over(sr),
    );
    exponentials_are_not_negative(tau.negated().times(base.times(q)).over(sr));
    exponentials_are_not_negative(tau.negated().times(base.times(p)).over(sr));
}

/// More damping lets less through a plate's comb, and touches nothing else of it.
pub proof fn more_damping_is_darker(
    c: CombState<Fixed>,
    sample_rate: u32,
    less: Fixed,
    more: Fixed,
)
    requires
        less.raw <= more.raw,
        100 <= sample_rate <= 0x4_0000,
    ensures
        comb_damped(c, sample_rate, more).damp.coeff.raw <= comb_damped(
            c,
            sample_rate,
            less,
        ).damp.coeff.raw,
        comb_damped(c, sample_rate, more).damp.state == c.damp.state,
        comb_damped(c, sample_rate, more).feedback == c.feedback,
        comb_damped(c, sample_rate, more).past == c.past,
{
    let zero = Fixed::of_spec(0);
    let one = Fixed::of_spec(1);
    let a = clamp_of(less, zero, one);
    let b = clamp_of(more, zero, one);
    let base = Fixed::of_spec(1_000).over(Fixed::of_spec(18_000));
    crate::num::a_share_is_a_gain(Fixed::of_spec(1_000), Fixed::of_spec(18_000));
    powers_keep_order(base, a, b);
    let top = Fixed::of_spec(18_000);
    products_keep_order(base.powf_spec(b), base.powf_spec(a), top);
    a_higher_pole_forgets_faster(
        top.times(base.powf_spec(b)),
        top.times(base.powf_spec(a)),
        sample_rate,
    );
    exponentials_are_not_negative(
        tau_of::<Fixed>().negated().times(
            clamp_param_of(
                top.times(base.powf_spec(a)),
                Fixed::of_spec(10),
                highest_cutoff(rate_of(sample_rate)),
            ),
        ).over(rate_of(sample_rate)),
    );
}

/// A longer decay is a larger gain of a plate's comb, short of 97 hundredths, and a
/// longer comb at the same decay a smaller one.
pub proof fn a_longer_decay_feeds_back_more(
    c: CombState<Fixed>,
    longer: CombState<Fixed>,
    sample_rate: u32,
    less: Fixed,
    more: Fixed,
)
    requires
        less.raw <= more.raw,
        1 <= sample_rate <= 0x4_0000,
        0 <= c.target_len.raw <= longer.target_len.raw <= 0x100_0000 * FRACTION,
    ensures
        comb_decaying(c, sample_rate, less).feedback.raw <= comb_decaying(
            c,
            sample_rate,
            more,
        ).feedback.raw,
        comb_decaying(longer, sample_rate, less).feedback.raw <= comb_decaying(
            c,
            sample_rate,
            less,
        ).feedback.raw,
        0 <= 100 * comb_decaying(c, sample_rate, less).feedback.raw <= 97 * FRACTION,
        comb_decaying(c, sample_rate, less).damp == c.damp,
        comb_decaying(c, sample_rate, less).past == c.past,
{
    a_ratio_is_exact_to_a_count(97, 100);
    a_ratio_is_exact_to_a_count(1, 100);
    let rate = Fixed::of_spec(sample_rate as nat);
    lemma_decays(c.target_len, longer.target_len, rate, less, more, ratio_of(1, 100));
}

/// So it is of a hall's line, short of 9995 ten thousandths.
pub proof fn a_longer_decay_feeds_a_line_back_more(
    line: LineState<Fixed>,
    sample_rate: u32,
    less: Fixed,
    more: Fixed,
)
    requires
        less.raw <= more.raw,
        1 <= sample_rate <= 0x4_0000,
        0 <= line.target_len.raw <= 0x100_0000 * FRACTION,
        0 <= line.loop_ap.target_len.raw <= 0x100_0000 * FRACTION,
    ensures
        feedback_of(line, less, sample_rate).raw <= feedback_of(line, more, sample_rate).raw,
        0 <= 10_000 * feedback_of(line, less, sample_rate).raw <= 9_995 * FRACTION,
{
    a_ratio_is_exact_to_a_count(9_995, 10_000);
    a_ratio_is_exact_to_a_count(5, 100);
    let rate = Fixed::of_spec(sample_rate as nat);
    let trip = line.target_len.plus(line.loop_ap.target_len);
    lemma_decays(trip, trip, rate, less, more, ratio_of(5, 100));
}

proof fn lemma_decays(
    len: Fixed,
    longer: Fixed,
    rate: Fixed,
    less: Fixed,
    more: Fixed,
    least: Fixed,
)
    requires
        0 <= len.raw <= longer.raw,
        0 < rate.raw,
        less.raw <= more.raw,
        0 < least.raw,
    ensures
        ({
            let ten = Fixed::of_spec(10);
            let fall = Fixed::of_spec(3).negated();
            let a = fall.times(len.over(rate));
            let b = fall.times(longer.over(rate));
            let short = max_of(less, least);
            let long = max_of(more, least);
            &&& ten.powf_spec(a.over(short)).raw <= ten.powf_spec(a.over(long)).raw
            &&& ten.powf_spec(b.over(short)).raw <= ten.powf_spec(a.over(short)).raw
            &&& ten.powf_spec(a.over(short)).raw >= 0
        }),
{
    let ten = Fixed::of_spec(10);
    let fall = Fixed::of_spec(3).negated();
    let a = fall.times(len.over(rate));
    let b = fall.times(longer.over(rate));
    let short = max_of(less, least);
    let long = max_of(more, least);
    quotients_keep_order(len, longer, rate);
    quotients_keep_order(Fixed::of_spec(0), len, rate);
    assert(Fixed::of_spec(0).over(rate).raw == 0) by {
        let d = rate.raw as int;
        assert(0int / d == 0) by (nonlinear_arith)
            requires
                0 < d,
        ;
    }
    products_turn_order(len.over(rate), longer.over(rate), fall);
    products_turn_order(Fixed::of_spec(0), len.over(rate), fall);
    nothing_times(fall);
    products_commute(Fixed::of_spec(0), fall);
    a_larger_divisor_brings_nearer(a, short, long);
    quotients_keep_order(b, a, short);
    powers_keep_order(ten, a.over(short), a.over(long));
    powers_keep_order(ten, b.over(short), a.over(short));
}

/// A larger size makes a hall's lines longer, from four tenths of their tuning on.
pub proof fn a_larger_size_is_longer(less: Fixed, more: Fixed)
    requires
        less.raw <= more.raw,
    ensures
        size_multiplier_of(less).raw <= size_multiplier_of(more).raw,
        size_multiplier_of(Fixed::of_spec(0)).raw == 4 * FRACTION / 10,
{
    let zero = Fixed::of_spec(0);
    let one = Fixed::of_spec(1);
    a_ratio_is_exact_to_a_count(25, 10);
    a_ratio_is_exact_to_a_count(4, 10);
    let small = ratio_of::<Fixed>(4, 10);
    let span = ratio_of::<Fixed>(25, 10).over(small);
    assert(small.raw == 1_717_986_918);
    assert(ratio_of::<Fixed>(25, 10).raw == 10_737_418_240);
    let f = FRACTION as int;
    let q = (10_737_418_240 * f) / 1_717_986_918;
    assert(f <= q <= 0x7fff_ffff_ffff_ffff && 0 <= 10_737_418_240 * f) by (nonlinear_arith)
        requires
            q == (10_737_418_240 * f) / 1_717_986_918,
            f == 0x1_0000_0000,
    ;
    assert(span.raw == q);
    let a = clamp_of(less, zero, one);
    let b = clamp_of(more, zero, one);
    powers_keep_order(span, a, b);
    products_keep_order(span.powf_spec(a), span.powf_spec(b), small);
    crate::num::times_one(small);
}

/// A hall's damping takes 45 hundredths of its control from one.
pub proof fn a_hall_is_damped_by_its_control(damping: Fixed)
    requires
        is_gain(damping),
    ensures
        magnitude(100 * damping_coeff(damping).raw - (100 * FRACTION - 45 * damping.raw)) <= 200,
{
    let f = FRACTION as int;
    a_ratio_is_exact_to_a_count(45, 100);
    let part = ratio_of::<Fixed>(45, 100);
    a_share_is_exact_to_a_count(damping, part);
    let x = damping.times(part).raw as int;
    let s = damping.raw as int;
    let g = part.raw as int;
    assert(-200 <= 100 * x - 45 * s <= 200) by (nonlinear_arith)
        requires
            -f < f * x - s * g < f,
            100 * g <= 45 * f < 100 * g + 100,
            0 <= s <= f,
            f == 0x1_0000_0000,
    {
        let e = f * x - s * g;
        let y = 45 * f - 100 * g;
        assert(f * (100 * x - 45 * s) == 100 * e - s * y);
        assert(0 <= s * y <= f * 100);
        assert(-(f * 200) <= f * (100 * x - 45 * s) <= f * 200);
    }
}

/// More resonance is never less feedback, and none is none: a loop without feedback
/// takes its input as it is.
pub proof fn more_resonance_feeds_back_more(
    less: Fixed,
    more: Fixed,
    most: Fixed,
    tracking: Fixed,
    g: Fixed,
    input: Fixed,
    bass: Fixed,
    feedback: Fixed,
)
    requires
        less.raw <= more.raw,
        0 <= most.raw,
        0 <= tracking.times(g).raw,
    ensures
        feedback_gain(less, most, tracking, g).raw <= feedback_gain(more, most, tracking, g).raw,
        feedback_gain(Fixed::of_spec(0), most, tracking, g).raw == 0,
        loop_input(input, Fixed::of_spec(0), bass, feedback) == input,
{
    let zero = Fixed::of_spec(0);
    let one = Fixed::of_spec(1);
    let a = clamp_param_of(less, zero, one);
    let b = clamp_param_of(more, zero, one);
    products_keep_order(a, b, most);
    let track = one.plus(tracking.times(g));
    products_keep_order(a.times(most), b.times(most), track);
    nothing_times(most);
    nothing_times(track);
    nothing_times(bass);
    nothing_times(feedback);
    crate::num::times_one(input);
}

/// A loop takes its feedback away: what goes into the shaper is the input, raised by
/// the bass's share of the gain, less the gain of what comes back.
pub proof fn a_loop_takes_its_feedback_away(input: Fixed, k: Fixed, bass: Fixed, feedback: Fixed)
    requires
        0 <= k.raw <= 64 * FRACTION,
        is_gain(bass),
        within(input, 0x1_0000_0000_0000),
        within(feedback, 0x1_0000_0000_0000),
    ensures
        magnitude(
            FRACTION * loop_input(input, k, bass, feedback).raw - (input.raw * (FRACTION + k.times(
                bass,
            ).raw) - k.raw * feedback.raw),
        ) < 2 * FRACTION,
        0 <= k.times(bass).raw <= k.raw,
{
    let f = FRACTION as int;
    a_share_is_exact_to_a_count(k, bass);
    let gain = Fixed::of_spec(1).plus(k.times(bass));
    let g = gain.raw as int;
    let x = input.raw as int;
    let y = feedback.raw as int;
    let c = k.raw as int;
    assert(-(0x41_0000_0000_0000 * f) <= x * g <= 0x41_0000_0000_0000 * f && -(
    0x40_0000_0000_0000 * f) <= c * y <= 0x40_0000_0000_0000 * f) by (nonlinear_arith)
        requires
            -0x1_0000_0000_0000 <= x <= 0x1_0000_0000_0000,
            -0x1_0000_0000_0000 <= y <= 0x1_0000_0000_0000,
            0 <= g <= 65 * f,
            0 <= c <= 64 * f,
            f == 0x1_0000_0000,
    ;
    a_product_is_exact_to_a_count(input, gain);
    a_product_is_exact_to_a_count(k, feedback);
}

/// A crushed sample is the nearest step: it is off by half a step at most, and what
/// the division rounds.
pub proof fn a_crushed_sample_is_the_nearest_step(sample: Fixed, step: Fixed)
    requires
        0 < step.raw <= FRACTION,
        magnitude(sample.raw as int) * FRACTION <= 0x1000_0000_0000_0000 * step.raw,
    ensures
        2 * magnitude(quantized(sample, step).raw - sample.raw) <= step.raw + 4,
{
    let f = FRACTION as int;
    let s = step.raw as int;
    let v = sample.raw as int;
    crate::num::a_quotient_is_exact_to_a_count(sample, step);
    let share = sample.over(step).raw as int;
    assert(magnitude(share) <= 0x1000_0000_0000_0000) by (nonlinear_arith)
        requires
            s * magnitude(share) <= magnitude(v) * f,
            magnitude(v) * f <= 0x1000_0000_0000_0000 * s,
            0 < s,
    ;
    let steps = a_crushed_sample_lies_on_the_grid(sample, step);
    let whole = sample.over(step).round_spec().raw as int;
    let n = if share < 0 {
        -((-share + f / 2) / f)
    } else {
        (share + f / 2) / f
    };
    assert(whole == n * f);
    assert(-f <= 2 * (n * f - share) <= f) by (nonlinear_arith)
        requires
            n == (if share < 0 {
                -((-share + f / 2) / f)
            } else {
                (share + f / 2) / f
            }),
            f == 0x1_0000_0000,
    ;
    lemma_whole_times(n, sample.over(step).round_spec(), step);
    let out = quantized(sample, step).raw as int;
    assert(out == n * s);
    let e = out - v;
    assert(-(f * (s + 4)) <= 2 * (f * e) <= f * (s + 4)) by (nonlinear_arith)
        requires
            e == n * s - v,
            -s < s * share - v * f < s,
            -f <= 2 * (n * f - share) <= f,
            0 < s <= f,
            f == 0x1_0000_0000,
    {
        let a = s * share - v * f;
        let b = 2 * (n * f - share);
        assert(2 * (f * e) == s * b + 2 * a) by {
            assert(s * b == 2 * (n * s * f) - 2 * (s * share));
        }
        assert(-(s * f) <= s * b <= s * f);
    }
    assert(-(s + 4) <= 2 * e <= s + 4) by (nonlinear_arith)
        requires
            -(f * (s + 4)) <= 2 * (f * e) <= f * (s + 4),
            f == 0x1_0000_0000,
    ;
}

proof fn lemma_whole_times(n: int, whole: Fixed, step: Fixed)
    requires
        whole.raw == n * FRACTION,
        0 < step.raw <= FRACTION,
        within(whole, 0x2000_0000_0000_0000),
    ensures
        whole.times(step).raw == n * step.raw,
{
    let f = FRACTION as int;
    let s = step.raw as int;
    let w = whole.raw as int;
    assert(w * s == (n * s) * f) by (nonlinear_arith)
        requires
            w == n * f,
    ;
    let p = n * s;
    assert(-0x2000_0000_0000_0000 <= p <= 0x2000_0000_0000_0000) by (nonlinear_arith)
        requires
            p == n * s,
            -0x2000_0000_0000_0000 <= n * f <= 0x2000_0000_0000_0000,
            0 < s <= f,
    {
        if n >= 0 {
            assert(n * s <= n * f);
            assert(0 <= n * s);
        } else {
            assert(n * s >= n * f);
            assert(n * s <= 0);
        }
    }
    assert(magnitude(p * f) == magnitude(p) * f && (p * f < 0 <==> p < 0)) by (nonlinear_arith)
        requires
            f == 0x1_0000_0000,
            magnitude(p * f) == (if p * f < 0 { -(p * f) } else { p * f }),
            magnitude(p) == (if p < 0 { -p } else { p }),
    ;
    assert((magnitude(p) * 0x1_0000_0000) / 0x1_0000_0000 == magnitude(p));
}

/// More bits are never a coarser step.
pub proof fn more_bits_are_finer(fewer: Fixed, more: Fixed)
    requires
        0 <= fewer.raw <= more.raw,
    ensures
        step_of(more).raw <= step_of(fewer).raw,
        step_of(Fixed::of_spec(0)) == Fixed::of_spec(2),
{
    let two = Fixed::of_spec(2);
    powers_keep_order(two, fewer, more);
    powers_keep_order(two, Fixed::of_spec(0), fewer);
    let a = two.powf_spec(fewer);
    let b = two.powf_spec(more);
    let f = FRACTION as int;
    let n = (2 * f) * f;
    let p = n / (a.raw as int);
    let q = n / (b.raw as int);
    assert(0 <= n && 0 <= q <= p <= 2 * f) by (nonlinear_arith)
        requires
            n == (2 * f) * f,
            p == n / (a.raw as int),
            q == n / (b.raw as int),
            f <= a.raw <= b.raw,
            f == 0x1_0000_0000,
    {
        assert(q * b.raw <= n);
        assert(q * a.raw <= q * b.raw);
    }
    assert((2 * f) * f / f == 2 * f) by (nonlinear_arith)
        requires
            f == 0x1_0000_0000,
    ;
}

/// A stage of the phaser hands on what it stored less its coefficient of what came
/// in, and stores what came in and its coefficient of what it handed on; the next
/// stage takes what this one hands on, and the coefficient takes its step.
pub proof fn a_phaser_stage_is_an_allpass(channel: Cascading<Fixed>, input: Fixed, i: int)
    requires
        0 <= i < channel.stage.len(),
        channel.now.len() == channel.stage.len(),
        within(channel_run(channel, input, i).0.now[i], FRACTION as int),
        within(channel_run(channel, input, i).1, 0x100_0000_0000_0000),
        within(channel_run(channel, input, i).0.stage[i].z, 0x100_0000_0000_0000),
        channel_run(channel, input, i).0.stage.len() == channel.stage.len(),
        channel_run(channel, input, i).0.now.len() == channel.now.len(),
    ensures
        ({
            let (before, x) = channel_run(channel, input, i);
            let (after, y) = channel_run(channel, input, i + 1);
            let c = before.now[i].raw;
            let z = before.stage[i].z.raw;
            &&& magnitude(FRACTION * (y.raw - z) + c * x.raw) < FRACTION
            &&& magnitude(FRACTION * (after.stage[i].z.raw - x.raw) - c * y.raw) < FRACTION
            &&& after.now[i] == before.now[i].plus(before.step[i])
        }),
{
    let f = FRACTION as int;
    let (before, x) = channel_run(channel, input, i);
    let c = before.now[i];
    let z = before.stage[i].z;
    lemma_by_coefficient(c.negated(), x);
    let y = c.negated().times(x).plus(z);
    lemma_by_coefficient(c, y);
    assert(c.negated().raw * x.raw == -(c.raw * x.raw)) by (nonlinear_arith)
        requires
            c.negated().raw == -c.raw,
    ;
}

proof fn lemma_by_coefficient(c: Fixed, value: Fixed)
    requires
        within(c, FRACTION as int),
        within(value, 0x200_0000_0000_0000),
    ensures
        magnitude(FRACTION * c.times(value).raw - c.raw * value.raw) < FRACTION,
        within(c.times(value), magnitude(value.raw as int)),
{
    let f = FRACTION as int;
    let k = c.raw as int;
    let v = value.raw as int;
    let m = magnitude(v);
    assert(-(m * f) <= k * v <= m * f && m * f <= 0x7fff_ffff_ffff_ffff * f) by (nonlinear_arith)
        requires
            -f <= k <= f,
            m == (if v < 0 { -v } else { v }),
            m <= 0x200_0000_0000_0000,
            f == 0x1_0000_0000,
    ;
    a_product_is_exact_to_a_count(c, value);
    let p = magnitude(c.times(value).raw as int);
    assert(p <= m) by (nonlinear_arith)
        requires
            f * p <= m * f,
            f == 0x1_0000_0000,
    ;
}

/// A preamp's coupling lets changes through and forgets what stands still: what
/// comes out is what the curve moved by, and the coefficient's share of what came
/// out before.
pub proof fn a_coupling_passes_changes(stage: HarmonicStage<Fixed>, input: Fixed, drive: Fixed)
    requires
        !stage.shaper.transparent,
        is_gain(stage.blocker.coefficient),
        within(stage.blocker.last_output, 0x100_0000_0000_0000),
        within(stage.blocker.last_input, 0x100_0000_0000_0000),
        within(stage.processed(input, drive).0.blocker.last_input, 0x100_0000_0000_0000),
    ensures
        ({
            let (after, out) = stage.processed(input, drive);
            let moved = after.blocker.last_input.raw - stage.blocker.last_input.raw;
            &&& magnitude(
                FRACTION * (out.raw - moved) - stage.blocker.last_output.raw
                    * stage.blocker.coefficient.raw,
            ) < FRACTION
            &&& after.blocker.last_output == out
            &&& after.blocker.coefficient == stage.blocker.coefficient
            &&& after.shaper == stage.shaper
        }),
{
    a_share_is_exact_to_a_count(stage.blocker.last_output, stage.blocker.coefficient);
}

/// Each parameter of the equalizer is one field of one band or pass filter: six in
/// turn for each of seven bands, four for the high pass and four for the low.
pub proof fn each_parameter_is_one_field(
    before: EqParams<Fixed>,
    id: u32,
    value: Fixed,
    after: EqParams<Fixed>,
    band: int,
)
    requires
        params_with(before, id, value, after),
        0 <= band < 7,
    ensures
        id < 42 && band != id / 6 || id >= 42 ==> after.bands[band] == before.bands[band],
        id < 42 || id >= 46 ==> after.high_pass == before.high_pass,
        id < 46 || id >= 50 ==> after.low_pass == before.low_pass,
        id >= 50 ==> after == before,
        id < 42 && band == id / 6 ==> ({
            let was = before.bands[band];
            let now = after.bands[band];
            &&& id % 6 == 2 ==> now.frequency_hz == value
            &&& id % 6 == 3 ==> now.gain_db == value
            &&& id % 6 == 4 ==> now.q == value
            &&& id % 6 == 0 ==> now.enabled == (2 * value.raw >= FRACTION)
            &&& id % 6 != 0 ==> now.enabled == was.enabled
            &&& id % 6 != 1 ==> now.kind == was.kind
            &&& id % 6 != 2 ==> now.frequency_hz == was.frequency_hz
            &&& id % 6 != 3 ==> now.gain_db == was.gain_db
            &&& id % 6 != 4 ==> now.q == was.q
            &&& id % 6 != 5 ==> now.q_profile == was.q_profile
        }),
        id == 43 ==> after.high_pass.frequency_hz == value,
        id == 44 ==> after.high_pass.q == value,
        id == 47 ==> after.low_pass.frequency_hz == value,
        id == 48 ==> after.low_pass.q == value,
        id == 42 ==> after.high_pass.enabled == (2 * value.raw >= FRACTION),
        id == 46 ==> after.low_pass.enabled == (2 * value.raw >= FRACTION),
{
    a_ratio_is_exact_to_a_count(1, 2);
    assert(after.bands[band] == after.bands@[band]);
    assert(before.bands[band] == before.bands@[band]);
    if id < 42 {
        assert(before.bands[(id / 6) as int] == before.bands@[(id / 6) as int]);
    }
}

} // verus!
