//! Laws about magnitudes, on concrete fixed-point numbers.

use mooloop_dsp::biquad::Biquad;
use mooloop_dsp::bitcrush::{BitcrushEffect, BitcrushParams, BitcrushStyle};
use mooloop_dsp::bus::StereoBus;
use mooloop_dsp::curves::Curves;
use mooloop_dsp::delay::{DelayEffect, DelayMode, DelayParams, DelayTimeDivision};
use mooloop_dsp::drive::{DriveCurve, DriveEffect, DriveParams, SoftClip};
use mooloop_dsp::dynamics::{CompressorEffect, CompressorParams, GateEffect, GateParams};
use mooloop_dsp::env::{Ahd, AhdShape, ExpDecay};
use mooloop_dsp::event::EventList;
use mooloop_dsp::filter::{soft_ceiling, OnePoleLp, Svf, SvfCoeffs};
use mooloop_dsp::filter_effect::{FilterEffect, FilterMode, FilterParams, FilterSlope};
use mooloop_dsp::glide::Glide;
use mooloop_dsp::hall::{hadamard, LINES};
use mooloop_dsp::harmonics::{grip, solve_at, HarmonicProfile, HarmonicShaper};
use mooloop_dsp::hosted_source::{HostedSource, PluginSlotId};
use mooloop_dsp::level::{compressor_gain_db, EnvelopeFollower};
use mooloop_dsp::limiter::{LimiterEffect, LimiterParams};
use mooloop_dsp::lookahead::SlidingMin;
use mooloop_dsp::modulation::{
    allpass_coefficient, resonance_trim, ModulationEffect, ModulationMode, ModulationParams,
};
use mooloop_dsp::node::{feedback_tail_frames, ProcessContext};
use mooloop_dsp::num::{Fixed, Sample};
use mooloop_dsp::plate::{Comb, SchroederAllpass};
use mooloop_dsp::preamp::{HarmonicStage, PreampEffect, PreampParams, PreampVoicing};
use mooloop_dsp::smooth::Smoothed;

const ONE: i64 = 1 << 32;

type Events = EventList<Fixed, ()>;

fn share(numerator: i64, denominator: i64) -> Fixed {
    Fixed { raw: numerator * ONE / denominator }
}

fn context(frames: usize) -> ProcessContext {
    ProcessContext { sample_rate: 48_000, frames }
}

fn ramp_bus(frames: usize) -> StereoBus<Fixed> {
    let mut bus = StereoBus::with_capacity(frames);
    for i in 0..frames {
        bus.l[i] = share(i as i64 - frames as i64 / 2, frames as i64);
        bus.r[i] = bus.l[i].neg();
    }
    bus
}

#[test]
fn a_lag_arrives_and_does_not_pass_its_target() {
    let mut lag = Smoothed::new(share(1, 4), share(5, 1000), 48_000);
    lag.set_target(share(3, 4));
    let mut last = lag.value();
    for _ in 0..48_000 {
        let next = lag.advance();
        assert!(last.raw <= next.raw && next.raw <= share(3, 4).raw);
        last = next;
    }
    assert!(lag.is_settled());
    assert_eq!(lag.advance(), share(3, 4));
}

#[test]
fn an_exponential_decay_only_falls() {
    let mut env = ExpDecay::new();
    env.set_time(share(1, 100), 48_000);
    env.trigger();
    let mut last = env.level();
    for _ in 0..1_000 {
        env.advance();
        assert!(env.level().raw <= last.raw);
        last = env.level();
    }
    assert!(env.is_idle());
}

#[test]
fn nothing_leaves_the_voice_ceiling() {
    for raw in [0, ONE, -ONE, 3 * ONE / 2, -3 * ONE / 2] {
        assert_eq!(soft_ceiling(Fixed { raw }), Fixed { raw });
    }
    for raw in [2 * ONE, -2 * ONE, 10 * ONE, -500 * ONE] {
        let out = soft_ceiling(Fixed { raw }).raw;
        assert!(out.abs() <= 5 * ONE / 2 && out.signum() == raw.signum());
    }
}

#[test]
fn a_ramp_of_coefficients_starts_and_ends_on_its_sets() {
    let coeffs = |k: i64| SvfCoeffs {
        g: share(k, 7),
        a1: share(k, 11),
        a2: share(k, 13),
        a3: share(k, 17),
        damping: share(k, 3),
    };
    let (from, to) = (coeffs(1), coeffs(2));
    assert_eq!(from.lerp(&to, Fixed::of(0)).a1, from.a1);
    assert_eq!(from.lerp(&to, Fixed::of(1)).a1, to.a1);
    assert_eq!(from.lerp(&to, Fixed::of(9)).damping, to.damping);
}

#[test]
fn a_hot_fixed_sample_is_shaped_as_full_scale() {
    let shaper = HarmonicShaper::new::<Fixed>(grip());
    assert_eq!(shaper.shape(Fixed::of(5)), shaper.shape(Fixed::of(1)));
}

#[test]
fn silence_brings_a_fixed_follower_to_nothing() {
    let mut follower = EnvelopeFollower::new();
    follower.set_times(Fixed::of(0), Fixed::of(5), 48_000);
    assert_eq!(follower.process(share(1, 2)), share(1, 2));
    for _ in 0..48_000 {
        follower.process(Fixed::of(0));
    }
    assert!(follower.is_at_rest());
}

#[test]
fn a_compressor_curve_only_turns_down() {
    let ratio = Fixed::of(4);
    for level in [-60i64, -20, -18, -15, -12, 0, 6] {
        for knee in [0usize, 6, 24] {
            let db =
                compressor_gain_db(Fixed { raw: level * ONE }, Fixed { raw: -18 * ONE }, ratio, Fixed::of(knee));
            assert!(db.raw <= 0, "{level} dB, knee {knee}: {}", db.raw);
        }
    }
    let over = compressor_gain_db(Fixed { raw: -6 * ONE }, Fixed { raw: -18 * ONE }, ratio, Fixed::of(0));
    assert_eq!(over, Fixed { raw: -9 * ONE });
}

#[test]
fn the_trim_is_one_up_to_its_knee() {
    assert_eq!(resonance_trim(share(3, 4)), Fixed::of(1));
    assert_eq!(resonance_trim(share(-7, 8)), share(1, 2));
    assert_eq!(resonance_trim(Fixed::of(1)), Fixed::of(0));
}

#[test]
fn a_dry_mix_is_the_input_exactly() {
    let dry = Fixed::of(0);
    let input = ramp_bus(64);

    let mut bus = ramp_bus(64);
    BitcrushEffect::new(BitcrushParams {
        bits: Fixed::of(2),
        downsample: Fixed::of(5),
        mix: dry,
        style: BitcrushStyle::Crush,
    })
    .process(&context(64), &mut bus, &Events::empty());
    assert_eq!(bus.l, input.l);

    let mut bus = ramp_bus(64);
    let mut comp = CompressorEffect::new(
        CompressorParams {
            threshold_db: Fixed { raw: -40 * ONE },
            ratio: Fixed::of(20),
            attack_ms: Fixed::of(1),
            release_ms: Fixed::of(50),
            knee_db: Fixed::of(0),
            makeup_db: Fixed::of(6),
            mix: dry,
        },
        48_000,
    );
    comp.process(&context(64), &mut bus, &Events::empty());
    assert_eq!((bus.l, bus.r), (input.l.clone(), input.r.clone()));

    let mut bus = ramp_bus(64);
    let mut drive: DriveEffect<Fixed, SoftClip<Fixed>> = DriveEffect::new(
        DriveParams {
            drive: Fixed::of(8),
            curve: DriveCurve::Soft,
            tone: share(1, 2),
            mix: dry,
            output: Fixed::of(1),
        },
        48_000,
    );
    drive.process(&context(64), &mut bus, &Events::empty());
    assert_eq!(bus.l[0], Fixed::of(0));
    assert_eq!(bus.l[1..], input.l[..63]);
}

#[test]
fn a_transparent_fixed_preamp_changes_nothing() {
    let input = ramp_bus(64);
    let mut bus = ramp_bus(64);
    let mut preamp: PreampEffect<Fixed, HarmonicStage<Fixed>> = PreampEffect::new(
        PreampParams {
            drive_db: Fixed::of(0),
            voicing: PreampVoicing::Moo,
            mix: share(1, 3),
            output_db: Fixed::of(0),
        },
        48_000,
    );
    assert_eq!(preamp.drive.value(), Fixed::of(1));
    preamp.process(&context(64), &mut bus, &Events::empty());
    assert_eq!((bus.l, bus.r), (input.l, input.r));
}

#[test]
fn a_crushed_fixed_sample_lies_on_the_grid() {
    let mut bus = ramp_bus(64);
    let mut effect = BitcrushEffect::new(BitcrushParams {
        bits: Fixed::of(3),
        downsample: Fixed::of(1),
        mix: Fixed::of(1),
        style: BitcrushStyle::Crush,
    });
    effect.process(&context(64), &mut bus, &Events::empty());
    let step = bus.l.iter().map(|x| x.raw.abs()).filter(|&x| x > 0).min().unwrap();
    assert!(bus.l.iter().all(|x| x.raw % step == 0));
}

#[test]
fn a_quiet_fixed_signal_leaves_a_limiter_only_late() {
    let input = ramp_bus(64);
    let mut bus = ramp_bus(64);
    let mut limiter: LimiterEffect<Fixed, Fixed> = LimiterEffect::new(
        LimiterParams {
            ceiling_db: Fixed::of(0),
            release_ms: Fixed::of(50),
            gain_db: Fixed::of(0),
        },
        48_000,
        10,
    );
    for x in bus.l.iter_mut().chain(bus.r.iter_mut()) {
        *x = Fixed { raw: x.raw / 8 };
    }
    limiter.process(&context(64), &mut bus, &Events::empty());
    for i in 10..64 {
        assert_eq!(bus.l[i], Fixed { raw: input.l[i - 10].raw / 8 });
    }
}

#[test]
fn a_fade_reaches_both_of_its_ends() {
    let slot = PluginSlotId { raw: 1 };
    let mut source: HostedSource<(), Fixed> = HostedSource::with_processor(slot, ());
    let block = |source: &mut HostedSource<(), Fixed>| {
        let mut bus = StereoBus::with_capacity(64);
        let frames = source.begin_block(&context(64), &mut bus);
        bus.l.fill(Fixed::of(1));
        source.apply_fade(&mut bus, frames);
        bus.l
    };
    assert!(block(&mut source).iter().all(|x| *x == Fixed::of(1)));
    let mut heard = Vec::new();
    while !source.ready_for_processor_swap(slot, 64) {
        heard.extend(block(&mut source));
    }
    assert_eq!(heard.last(), Some(&Fixed::of(0)));
    assert!(source.host_processor(slot, Some(())).is_ok());
    for _ in 0..30 {
        heard.extend(block(&mut source));
    }
    assert_eq!(heard.last(), Some(&Fixed::of(1)));
    let step = ONE / (35 * 48) + 2;
    assert!(heard.windows(2).all(|w| (w[1].raw - w[0].raw).abs() <= step));
}

#[test]
fn the_matrix_twice_is_nothing_at_all() {
    let values: [Fixed; LINES] = core::array::from_fn(|i| share(3 * i as i64 - 10, 7));
    let mut mixed = values;
    hadamard(&mut mixed);
    let energy = |v: &[Fixed; LINES]| v.iter().map(|x| (x.raw as i128).pow(2)).sum::<i128>();
    let (before, after) = (energy(&values), energy(&mixed));
    assert_ne!(mixed, values);
    assert!((before - after).abs() <= before / 1_000_000);
    hadamard(&mut mixed);
    for (back, value) in mixed.iter().zip(values) {
        assert!((back.raw - value.raw).abs() <= value.raw.abs() / 7_000_000 + 4);
    }
}

#[test]
fn full_scale_weights_are_the_shares() {
    let profile = HarmonicProfile::new(Fixed { raw: -20 * ONE }, Fixed { raw: -40 * ONE });
    let (second, third, fundamental) = solve_at::<Fixed, Fixed>(profile, Fixed::of(1));
    assert_eq!(second, Fixed::of(10).powf(Fixed { raw: -ONE }));
    assert_eq!(third, Fixed::of(10).powf(Fixed { raw: -2 * ONE }));
    assert!((second.raw - ONE / 10).abs() <= ONE / 400 && third.raw < second.raw / 8);
    assert_eq!(fundamental, Fixed::of(1));
    let absent = HarmonicProfile::new(Fixed { raw: -120 * ONE }, Fixed { raw: -130 * ONE });
    assert_eq!(
        solve_at::<Fixed, Fixed>(absent, share(1, 4)),
        (Fixed::of(0), Fixed::of(0), Fixed::of(1))
    );
}

#[test]
fn solved_weights_hit_the_profile_below_full_scale() {
    let profile = HarmonicProfile::new(Fixed { raw: -20 * ONE }, Fixed { raw: -40 * ONE });
    let (t2, t3, _) = solve_at::<Fixed, Fixed>(profile, Fixed::of(1));
    for a in [share(1, 64), share(1, 4), share(9, 10)] {
        let (second, third, ratio) = solve_at::<Fixed, Fixed>(profile, a);
        let left = ratio.mul(a);
        let close = |x: Fixed, y: Fixed| (x.raw - y.raw).abs() <= 20;
        assert!(close(second.mul(a).mul(a), t2.mul(left)));
        assert!(close(third.mul(a).mul(a).mul(a), t3.mul(left)));
        assert!(0 < left.raw && left.raw < a.raw);
    }
}

#[test]
fn an_envelope_is_a_gain_and_ends() {
    let shape = |gate: bool| AhdShape {
        attack_s: share(1, 1_000),
        hold_s: share(1, 1_000),
        decay_s: share(1, 100),
        curve: share(1, 2),
        sustain: share(1, 2),
        release_s: share(1, 200),
        gate,
    };
    for gate in [false, true] {
        let mut env = Ahd::new();
        env.trigger(shape(gate), 48_000);
        let mut frames = 0;
        while !env.is_idle() && !env.is_sustaining() {
            let level = env.tick();
            assert!(0 <= level.raw && level.raw <= ONE);
            frames += 1;
        }
        assert!(frames <= 48 + 48 + 480 + 4);
        assert_eq!(env.level(), if gate { share(1, 2) } else { Fixed::of(0) });
    }
}

#[test]
fn a_run_of_fixed_needs_holds_the_least_of_its_window() {
    let needs = [9, 4, 7, 7, 8, 2, 5, 6, 9, 9, 9, 1, 3].map(|n| share(n, 10));
    let mut queue = SlidingMin::new(4);
    for at in 0..needs.len() {
        let held = queue.sliding_min(needs[at]);
        let window = &needs[at.saturating_sub(3)..=at];
        assert_eq!(held.raw, window.iter().map(|n| n.raw).min().unwrap());
    }
}

#[test]
fn an_empty_stage_and_a_pole_at_rest_stay_so() {
    let mut stage = Biquad::<Fixed>::identity();
    stage.b0 = share(3, 4);
    stage.a1 = share(-9, 5);
    assert!((0..100).all(|_| stage.process(Fixed::of(0)) == Fixed::of(0)));
    assert!(stage.is_at_rest(Fixed::of(0)));
    stage.z1 = share(-1, 1_000_000);
    assert!(stage.is_at_rest(share(1, 1_000_000)));
    assert_eq!(stage.process(Fixed::of(0)), share(-1, 1_000_000));

    let mut svf = Svf { low: share(1, 1_000_000), band: share(-1, 1_000_000) };
    let coeffs = SvfCoeffs::for_cutoff(Fixed::of(2_000), share(1, 2), 48_000);
    let (low, band, high) = svf.tick_with(Fixed::of(0), &coeffs);
    let threshold = share(1, 1_000_000).raw;
    assert!(low.raw.abs() <= 2 * threshold && band.raw.abs() <= 2 * threshold);
    assert!(high.raw.abs() <= 6 * threshold);

    let mut pole = OnePoleLp::new();
    pole.set_cutoff(Fixed::of(500), 48_000);
    pole.next_sample(Fixed::of(1));
    let threshold = share(1, 1_000_000);
    while !pole.is_at_rest(threshold) {
        pole.next_sample(Fixed::of(0));
    }
    for _ in 0..1_000 {
        assert!(pole.next_sample(Fixed::of(0)).raw.abs() <= threshold.raw);
        assert!(pole.is_at_rest(threshold));
    }
}

#[test]
fn a_device_that_may_be_left_alone_stays_silent() {
    let silent = |bus: &StereoBus<Fixed>| {
        bus.l.iter().chain(bus.r.iter()).all(|x| *x == Fixed::of(0))
    };
    let none = Events::empty();

    let mut gate = GateEffect::new(
        GateParams {
            threshold_db: Fixed { raw: -40 * ONE },
            attack_ms: Fixed::of(1),
            hold_ms: Fixed::of(5),
            release_ms: Fixed::of(10),
            range_db: Fixed { raw: -60 * ONE },
        },
        48_000,
    );
    gate.process(&context(64), &mut ramp_bus(64), &none);
    assert!(!gate.is_at_rest());
    for _ in 0..400 {
        gate.process(&context(64), &mut StereoBus::with_capacity(64), &none);
    }
    assert!(gate.is_at_rest());
    let mut bus = StereoBus::with_capacity(64);
    gate.process(&context(64), &mut bus, &none);
    assert!(silent(&bus) && gate.is_at_rest());

    let mut limiter: LimiterEffect<Fixed, Fixed> = LimiterEffect::new(
        LimiterParams {
            ceiling_db: Fixed { raw: -6 * ONE },
            release_ms: Fixed::of(5),
            gain_db: Fixed::of(0),
        },
        48_000,
        10,
    );
    limiter.process(&context(64), &mut ramp_bus(64), &none);
    assert!(!limiter.is_at_rest());
    limiter.process(&context(10), &mut StereoBus::with_capacity(10), &none);
    let mut bus = StereoBus::with_capacity(64);
    limiter.process(&context(64), &mut bus, &none);
    assert!(silent(&bus));

    for style in [
        BitcrushStyle::Crush,
        BitcrushStyle::Glide,
        BitcrushStyle::Mu,
    ] {
        let mut crusher = BitcrushEffect::new(BitcrushParams {
            bits: Fixed::of(4),
            downsample: Fixed::of(3),
            mix: Fixed::of(1),
            style,
        });
        assert!(crusher.is_at_rest(Fixed::of(0)));
        let mut bus = StereoBus::with_capacity(64);
        crusher.process(&context(64), &mut bus, &none);
        assert!(silent(&bus) && crusher.is_at_rest(Fixed::of(0)));
    }

    let mut filter = FilterEffect::new(
        FilterParams {
            cutoff_hz: Fixed::of(1_000),
            resonance: share(9, 10),
            mode: FilterMode::HighPass,
            slope: FilterSlope::Db24,
            drive: share(1, 2),
        },
        48_000,
        share(1, 4),
    );
    assert!(filter.is_at_rest(Fixed::of(0)));
    let mut bus = StereoBus::with_capacity(64);
    filter.process(&context(64), &mut bus, &none);
    assert!(silent(&bus) && filter.is_at_rest(Fixed::of(0)));
}

#[test]
fn a_fixed_slide_lands_within_a_millionth() {
    for (from, to) in [(220, 440), (440, 55), (20, 18_000), (1, 3)] {
        let mut glide = Glide::new(Fixed::of(from));
        glide.slide_to(Fixed::of(to), share(1, 100), 48_000);
        for _ in 0..479 {
            glide.advance();
            assert!(glide.is_sliding());
        }
        let landed = glide.advance();
        assert!(!glide.is_sliding());
        assert!(1_000_000 * (landed.raw - Fixed::of(to).raw).abs() <= Fixed::of(to).raw);
        assert_eq!(glide.advance(), landed);
    }
}

#[test]
fn every_fixed_coefficient_is_short_of_one() {
    for hz in [0, 60, 220, 1_000, 6_160, 12_000, 20_000, 23_900] {
        let coefficient = allpass_coefficient(Fixed::of(hz), 48_000);
        assert!(coefficient.raw.abs() <= share(999, 1_000).raw, "{hz} Hz");
    }
}

#[test]
fn a_comb_loses_its_gain_on_every_trip() {
    let still = Fixed::of(0);
    let mut comb: Comb<Fixed> = Comb::new(100, 44_100);
    comb.set_damping(44_100, still);
    comb.feedback = share(1, 2);
    comb.process(Fixed::of(1), still);
    let mut loudest = ONE;
    for _ in 0..20 {
        let trip = (0..104).map(|_| comb.process(Fixed::of(0), still).raw.abs()).max().unwrap();
        assert!(trip <= loudest);
        loudest = trip;
    }
    assert!(loudest <= ONE / 100_000);
}

#[test]
fn an_allpass_forgets_half_a_trip_at_a_time() {
    let still = Fixed::of(0);
    let mut allpass: SchroederAllpass<Fixed> = SchroederAllpass::new(50, 44_100);
    allpass.process(Fixed::of(1), still);
    let trips: Vec<i64> = (0..20)
        .map(|_| (0..50).map(|_| allpass.process(Fixed::of(0), still).raw.abs()).max().unwrap())
        .collect();
    assert!(trips.windows(2).all(|w| 2 * w[1] <= w[0] + 2));
    assert!(trips[0] > 0 && trips[19] < ONE / 100_000);
}

#[test]
fn the_trips_of_a_fixed_tail_are_enough() {
    for (gain, trip) in [(share(1, 2), 100), (share(9, 10), 480), (share(1, 100), 7)] {
        let frames = feedback_tail_frames(gain, Fixed::of(trip)) as usize;
        let mut level = Fixed::of(1_000);
        for _ in 0..frames / trip {
            level = level.mul(gain);
        }
        assert!(3_800_000 * level.raw as i128 <= Fixed::of(1_000).raw as i128);
        assert!(frames >= trip);
    }
    assert_eq!(feedback_tail_frames(Fixed::of(1), Fixed::of(100)), u32::MAX);
}

#[test]
fn a_fixed_delay_is_quiet_after_its_tail() {
    let mut delay = DelayEffect::new(
        DelayParams {
            time_ms: Fixed::of(10),
            tempo_sync: false,
            time_division: DelayTimeDivision::quarter(),
            feedback: share(1, 2),
            mode: DelayMode::Digital,
            cross: share(1, 4),
            tone: Fixed::of(1),
            mix: Fixed::of(1),
        },
        48_000,
        Fixed::of(100),
    );
    let none = Events::empty();
    delay.process(&context(512), &mut ramp_bus(512), &none);
    let mut bus = StereoBus::with_capacity(512);
    delay.process(&context(512), &mut bus, &none);
    assert!(bus.l.iter().any(|x| x.raw.abs() > ONE / 8));
    let tail = delay.tail_frames() as usize;
    for _ in 0..tail / 512 + 1 {
        delay.process(&context(512), &mut StereoBus::with_capacity(512), &none);
    }
    let mut bus = StereoBus::with_capacity(512);
    delay.process(&context(512), &mut bus, &none);
    assert!(bus.l.iter().chain(bus.r.iter()).all(|x| x.raw.abs() <= ONE / 1_000_000));
}

#[test]
fn a_fixed_chorus_dies_away() {
    let mut chorus = ModulationEffect::new(
        ModulationParams {
            mode: ModulationMode::Chorus,
            rate_hz: share(1, 2),
            depth: share(1, 2),
            color: share(1, 2),
            feedback: share(1, 2),
            spread: share(1, 2),
            tone: Fixed::of(1),
            stages: 4,
        },
        48_000,
    );
    let none = Events::empty();
    chorus.process(&context(512), &mut ramp_bus(512), &none);
    for _ in 0..200 {
        chorus.process(&context(512), &mut StereoBus::with_capacity(512), &none);
    }
    let mut bus = StereoBus::with_capacity(512);
    chorus.process(&context(512), &mut bus, &none);
    assert!(bus.l.iter().chain(bus.r.iter()).all(|x| x.raw.abs() <= 1_000));
}

#[test]
fn a_crusher_at_rest_stays_within_twice_its_threshold() {
    let threshold = share(1, 10_000);
    let mut crusher = BitcrushEffect::new(BitcrushParams {
        bits: Fixed::of(14),
        downsample: Fixed::of(40),
        mix: Fixed::of(1),
        style: BitcrushStyle::Crush,
    });
    let none = Events::empty();
    let mut bus = StereoBus::with_capacity(1);
    bus.l[0] = threshold;
    bus.r[0] = threshold.neg();
    crusher.process(&context(1), &mut bus, &none);
    assert!(crusher.is_at_rest(threshold) && !crusher.is_at_rest(Fixed::of(0)));
    let mut bus = StereoBus::with_capacity(30);
    crusher.process(&context(30), &mut bus, &none);
    assert!(bus.l.iter().all(|x| 0 < x.raw && x.raw <= 2 * threshold.raw));
    assert!(bus.r.iter().all(|x| x.raw.abs() <= 2 * threshold.raw));
    assert!(crusher.is_at_rest(threshold));
}

#[test]
fn a_ringing_fixed_stage_does_not_grow() {
    for (hz, resonance) in [(100, 0), (1_000, 10), (8_000, 10)] {
        let coeffs = SvfCoeffs::for_cutoff(Fixed::of(hz), share(resonance, 10), 48_000);
        let mut svf = Svf { low: Fixed { raw: 900_000 }, band: Fixed { raw: -400_000 } };
        let energy = |svf: &Svf<Fixed>| {
            (svf.low.raw as i128).pow(2) + (svf.band.raw as i128).pow(2)
        };
        for _ in 0..200 {
            let before = energy(&svf);
            svf.tick_with(Fixed::of(0), &coeffs);
            assert!(energy(&svf) <= before + 2_750 * 1_000_001);
        }
        assert!(energy(&svf) <= 900_000i128.pow(2) + 400_000i128.pow(2));
    }
}

#[test]
fn a_pass_through_the_matrix_at_half_gain_quarters_the_energy() {
    let values: [Fixed; LINES] = core::array::from_fn(|i| share(5 * i as i64 - 17, 3));
    let mut returned = values.map(|value| value.mul(share(1, 2)));
    hadamard(&mut returned);
    let energy = |v: &[Fixed; LINES]| v.iter().map(|x| (x.raw as i128).pow(2)).sum::<i128>();
    assert!(4 * 7_000_000 * energy(&returned) <= 7_000_001 * energy(&values));
    assert!(5 * energy(&returned) > energy(&values));
}

#[test]
fn two_latches_forget_what_a_crusher_held() {
    let mut crusher = BitcrushEffect::new(BitcrushParams {
        bits: Fixed::of(8),
        downsample: Fixed::of(3),
        mix: Fixed::of(1),
        style: BitcrushStyle::Glide,
    });
    let none = Events::empty();
    crusher.process(&context(64), &mut ramp_bus(64), &none);
    assert!(!crusher.is_at_rest(Fixed::of(0)));
    crusher.process(&context(6), &mut StereoBus::with_capacity(6), &none);
    assert!(crusher.is_at_rest(Fixed::of(0)));
}
