# mooloop_dsp

The sample-level logic of an audio engine, verified with Verus: filters,
envelopes, glides, harmonics, event lists, held notes, and the inserts of a
rack (equalizer, modulation, filter, drive, preamp, bitcrush, delay, reverb,
plate, dynamics, containers and plugin slots).

## Numbers

Everything is written over two traits. `Sample` (`src/num.rs`) is the
arithmetic of a sample, and `Curves` (`src/curves.rs`) its transcendental
functions. Each method's contract names its result, so that a contract over
samples says which operations are applied to what, in which order, whatever
the samples are. `Fixed`, a saturating 64-bit fixed-point number, implements
both and is what laws about magnitudes are proved of: that a ladder never
leaves its range, that a limiter keeps under its ceiling, that an envelope
ends. Floating-point samples are in `app/number.rs`.

## Effects

An effect is a step from its state and a frame to its next state and what is
heard. `src/fold.rs` runs a step over a range, and says that rendering in
pieces is rendering. `src/split.rs` cuts a block at its events or at its
control ticks, and a block's contract is the plan it carries out. Where a
device keeps rings, its view is what the rings hold, newest first.

The engine has parts of its own that this library does not hold, and it meets
them in two ways.

Three of them are traits (`Saturator`, `Stage`, `BusSection`) whose methods name
their results, and the device around each is verified for every implementation:
the drive's oversampled saturator, the preamp's stage with its tilt filters, and
the bus compressor's section of the channel strip. `SoftClip`, `HarmonicStage`
and `CompressorEffect` stand in for them: they implement the traits simply, so
that the devices can be run and tested, and are not the engine's own sound.
`app/insert.rs` takes the engine's as type parameters.

The small building blocks are written out here, each to its usual textbook form
and to what its users ask of it: the filter's two-stage cascade
(`src/filter_effect.rs`), the envelope follower and the decibel curves
(`src/level.rs`), the one-pole lag (`src/smooth.rs`), the delay line
(`src/delayline.rs`), the biquads (`src/biquad.rs`) and the oscillator
(`src/lfo.rs`). They are this library's own reading, and every contract above
them is a statement about these.

## Layout

- `src/`: the library.
- `tests/`: what it does with single-precision samples.
- `app/`: floating-point samples, and the inserts and hosted instruments
  behind one trait.
