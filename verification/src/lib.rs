//! The sample-level logic of an audio engine, verified with Verus.
pub mod assembly_laws;
pub mod biquad;
pub mod bitcrush;
pub mod bus;
pub mod bus_comp;
pub mod channel_laws;
pub mod curves;
pub mod delay;
pub mod delayline;
pub mod drive;
pub mod dynamics;
pub mod effects;
pub mod env;
pub mod eq;
pub mod event;
pub mod filter;
pub mod filter_effect;
pub mod fitting_laws;
pub mod fold;
pub mod glide;
pub mod hall;
pub mod hall_laws;
pub mod harmonic_laws;
pub mod harmonics;
pub mod heldnotes;
pub mod hosted_source;
pub mod level;
pub mod lfo;
pub mod limiter;
pub mod lookahead;
pub mod modulation;
pub mod modulation_laws;
pub mod motion_laws;
pub mod node;
pub mod num;
pub mod placeholder;
pub mod plate;
pub mod plate_laws;
pub mod preamp;
pub mod render_laws;
pub mod response_laws;
pub mod reverb;
pub mod ring;
pub mod shape_laws;
pub mod smooth;
pub mod split;
pub mod stage_laws;
pub mod tuning_laws;
pub mod voice_laws;
