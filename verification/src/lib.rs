//! Blends the note-on events of two MIDI channels into one synthesized note
//! per timestamp, by averaging each channel and interpolating between the two
//! averages with a mix ratio. Everything else in the stream is forwarded.
//!
//! Velocities and the mix ratio are fixed-point fractions of [`ratio::UNIT`],
//! so that every result is an exact rational rounded once.
//!
//! * [`engine`] holds the engine: [`engine::process`] for a whole block, and
//!   [`engine::Engine`] for one event at a time.
//! * [`accumulator`] holds what the source channels have played since the
//!   last flush, and [`blend`] the interpolation between their means.
//! * [`config`] accepts the three parameters.
//! * [`stream`] describes a block as a whole, and [`theorems`] proves what
//!   the engine makes of it.

pub mod accumulator;
pub mod blend;
pub mod config;
pub mod engine;
pub mod event;
pub mod ratio;
pub mod stream;
pub mod theorems;
