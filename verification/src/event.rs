//! The events that flow through the engine.

use vstd::prelude::*;
use crate::ratio::UNIT;

verus! {

/// Number of MIDI channels; channels are numbered from zero.
pub const CHANNELS: u8 = 16;

/// Highest MIDI note number.
pub const MAX_NOTE: u8 = 127;

/// A timestamped event of one processing block. `timing` is the offset from
/// the start of the block; equal timings mean simultaneous events.
/// A velocity `v` stands for the fraction `v / UNIT`.
#[derive(Clone, Copy, Debug, PartialEq, Eq, Structural)]
pub enum Event {
    NoteOn { timing: u32, channel: u8, note: u8, velocity: u32 },
    NoteOff { timing: u32, channel: u8, note: u8, velocity: u32 },
    /// Anything that is not a note: controllers, pitch bend and the like.
    Other,
}

impl Event {
    /// The fields are in their MIDI ranges.
    pub open spec fn in_range(self) -> bool {
        match self {
            Event::NoteOn { channel, note, velocity, .. } => channel < CHANNELS && note <= MAX_NOTE
                && velocity <= UNIT,
            Event::NoteOff { channel, note, velocity, .. } => channel < CHANNELS && note
                <= MAX_NOTE && velocity <= UNIT,
            Event::Other => true,
        }
    }

    /// Whether this is a note-on event on `channel`.
    pub open spec fn is_note_on_at(self, channel: u8) -> bool {
        self matches Event::NoteOn { channel: c, .. } && c == channel
    }

    /// The timing of a note event; zero for the others.
    pub open spec fn timing(self) -> u32 {
        match self {
            Event::NoteOn { timing, .. } => timing,
            Event::NoteOff { timing, .. } => timing,
            Event::Other => 0,
        }
    }
}

} // verus!
