//! The block-scoped accumulator: what the two source channels have played
//! since the last flush, and the note that a flush makes of it.

use vstd::prelude::*;
use crate::blend::{
    blend, interpolate, lemma_blend_at_unit, lemma_blend_at_zero, lemma_blend_between,
    lemma_blend_equal_means,
};
use crate::event::Event;
use crate::ratio::{lemma_round_half_up_between, round_half_up, UNIT};

verus! {

/// What one side has accumulated: how many notes, and the sums of their
/// pitches and velocities.
pub struct Side {
    pub count: nat,
    pub note_sum: nat,
    pub velocity_sum: nat,
}

impl Side {
    pub open spec fn empty() -> Side {
        Side { count: 0, note_sum: 0, velocity_sum: 0 }
    }

    /// This side after one more note.
    pub open spec fn add(self, note: u8, velocity: u32) -> Side {
        Side {
            count: self.count + 1,
            note_sum: self.note_sum + note as nat,
            velocity_sum: self.velocity_sum + velocity as nat,
        }
    }

    /// The mean pitch, rounded to the nearest note, a tie going up.
    pub open spec fn mean_note(self) -> int
        recommends
            self.count > 0,
    {
        round_half_up(self.note_sum as int, self.count as int)
    }

    /// The mean velocity, rounded to the nearest step, a tie going up.
    pub open spec fn mean_velocity(self) -> int
        recommends
            self.count > 0,
    {
        round_half_up(self.velocity_sum as int, self.count as int)
    }

    /// The note-on that plays the mean of this side alone.
    pub open spec fn as_note(self, timing: u32, channel: u8) -> Event
        recommends
            self.count > 0,
    {
        Event::NoteOn {
            timing,
            channel,
            note: self.mean_note() as u8,
            velocity: self.mean_velocity() as u32,
        }
    }

    /// No note is above `note_cap` and no velocity above `velocity_cap`, as
    /// far as the sums can tell.
    pub open spec fn within(self, note_cap: int, velocity_cap: int) -> bool {
        &&& self.note_sum <= note_cap * self.count
        &&& self.velocity_sum <= velocity_cap * self.count
    }

    /// The rounded means lie within the bounds of the notes, so the casts
    /// in `as_note` lose nothing where the notes fit their fields.
    pub proof fn lemma_mean_within(self, note_cap: int, velocity_cap: int)
        requires
            self.count > 0,
            self.within(note_cap, velocity_cap),
        ensures
            0 <= self.mean_note() <= note_cap,
            0 <= self.mean_velocity() <= velocity_cap,
    {
        lemma_round_half_up_between(self.note_sum as int, self.count as int, 0, note_cap);
        lemma_round_half_up_between(
            self.velocity_sum as int,
            self.count as int,
            0,
            velocity_cap,
        );
    }
}

/// The mathematical content of an accumulator.
pub struct Sums {
    pub a: Side,
    pub b: Side,
}

impl Sums {
    pub open spec fn empty() -> Sums {
        Sums { a: Side::empty(), b: Side::empty() }
    }

    pub open spec fn is_empty(self) -> bool {
        self.a.count == 0 && self.b.count == 0
    }

    pub open spec fn add_a(self, note: u8, velocity: u32) -> Sums {
        Sums { a: self.a.add(note, velocity), b: self.b }
    }

    pub open spec fn add_b(self, note: u8, velocity: u32) -> Sums {
        Sums { a: self.a, b: self.b.add(note, velocity) }
    }

    /// Sums that come from notes of type `u8` and velocities of type `u32`.
    pub open spec fn wf(self) -> bool {
        &&& self.a.within(u8::MAX as int, u32::MAX as int)
        &&& self.b.within(u8::MAX as int, u32::MAX as int)
    }

    /// Sums that come from notes and velocities in their MIDI ranges.
    pub open spec fn in_range(self) -> bool {
        &&& self.a.within(crate::event::MAX_NOTE as int, UNIT as int)
        &&& self.b.within(crate::event::MAX_NOTE as int, UNIT as int)
    }

    /// The side whose mean stands for side A: side A itself, or side B where
    /// side A is empty.
    pub open spec fn lead(self) -> Side {
        if self.a.count > 0 {
            self.a
        } else {
            self.b
        }
    }

    /// The side whose mean stands for side B: side B itself, or what stands
    /// for side A where side B is empty.
    pub open spec fn trail(self) -> Side {
        if self.b.count > 0 {
            self.b
        } else {
            self.lead()
        }
    }

    /// The pitch of the synthesized note.
    pub open spec fn note(self, mix: int) -> int
        recommends
            !self.is_empty(),
    {
        blend(
            self.lead().note_sum as int,
            self.lead().count as int,
            self.trail().note_sum as int,
            self.trail().count as int,
            mix,
        )
    }

    /// The velocity of the synthesized note.
    pub open spec fn velocity(self, mix: int) -> int
        recommends
            !self.is_empty(),
    {
        blend(
            self.lead().velocity_sum as int,
            self.lead().count as int,
            self.trail().velocity_sum as int,
            self.trail().count as int,
            mix,
        )
    }

    /// The note-on synthesized from what is held.
    pub open spec fn synthesized(self, timing: u32, channel: u8, mix: int) -> Event
        recommends
            !self.is_empty(),
    {
        Event::NoteOn {
            timing,
            channel,
            note: self.note(mix) as u8,
            velocity: self.velocity(mix) as u32,
        }
    }

    /// What a flush emits: nothing where nothing was accumulated, else the
    /// synthesized note-on.
    pub open spec fn flushed(self, timing: u32, channel: u8, mix: int) -> Option<Event> {
        if self.is_empty() {
            None
        } else {
            Some(self.synthesized(timing, channel, mix))
        }
    }

    /// With the mix ratio at zero the synthesized note is the mean of side A,
    /// or of side B where side A is empty.
    pub proof fn lemma_mix_zero(self, timing: u32, channel: u8)
        requires
            !self.is_empty(),
        ensures
            self.synthesized(timing, channel, 0) == if self.a.count > 0 {
                self.a.as_note(timing, channel)
            } else {
                self.b.as_note(timing, channel)
            },
    {
        let l = self.lead();
        let t = self.trail();
        lemma_blend_at_zero(l.note_sum as int, l.count as int, t.note_sum as int, t.count as int);
        lemma_blend_at_zero(
            l.velocity_sum as int,
            l.count as int,
            t.velocity_sum as int,
            t.count as int,
        );
    }

    /// With the mix ratio at `UNIT` the synthesized note is the mean of side
    /// B, or of side A where side B is empty.
    pub proof fn lemma_mix_unit(self, timing: u32, channel: u8)
        requires
            !self.is_empty(),
        ensures
            self.synthesized(timing, channel, UNIT as int) == if self.b.count > 0 {
                self.b.as_note(timing, channel)
            } else {
                self.a.as_note(timing, channel)
            },
    {
        let l = self.lead();
        let t = self.trail();
        lemma_blend_at_unit(l.note_sum as int, l.count as int, t.note_sum as int, t.count as int);
        lemma_blend_at_unit(
            l.velocity_sum as int,
            l.count as int,
            t.velocity_sum as int,
            t.count as int,
        );
    }

    /// Where only one side holds notes, the synthesized note is the mean of
    /// that side, whatever the mix ratio.
    pub proof fn lemma_one_side(self, timing: u32, channel: u8, mix: int)
        requires
            !self.is_empty(),
            self.a.count == 0 || self.b.count == 0,
        ensures
            self.synthesized(timing, channel, mix) == if self.a.count > 0 {
                self.a.as_note(timing, channel)
            } else {
                self.b.as_note(timing, channel)
            },
    {
        let l = self.lead();
        assert(self.trail() == l);
        lemma_blend_equal_means(
            l.note_sum as int,
            l.count as int,
            l.note_sum as int,
            l.count as int,
            mix,
        );
        lemma_blend_equal_means(
            l.velocity_sum as int,
            l.count as int,
            l.velocity_sum as int,
            l.count as int,
            mix,
        );
    }

    /// Where the two sides hold the same, the synthesized note is their
    /// common mean, whatever the mix ratio.
    pub proof fn lemma_equal_sides(self, timing: u32, channel: u8, mix: int)
        requires
            !self.is_empty(),
            self.a == self.b,
        ensures
            self.synthesized(timing, channel, mix) == self.a.as_note(timing, channel),
    {
        let l = self.a;
        lemma_blend_equal_means(
            l.note_sum as int,
            l.count as int,
            l.note_sum as int,
            l.count as int,
            mix,
        );
        lemma_blend_equal_means(
            l.velocity_sum as int,
            l.count as int,
            l.velocity_sum as int,
            l.count as int,
            mix,
        );
    }

    /// The synthesized pitch and velocity lie between the bounds of what was
    /// accumulated, so the casts in `synthesized` lose nothing.
    pub proof fn lemma_result_within(self, mix: int, note_cap: int, velocity_cap: int)
        requires
            !self.is_empty(),
            0 <= mix <= UNIT,
            self.a.within(note_cap, velocity_cap),
            self.b.within(note_cap, velocity_cap),
        ensures
            0 <= self.note(mix) <= note_cap,
            0 <= self.velocity(mix) <= velocity_cap,
    {
        let l = self.lead();
        let t = self.trail();
        lemma_blend_between(
            l.note_sum as int,
            l.count as int,
            t.note_sum as int,
            t.count as int,
            mix,
            0,
            note_cap,
        );
        lemma_blend_between(
            l.velocity_sum as int,
            l.count as int,
            t.velocity_sum as int,
            t.count as int,
            mix,
            0,
            velocity_cap,
        );
    }
}

/// Counts and sums of the note-on events of the two source channels since
/// the last flush. A count is wide enough for all the events that a slice
/// can hold, and a sum for as many notes as a count can count.
#[derive(Clone, Copy, Debug, PartialEq, Eq, Structural)]
pub struct Accumulator {
    count_a: u64,
    count_b: u64,
    note_sum_a: u128,
    note_sum_b: u128,
    velocity_sum_a: u128,
    velocity_sum_b: u128,
}

impl View for Accumulator {
    type V = Sums;

    closed spec fn view(&self) -> Sums {
        Sums {
            a: Side {
                count: self.count_a as nat,
                note_sum: self.note_sum_a as nat,
                velocity_sum: self.velocity_sum_a as nat,
            },
            b: Side {
                count: self.count_b as nat,
                note_sum: self.note_sum_b as nat,
                velocity_sum: self.velocity_sum_b as nat,
            },
        }
    }
}

impl Accumulator {
    /// The sums are those of as many notes as the counts say.
    #[verifier::type_invariant]
    spec fn inv(self) -> bool {
        self@.wf()
    }

    /// An accumulator that holds nothing.
    pub fn new() -> (acc: Accumulator)
        ensures
            acc@ == Sums::empty(),
    {
        Accumulator {
            count_a: 0,
            count_b: 0,
            note_sum_a: 0,
            note_sum_b: 0,
            velocity_sum_a: 0,
            velocity_sum_b: 0,
        }
    }

    /// Whether nothing has been accumulated since the last flush.
    pub fn is_empty(&self) -> (r: bool)
        ensures
            r == self@.is_empty(),
    {
        self.count_a == 0 && self.count_b == 0
    }

    /// How many notes side A holds.
    pub fn count_a(&self) -> (n: u64)
        ensures
            n == self@.a.count,
    {
        self.count_a
    }

    /// How many notes side B holds.
    pub fn count_b(&self) -> (n: u64)
        ensures
            n == self@.b.count,
    {
        self.count_b
    }

    /// The sum of the pitches that side A holds.
    pub fn note_sum_a(&self) -> (n: u128)
        ensures
            n == self@.a.note_sum,
    {
        self.note_sum_a
    }

    /// The sum of the pitches that side B holds.
    pub fn note_sum_b(&self) -> (n: u128)
        ensures
            n == self@.b.note_sum,
    {
        self.note_sum_b
    }

    /// The sum of the velocities that side A holds.
    pub fn velocity_sum_a(&self) -> (n: u128)
        ensures
            n == self@.a.velocity_sum,
    {
        self.velocity_sum_a
    }

    /// The sum of the velocities that side B holds.
    pub fn velocity_sum_b(&self) -> (n: u128)
        ensures
            n == self@.b.velocity_sum,
    {
        self.velocity_sum_b
    }

    /// Adds one note to side A.
    pub fn accumulate_a(&mut self, note: u8, velocity: u32)
        requires
            old(self)@.a.count < u64::MAX,
        ensures
            final(self)@ == old(self)@.add_a(note, velocity),
    {
        proof {
            use_type_invariant(&*self);
        }
        self.count_a = self.count_a + 1;
        self.note_sum_a = self.note_sum_a + note as u128;
        self.velocity_sum_a = self.velocity_sum_a + velocity as u128;
    }

    /// Adds one note to side B.
    pub fn accumulate_b(&mut self, note: u8, velocity: u32)
        requires
            old(self)@.b.count < u64::MAX,
        ensures
            final(self)@ == old(self)@.add_b(note, velocity),
    {
        proof {
            use_type_invariant(&*self);
        }
        self.count_b = self.count_b + 1;
        self.note_sum_b = self.note_sum_b + note as u128;
        self.velocity_sum_b = self.velocity_sum_b + velocity as u128;
    }

    /// Turns what is held into one synthesized note-on at `timing` on
    /// `output_channel`, and empties the accumulator. Nothing held, nothing
    /// emitted.
    pub fn flush(&mut self, timing: u32, output_channel: u8, mix: u32) -> (emitted: Option<Event>)
        requires
            mix <= UNIT,
        ensures
            final(self)@ == Sums::empty(),
            emitted == old(self)@.flushed(timing, output_channel, mix as int),
    {
        proof {
            use_type_invariant(&*self);
        }
        if self.count_a == 0 && self.count_b == 0 {
            return None;
        }
        let (lead_count, lead_note, lead_velocity) = if self.count_a > 0 {
            (self.count_a, self.note_sum_a, self.velocity_sum_a)
        } else {
            (self.count_b, self.note_sum_b, self.velocity_sum_b)
        };
        let (trail_count, trail_note, trail_velocity) = if self.count_b > 0 {
            (self.count_b, self.note_sum_b, self.velocity_sum_b)
        } else {
            (lead_count, lead_note, lead_velocity)
        };
        proof {
            self@.lemma_result_within(mix as int, u8::MAX as int, u32::MAX as int);
            assert(lead_note <= u32::MAX * lead_count && trail_note <= u32::MAX * trail_count)
                by (nonlinear_arith)
                requires
                    lead_note <= u8::MAX * lead_count,
                    trail_note <= u8::MAX * trail_count,
            ;
        }
        let note: u32 = interpolate(lead_note, lead_count, trail_note, trail_count, mix);
        let velocity: u32 = interpolate(
            lead_velocity,
            lead_count,
            trail_velocity,
            trail_count,
            mix,
        );
        *self = Accumulator::new();
        Some(Event::NoteOn { timing, channel: output_channel, note: note as u8, velocity })
    }
}

} // verus!
