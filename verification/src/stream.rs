//! A block seen as a whole: which notes sound together, and what the
//! output must hold for them.

use vstd::prelude::*;
use crate::accumulator::{Side, Sums};
use crate::config::EngineConfig;
use crate::engine::is_source;
use crate::event::{Event, MAX_NOTE};
use crate::ratio::UNIT;

verus! {

/// The source events come in the order of their timings.
pub open spec fn source_timings_ordered(cfg: EngineConfig, events: Seq<Event>) -> bool {
    forall|i: int, j: int|
        0 <= i <= j < events.len() && is_source(cfg, #[trigger] events[i]) && is_source(
            cfg,
            #[trigger] events[j],
        ) ==> events[i].timing() <= events[j].timing()
}

/// Some source event has timing `t`.
pub open spec fn has_source_at(cfg: EngineConfig, events: Seq<Event>, t: u32) -> bool {
    exists|i: int|
        0 <= i < events.len() && is_source(cfg, #[trigger] events[i]) && events[i].timing() == t
}

/// The note-on events on `channel` with timing `t`: how many there are, and
/// the sums of their pitches and velocities.
pub open spec fn side_at(events: Seq<Event>, channel: u8, t: u32) -> Side
    decreases events.len(),
{
    if events.len() == 0 {
        Side::empty()
    } else {
        let before = side_at(events.drop_last(), channel, t);
        match events.last() {
            Event::NoteOn { timing, channel: c, note, velocity } if c == channel && timing == t
                => before.add(note, velocity),
            _ => before,
        }
    }
}

/// What the two source channels play at timing `t`.
pub open spec fn group_at(cfg: EngineConfig, events: Seq<Event>, t: u32) -> Sums {
    Sums {
        a: side_at(events, cfg.spec_channel_a(), t),
        b: side_at(events, cfg.spec_channel_b(), t),
    }
}

/// The channel of the first source event later than `t`, if there is one.
pub open spec fn first_later(cfg: EngineConfig, events: Seq<Event>, t: u32) -> Option<u8>
    decreases events.len(),
{
    if events.len() == 0 {
        None
    } else {
        match first_later(cfg, events.drop_last(), t) {
            Some(c) => Some(c),
            None => if is_source(cfg, events.last()) && events.last().timing() > t {
                Some(events.last()->NoteOn_channel)
            } else {
                None
            },
        }
    }
}

/// The channel on which the group with timing `t` is emitted: that of the
/// source event that closes the group, or channel A for the group that is
/// still held when the block ends.
pub open spec fn closing_channel(cfg: EngineConfig, events: Seq<Event>, t: u32) -> u8 {
    match first_later(cfg, events, t) {
        Some(c) => c,
        None => cfg.spec_channel_a(),
    }
}

/// The note that the output must hold for the source events with timing `t`.
pub open spec fn synthesized_note(cfg: EngineConfig, events: Seq<Event>, t: u32) -> Event
    recommends
        has_source_at(cfg, events, t),
{
    group_at(cfg, events, t).synthesized(
        t,
        closing_channel(cfg, events, t),
        cfg.spec_mix() as int,
    )
}

/// Notes that sound together: one note-on on `channel` with timing `timing`
/// for each pair of a pitch and a velocity.
pub open spec fn chord(notes: Seq<(u8, u32)>, channel: u8, timing: u32) -> Seq<Event> {
    Seq::new(
        notes.len(),
        |i: int| Event::NoteOn { timing, channel, note: notes[i].0, velocity: notes[i].1 },
    )
}

/// The sum of the pitches of `notes`.
pub open spec fn pitch_sum(notes: Seq<(u8, u32)>) -> nat
    decreases notes.len(),
{
    if notes.len() == 0 {
        0
    } else {
        pitch_sum(notes.drop_last()) + notes.last().0 as nat
    }
}

/// The sum of the velocities of `notes`.
pub open spec fn velocity_sum(notes: Seq<(u8, u32)>) -> nat
    decreases notes.len(),
{
    if notes.len() == 0 {
        0
    } else {
        velocity_sum(notes.drop_last()) + notes.last().1 as nat
    }
}

/// Tells the events that the engine forwards from those that it replaces.
pub open spec fn is_forwarded(cfg: EngineConfig) -> spec_fn(Event) -> bool {
    |e: Event| !is_source(cfg, e)
}

/// Tells the note-on events on a source channel with timing `t`. In an
/// output these are synthesized notes: a source event is never forwarded.
pub open spec fn is_synthesized_at(cfg: EngineConfig, t: u32) -> spec_fn(Event) -> bool {
    |e: Event| is_source(cfg, e) && e.timing() == t
}

/// A side is empty where no note-on of its channel has timing `t`.
pub proof fn lemma_side_at_empty(events: Seq<Event>, channel: u8, t: u32)
    requires
        forall|i: int|
            0 <= i < events.len() && (#[trigger] events[i]).is_note_on_at(channel)
                ==> events[i].timing() != t,
    ensures
        side_at(events, channel, t) == Side::empty(),
    decreases events.len(),
{
    if events.len() > 0 {
        let init = events.drop_last();
        assert forall|i: int| 0 <= i < init.len() && (#[trigger] init[i]).is_note_on_at(
            channel,
        ) implies init[i].timing() != t by {
            assert(init[i] == events[i]);
        }
        lemma_side_at_empty(init, channel, t);
        assert(events.last() == events[events.len() - 1]);
    }
}

/// A side counts a note where a note-on of its channel has timing `t`, and
/// only there.
pub proof fn lemma_side_at_count(events: Seq<Event>, channel: u8, t: u32)
    ensures
        side_at(events, channel, t).count > 0 <==> exists|i: int|
            0 <= i < events.len() && (#[trigger] events[i]).is_note_on_at(channel)
                && events[i].timing() == t,
    decreases events.len(),
{
    if events.len() > 0 {
        let init = events.drop_last();
        let last = events.last();
        lemma_side_at_count(init, channel, t);
        if side_at(events, channel, t).count > 0 {
            if last.is_note_on_at(channel) && last.timing() == t {
                assert(events[events.len() - 1] == last);
            } else {
                let i = choose|i: int|
                    0 <= i < init.len() && (#[trigger] init[i]).is_note_on_at(channel)
                        && init[i].timing() == t;
                assert(events[i] == init[i]);
            }
        }
        if exists|i: int|
            0 <= i < events.len() && (#[trigger] events[i]).is_note_on_at(channel)
                && events[i].timing() == t {
            let i = choose|i: int|
                0 <= i < events.len() && (#[trigger] events[i]).is_note_on_at(channel)
                    && events[i].timing() == t;
            if i < init.len() {
                assert(init[i] == events[i]);
            }
        }
    }
}

/// The group with timing `t` holds something where a source event has that
/// timing, and only there.
pub proof fn lemma_group_at_holds(cfg: EngineConfig, events: Seq<Event>, t: u32)
    ensures
        !group_at(cfg, events, t).is_empty() <==> has_source_at(cfg, events, t),
{
    let a = cfg.spec_channel_a();
    let b = cfg.spec_channel_b();
    lemma_side_at_count(events, a, t);
    lemma_side_at_count(events, b, t);
    if has_source_at(cfg, events, t) {
        let i = choose|i: int|
            0 <= i < events.len() && is_source(cfg, #[trigger] events[i]) && events[i].timing()
                == t;
        assert(events[i].is_note_on_at(a) || events[i].is_note_on_at(b));
    }
    if side_at(events, a, t).count > 0 {
        let i = choose|i: int|
            0 <= i < events.len() && (#[trigger] events[i]).is_note_on_at(a)
                && events[i].timing() == t;
        assert(is_source(cfg, events[i]));
    }
    if side_at(events, b, t).count > 0 {
        let i = choose|i: int|
            0 <= i < events.len() && (#[trigger] events[i]).is_note_on_at(b)
                && events[i].timing() == t;
        assert(is_source(cfg, events[i]));
    }
}

/// There is a first source event later than `t` where there is any, and it
/// is on a source channel.
pub proof fn lemma_first_later(cfg: EngineConfig, events: Seq<Event>, t: u32)
    ensures
        first_later(cfg, events, t) is None <==> forall|i: int|
            0 <= i < events.len() && is_source(cfg, #[trigger] events[i]) ==> events[i].timing()
                <= t,
        first_later(cfg, events, t) matches Some(c) ==> c == cfg.spec_channel_a() || c
            == cfg.spec_channel_b(),
    decreases events.len(),
{
    if events.len() > 0 {
        let init = events.drop_last();
        let last = events.last();
        lemma_first_later(cfg, init, t);
        assert(events[events.len() - 1] == last);
        if first_later(cfg, events, t) is None {
            assert forall|i: int|
                0 <= i < events.len() && is_source(cfg, #[trigger] events[i])
                implies events[i].timing() <= t by {
                if i < init.len() {
                    assert(init[i] == events[i]);
                }
            }
        } else if first_later(cfg, init, t) is Some {
            let i = choose|i: int|
                0 <= i < init.len() && is_source(cfg, #[trigger] init[i]) && init[i].timing() > t;
            assert(events[i] == init[i]);
        }
    }
}

/// The sums of a side are those of notes of type `u8` and velocities of type
/// `u32`, and of notes and velocities in their MIDI ranges where the events
/// are.
pub proof fn lemma_side_at_within(events: Seq<Event>, channel: u8, t: u32)
    ensures
        side_at(events, channel, t).within(u8::MAX as int, u32::MAX as int),
        (forall|i: int| 0 <= i < events.len() ==> (#[trigger] events[i]).in_range()) ==> side_at(
            events,
            channel,
            t,
        ).within(MAX_NOTE as int, UNIT as int),
    decreases events.len(),
{
    if events.len() > 0 {
        let init = events.drop_last();
        lemma_side_at_within(init, channel, t);
        if forall|i: int| 0 <= i < events.len() ==> (#[trigger] events[i]).in_range() {
            assert forall|i: int| 0 <= i < init.len() implies (#[trigger] init[i]).in_range() by {
                assert(init[i] == events[i]);
            }
            assert(events[events.len() - 1].in_range());
        }
    }
}

/// A chord counts once for each of its notes, with the sums of their
/// pitches and velocities.
pub proof fn lemma_side_at_chord(notes: Seq<(u8, u32)>, channel: u8, timing: u32)
    ensures
        side_at(chord(notes, channel, timing), channel, timing) == (Side {
            count: notes.len(),
            note_sum: pitch_sum(notes),
            velocity_sum: velocity_sum(notes),
        }),
    decreases notes.len(),
{
    if notes.len() > 0 {
        lemma_side_at_chord(notes.drop_last(), channel, timing);
        assert(chord(notes, channel, timing).drop_last() == chord(
            notes.drop_last(),
            channel,
            timing,
        ));
    }
}

} // verus!
