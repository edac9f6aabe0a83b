//! What holds of every block that the engine processes.

use vstd::prelude::*;
use crate::accumulator::Side;
use crate::config::EngineConfig;
use crate::engine::{
    action, closes_group, closing_note, is_source, output_after, output_of, processed,
    state_after, Action, State,
};
use crate::event::Event;
use crate::ratio::UNIT;
use crate::stream::{
    chord, closing_channel, first_later, group_at, has_source_at, is_forwarded,
    is_synthesized_at, lemma_first_later, lemma_group_at_holds, lemma_side_at_chord,
    lemma_side_at_empty, lemma_side_at_within, pitch_sum, side_at, source_timings_ordered,
    synthesized_note, velocity_sum,
};

verus! {

/// Nothing is picked from nothing.
proof fn lemma_filter_none<A>(pred: spec_fn(A) -> bool)
    ensures
        Seq::<A>::empty().filter(pred) == Seq::<A>::empty(),
{
    reveal(Seq::filter);
}

/// From one element, that element is picked or nothing.
proof fn lemma_filter_one<A>(x: A, pred: spec_fn(A) -> bool)
    ensures
        seq![x].filter(pred) == if pred(x) {
            seq![x]
        } else {
            Seq::empty()
        },
{
    reveal_with_fuel(Seq::filter, 2);
    assert(seq![x].drop_last() == Seq::<A>::empty());
}

/// An emitted note is a source event with the timing that was held.
proof fn lemma_action_emits_source(cfg: EngineConfig, s: State, e: Event)
    ensures
        action(cfg, s, e) matches Action::Emit(note) ==> is_source(cfg, note) && note.timing()
            == s.held_timing,
        action(cfg, s, e) is Forward <==> !is_source(cfg, e),
{
}

/// Every event that is not a note-on of a source channel is in the output,
/// unchanged and in the order in which it came, and the output holds no
/// other event of that kind.
pub proof fn theorem_pass_through(cfg: EngineConfig, events: Seq<Event>)
    ensures
        processed(cfg, events).filter(is_forwarded(cfg)) == events.filter(is_forwarded(cfg)),
{
    let keep = is_forwarded(cfg);
    lemma_output_after_forwards(cfg, events);
    let s = state_after(cfg, events);
    let tail = match closing_note(cfg, s) {
        Some(note) => seq![note],
        None => Seq::empty(),
    };
    Seq::filter_distributes_over_add(output_after(cfg, events), tail, keep);
    match closing_note(cfg, s) {
        Some(note) => {
            lemma_filter_one(note, keep);
        },
        None => {
            lemma_filter_none(keep);
        },
    }
    assert(tail.filter(keep) == Seq::<Event>::empty());
    assert(output_after(cfg, events).filter(keep) + Seq::<Event>::empty() == output_after(
        cfg,
        events,
    ).filter(keep));
}

/// The pass-through of the output before the block ends.
proof fn lemma_output_after_forwards(cfg: EngineConfig, events: Seq<Event>)
    ensures
        output_after(cfg, events).filter(is_forwarded(cfg)) == events.filter(is_forwarded(cfg)),
    decreases events.len(),
{
    let keep = is_forwarded(cfg);
    reveal(Seq::filter);
    if events.len() > 0 {
        let init = events.drop_last();
        let last = events.last();
        let s = state_after(cfg, init);
        let put = output_of(action(cfg, s, last), last);
        lemma_output_after_forwards(cfg, init);
        lemma_action_emits_source(cfg, s, last);
        Seq::filter_distributes_over_add(output_after(cfg, init), put, keep);
        match action(cfg, s, last) {
            Action::Forward => {
                lemma_filter_one(last, keep);
                assert(init.filter(keep) + seq![last] == init.filter(keep).push(last));
            },
            Action::Hold => {
                lemma_filter_none(keep);
                assert(init.filter(keep) + Seq::<Event>::empty() == init.filter(keep));
            },
            Action::Emit(note) => {
                lemma_filter_one(note, keep);
                assert(init.filter(keep) + Seq::<Event>::empty() == init.filter(keep));
            },
        }
    }
}

/// The state so far is the one that the groups of the block call for: the
/// accumulator holds the group of the held timing, and no source event is
/// later than it.
spec fn state_tracks(cfg: EngineConfig, events: Seq<Event>) -> bool {
    let s = state_after(cfg, events);
    &&& s.acc == group_at(cfg, events, s.held_timing)
    &&& first_later(cfg, events, s.held_timing) is None
    &&& (s.held_timing > 0 ==> !s.acc.is_empty())
}

/// The output so far holds the one note of the group with timing `t` if
/// that group is closed, and no note with that timing if it is not.
spec fn group_noted(cfg: EngineConfig, events: Seq<Event>, t: u32) -> bool {
    output_after(cfg, events).filter(is_synthesized_at(cfg, t)) == if t < state_after(
        cfg,
        events,
    ).held_timing && has_source_at(cfg, events, t) {
        seq![synthesized_note(cfg, events, t)]
    } else {
        Seq::empty()
    }
}

/// A block is ordered up to its last event if it is ordered.
proof fn lemma_ordered_prefix(cfg: EngineConfig, events: Seq<Event>)
    requires
        source_timings_ordered(cfg, events),
        events.len() > 0,
    ensures
        source_timings_ordered(cfg, events.drop_last()),
{
    let init = events.drop_last();
    assert forall|i: int, j: int|
        0 <= i <= j < init.len() && is_source(cfg, #[trigger] init[i]) && is_source(
            cfg,
            #[trigger] init[j],
        ) implies init[i].timing() <= init[j].timing() by {
        assert(init[i] == events[i] && init[j] == events[j]);
    }
}

/// In an ordered block a source event is not earlier than what is held.
proof fn lemma_source_not_earlier(cfg: EngineConfig, events: Seq<Event>)
    requires
        source_timings_ordered(cfg, events),
        events.len() > 0,
        is_source(cfg, events.last()),
        state_tracks(cfg, events.drop_last()),
    ensures
        state_after(cfg, events.drop_last()).held_timing <= events.last().timing(),
{
    let init = events.drop_last();
    let s = state_after(cfg, init);
    if s.held_timing > 0 {
        lemma_group_at_holds(cfg, init, s.held_timing);
        let i = choose|i: int|
            0 <= i < init.len() && is_source(cfg, #[trigger] init[i]) && init[i].timing()
                == s.held_timing;
        assert(events[i] == init[i]);
        assert(events[events.len() - 1] == events.last());
    }
}

/// What one more event does to the group with timing `t`.
proof fn lemma_group_at_last(cfg: EngineConfig, events: Seq<Event>, t: u32)
    requires
        events.len() > 0,
    ensures
        !(is_source(cfg, events.last()) && events.last().timing() == t) ==> group_at(
            cfg,
            events,
            t,
        ) == group_at(cfg, events.drop_last(), t),
        has_source_at(cfg, events, t) <==> has_source_at(cfg, events.drop_last(), t) || (
        is_source(cfg, events.last()) && events.last().timing() == t),
{
    lemma_group_at_holds(cfg, events, t);
    lemma_group_at_holds(cfg, events.drop_last(), t);
}

/// Where a source event is later than `t`, one more event does not change
/// the channel on which the group with timing `t` is emitted.
proof fn lemma_closing_channel_settled(cfg: EngineConfig, events: Seq<Event>, t: u32, later: u32)
    requires
        events.len() > 0,
        has_source_at(cfg, events.drop_last(), later),
        t < later,
    ensures
        closing_channel(cfg, events, t) == closing_channel(cfg, events.drop_last(), t),
{
    let init = events.drop_last();
    lemma_first_later(cfg, init, t);
    let i = choose|i: int|
        0 <= i < init.len() && is_source(cfg, #[trigger] init[i]) && init[i].timing() == later;
    assert(init[i].timing() > t);
}

/// A block without a held timing has had no source event.
proof fn lemma_nothing_held(cfg: EngineConfig, events: Seq<Event>, t: u32)
    requires
        state_tracks(cfg, events),
        state_after(cfg, events).acc.is_empty(),
    ensures
        !has_source_at(cfg, events, t),
{
    let s = state_after(cfg, events);
    lemma_group_at_holds(cfg, events, 0);
    lemma_first_later(cfg, events, 0);
    if has_source_at(cfg, events, t) {
        let i = choose|i: int|
            0 <= i < events.len() && is_source(cfg, #[trigger] events[i]) && events[i].timing()
                == t;
        assert(events[i].timing() <= 0);
    }
}

/// One more event keeps the state on track.
proof fn lemma_state_tracks_step(cfg: EngineConfig, events: Seq<Event>)
    requires
        source_timings_ordered(cfg, events),
        events.len() > 0,
        state_tracks(cfg, events.drop_last()),
    ensures
        state_tracks(cfg, events),
{
    let init = events.drop_last();
    let last = events.last();
    let s0 = state_after(cfg, init);
    let s = state_after(cfg, events);
    if !is_source(cfg, last) {
        lemma_group_at_last(cfg, events, s.held_timing);
    } else {
        let te = last.timing();
        let a = cfg.spec_channel_a();
        let b = cfg.spec_channel_b();
        lemma_source_not_earlier(cfg, events);
        if closes_group(cfg, s0, last) {
            lemma_first_later(cfg, init, s0.held_timing);
            assert forall|i: int|
                0 <= i < init.len() && ((#[trigger] init[i]).is_note_on_at(a)
                    || init[i].is_note_on_at(b)) implies init[i].timing() != te by {
                assert(is_source(cfg, init[i]));
            }
            lemma_side_at_empty(init, a, te);
            lemma_side_at_empty(init, b, te);
        }
        assert(s.acc.a == side_at(events, a, te));
        assert(s.acc.b == side_at(events, b, te));
        lemma_first_later_raised(cfg, init, s0.held_timing, te);
    }
}

/// No source event later than `t` is later than a later timing.
proof fn lemma_first_later_raised(cfg: EngineConfig, events: Seq<Event>, t: u32, later: u32)
    requires
        first_later(cfg, events, t) is None,
        t <= later,
    ensures
        first_later(cfg, events, later) is None,
{
    lemma_first_later(cfg, events, t);
    lemma_first_later(cfg, events, later);
}

/// The step of `group_noted` for an event that is forwarded.
proof fn lemma_noted_forward(cfg: EngineConfig, events: Seq<Event>, t: u32)
    requires
        events.len() > 0,
        !is_source(cfg, events.last()),
        group_noted(cfg, events.drop_last(), t),
    ensures
        group_noted(cfg, events, t),
{
    let init = events.drop_last();
    let last = events.last();
    let pick = is_synthesized_at(cfg, t);
    let out0 = output_after(cfg, init);
    Seq::filter_distributes_over_add(out0, seq![last], pick);
    lemma_filter_one(last, pick);
    lemma_group_at_last(cfg, events, t);
    assert(out0.filter(pick) + Seq::<Event>::empty() == out0.filter(pick));
    assert(first_later(cfg, events, t) == first_later(cfg, init, t));
}

/// The step of `group_noted` for a source event that is held, nothing
/// being emitted.
proof fn lemma_noted_hold(cfg: EngineConfig, events: Seq<Event>, t: u32)
    requires
        events.len() > 0,
        is_source(cfg, events.last()),
        action(cfg, state_after(cfg, events.drop_last()), events.last()) is Hold,
        state_tracks(cfg, events.drop_last()),
        state_after(cfg, events.drop_last()).held_timing <= events.last().timing(),
        group_noted(cfg, events.drop_last(), t),
    ensures
        group_noted(cfg, events, t),
{
    let init = events.drop_last();
    let last = events.last();
    let s0 = state_after(cfg, init);
    let te = last.timing();
    let pick = is_synthesized_at(cfg, t);
    let out0 = output_after(cfg, init);
    assert(output_after(cfg, events) == out0 + Seq::<Event>::empty());
    assert(out0 + Seq::<Event>::empty() == out0);
    lemma_group_at_last(cfg, events, t);
    if s0.acc.is_empty() {
        lemma_nothing_held(cfg, init, t);
    } else if t < te {
        assert(te == s0.held_timing);
        lemma_group_at_holds(cfg, init, s0.held_timing);
        lemma_closing_channel_settled(cfg, events, t, s0.held_timing);
    }
}

/// The step of `group_noted` for a source event that closes a group, at
/// the timing of an earlier group.
proof fn lemma_noted_emit_earlier(cfg: EngineConfig, events: Seq<Event>, t: u32)
    requires
        events.len() > 0,
        is_source(cfg, events.last()),
        action(cfg, state_after(cfg, events.drop_last()), events.last()) is Emit,
        state_tracks(cfg, events.drop_last()),
        group_noted(cfg, events.drop_last(), t),
        t < state_after(cfg, events.drop_last()).held_timing,
    ensures
        group_noted(cfg, events, t),
{
    let init = events.drop_last();
    let last = events.last();
    let s0 = state_after(cfg, init);
    let pick = is_synthesized_at(cfg, t);
    let out0 = output_after(cfg, init);
    let note = action(cfg, s0, last)->Emit_0;
    Seq::filter_distributes_over_add(out0, seq![note], pick);
    lemma_filter_one(note, pick);
    lemma_group_at_last(cfg, events, t);
    assert(out0.filter(pick) + Seq::<Event>::empty() == out0.filter(pick));
    if has_source_at(cfg, init, t) {
        lemma_group_at_holds(cfg, init, s0.held_timing);
        lemma_closing_channel_settled(cfg, events, t, s0.held_timing);
    }
}

/// The step of `group_noted` for a source event that closes a group, at
/// the timing of that group.
proof fn lemma_noted_emit_held(cfg: EngineConfig, events: Seq<Event>)
    requires
        events.len() > 0,
        is_source(cfg, events.last()),
        action(cfg, state_after(cfg, events.drop_last()), events.last()) is Emit,
        state_tracks(cfg, events.drop_last()),
        group_noted(cfg, events.drop_last(), state_after(cfg, events.drop_last()).held_timing),
    ensures
        group_noted(cfg, events, state_after(cfg, events.drop_last()).held_timing),
{
    let init = events.drop_last();
    let last = events.last();
    let s0 = state_after(cfg, init);
    let t = s0.held_timing;
    let pick = is_synthesized_at(cfg, t);
    let out0 = output_after(cfg, init);
    let note = action(cfg, s0, last)->Emit_0;
    Seq::filter_distributes_over_add(out0, seq![note], pick);
    lemma_filter_one(note, pick);
    lemma_group_at_last(cfg, events, t);
    lemma_group_at_holds(cfg, init, t);
    assert(Seq::<Event>::empty() + seq![note] == seq![note]);
    assert(first_later(cfg, events, t) == Some(last->NoteOn_channel));
    assert(group_at(cfg, events, t) == s0.acc);
}

/// No source event has a timing later than the held one.
proof fn lemma_nothing_later(cfg: EngineConfig, events: Seq<Event>, t: u32)
    requires
        state_tracks(cfg, events),
        t > state_after(cfg, events).held_timing,
    ensures
        !has_source_at(cfg, events, t),
{
    lemma_first_later(cfg, events, state_after(cfg, events).held_timing);
    if has_source_at(cfg, events, t) {
        let i = choose|i: int|
            0 <= i < events.len() && is_source(cfg, #[trigger] events[i]) && events[i].timing()
                == t;
        assert(events[i].timing() <= state_after(cfg, events).held_timing);
    }
}

/// The step of `group_noted` for a source event that closes a group, at a
/// timing later than that group.
proof fn lemma_noted_emit_later(cfg: EngineConfig, events: Seq<Event>, t: u32)
    requires
        events.len() > 0,
        is_source(cfg, events.last()),
        action(cfg, state_after(cfg, events.drop_last()), events.last()) is Emit,
        state_tracks(cfg, events.drop_last()),
        group_noted(cfg, events.drop_last(), t),
        t > state_after(cfg, events.drop_last()).held_timing,
    ensures
        group_noted(cfg, events, t),
{
    let init = events.drop_last();
    let last = events.last();
    let s0 = state_after(cfg, init);
    let pick = is_synthesized_at(cfg, t);
    let out0 = output_after(cfg, init);
    let note = action(cfg, s0, last)->Emit_0;
    lemma_action_emits_source(cfg, s0, last);
    lemma_nothing_later(cfg, init, t);
    lemma_group_at_last(cfg, events, t);
    assert(!(t < state_after(cfg, events).held_timing && has_source_at(cfg, events, t)));
    assert(out0.filter(pick) == Seq::<Event>::empty());
    assert(seq![note].filter(pick) == Seq::<Event>::empty()) by {
        lemma_filter_one(note, pick);
    }
    assert((out0 + seq![note]).filter(pick) == Seq::<Event>::empty()) by {
        Seq::filter_distributes_over_add(out0, seq![note], pick);
        assert(Seq::<Event>::empty() + Seq::<Event>::empty() == Seq::<Event>::empty());
    }
}

/// In an ordered block the state and the output are on track after every
/// event.
proof fn lemma_tracks(cfg: EngineConfig, events: Seq<Event>, t: u32)
    requires
        source_timings_ordered(cfg, events),
    ensures
        state_tracks(cfg, events),
        group_noted(cfg, events, t),
    decreases events.len(),
{
    if events.len() == 0 {
        lemma_filter_none(is_synthesized_at(cfg, t));
    } else {
        let init = events.drop_last();
        let last = events.last();
        lemma_ordered_prefix(cfg, events);
        lemma_tracks(cfg, init, t);
        lemma_state_tracks_step(cfg, events);
        if !is_source(cfg, last) {
            lemma_noted_forward(cfg, events, t);
        } else {
            lemma_source_not_earlier(cfg, events);
            match action(cfg, state_after(cfg, init), last) {
                Action::Emit(_) => {
                    let held = state_after(cfg, init).held_timing;
                    if t < held {
                        lemma_noted_emit_earlier(cfg, events, t);
                    } else if t == held {
                        lemma_noted_emit_held(cfg, events);
                    } else {
                        lemma_noted_emit_later(cfg, events, t);
                    }
                },
                _ => lemma_noted_hold(cfg, events, t),
            }
        }
    }
}

/// In a block whose source events come in the order of their timings, the
/// accumulator holds what the two source channels play at the held timing.
pub proof fn theorem_held_group(cfg: EngineConfig, events: Seq<Event>)
    requires
        source_timings_ordered(cfg, events),
    ensures
        state_after(cfg, events).acc == group_at(
            cfg,
            events,
            state_after(cfg, events).held_timing,
        ),
{
    lemma_tracks(cfg, events, 0);
}

/// The end of the block closes the group that is still held.
proof fn lemma_noted_at_end(cfg: EngineConfig, events: Seq<Event>, t: u32)
    requires
        state_tracks(cfg, events),
        group_noted(cfg, events, t),
    ensures
        processed(cfg, events).filter(is_synthesized_at(cfg, t)) == if has_source_at(
            cfg,
            events,
            t,
        ) {
            seq![synthesized_note(cfg, events, t)]
        } else {
            Seq::empty()
        },
{
    let s = state_after(cfg, events);
    let out = output_after(cfg, events);
    let pick = is_synthesized_at(cfg, t);
    if s.acc.is_empty() {
        lemma_nothing_held(cfg, events, t);
        assert(processed(cfg, events) == out + Seq::<Event>::empty());
        assert(out + Seq::<Event>::empty() == out);
    } else {
        let note = s.acc.synthesized(s.held_timing, cfg.spec_channel_a(), cfg.spec_mix() as int);
        assert(processed(cfg, events) == out + seq![note]);
        assert(note == synthesized_note(cfg, events, s.held_timing));
        assert(is_source(cfg, note) && note.timing() == s.held_timing);
        Seq::filter_distributes_over_add(out, seq![note], pick);
        lemma_filter_one(note, pick);
        lemma_group_at_holds(cfg, events, s.held_timing);
        if t < s.held_timing {
            assert(out.filter(pick) + Seq::<Event>::empty() == out.filter(pick));
        } else if t == s.held_timing {
            assert(Seq::<Event>::empty() + seq![note] == seq![note]);
        } else {
            lemma_nothing_later(cfg, events, t);
            assert(Seq::<Event>::empty() + Seq::<Event>::empty() == Seq::<Event>::empty());
        }
    }
}

/// In a block whose source events come in the order of their timings, the
/// output holds for each timing of a source event the one note synthesized
/// from the source events of that timing, and no other note-on of a source
/// channel.
pub proof fn theorem_one_note_per_timing(cfg: EngineConfig, events: Seq<Event>, t: u32)
    requires
        source_timings_ordered(cfg, events),
    ensures
        processed(cfg, events).filter(is_synthesized_at(cfg, t)) == if has_source_at(
            cfg,
            events,
            t,
        ) {
            seq![synthesized_note(cfg, events, t)]
        } else {
            Seq::empty()
        },
{
    lemma_tracks(cfg, events, t);
    lemma_noted_at_end(cfg, events, t);
}

/// In a block whose source events come in the order of their timings, the
/// output holds exactly one synthesized note for each timing at which a
/// source event occurs, and none for any other timing.
pub proof fn theorem_single_emission(cfg: EngineConfig, events: Seq<Event>, t: u32)
    requires
        source_timings_ordered(cfg, events),
    ensures
        processed(cfg, events).filter(is_synthesized_at(cfg, t)).len() == if has_source_at(
            cfg,
            events,
            t,
        ) {
            1nat
        } else {
            0nat
        },
{
    theorem_one_note_per_timing(cfg, events, t);
}

/// The pitch and the velocity of a synthesized note are the interpolated
/// means themselves: they fit the fields of the event. Where every event of
/// the block is in its MIDI range, so is the synthesized note.
pub proof fn theorem_synthesized_fits(cfg: EngineConfig, events: Seq<Event>, t: u32)
    requires
        cfg.wf(),
        has_source_at(cfg, events, t),
    ensures
        synthesized_note(cfg, events, t) matches Event::NoteOn { note, velocity, .. } && note
            == group_at(cfg, events, t).note(cfg.spec_mix() as int) && velocity == group_at(
            cfg,
            events,
            t,
        ).velocity(cfg.spec_mix() as int),
        (forall|i: int| 0 <= i < events.len() ==> (#[trigger] events[i]).in_range())
            ==> synthesized_note(cfg, events, t).in_range(),
{
    let g = group_at(cfg, events, t);
    let mix = cfg.spec_mix() as int;
    lemma_group_at_holds(cfg, events, t);
    lemma_side_at_within(events, cfg.spec_channel_a(), t);
    lemma_side_at_within(events, cfg.spec_channel_b(), t);
    g.lemma_result_within(mix, u8::MAX as int, u32::MAX as int);
    if forall|i: int| 0 <= i < events.len() ==> (#[trigger] events[i]).in_range() {
        g.lemma_result_within(mix, crate::event::MAX_NOTE as int, UNIT as int);
        lemma_first_later(cfg, events, t);
    }
}

/// The note that plays the mean of what a channel plays at a timing holds
/// the rounded means themselves: they fit the fields of the event.
pub proof fn theorem_mean_fits(events: Seq<Event>, channel: u8, t: u32, output_channel: u8)
    requires
        side_at(events, channel, t).count > 0,
    ensures
        side_at(events, channel, t).as_note(t, output_channel) matches Event::NoteOn {
            note,
            velocity,
            ..
        } && note == side_at(events, channel, t).mean_note() && velocity == side_at(
            events,
            channel,
            t,
        ).mean_velocity(),
{
    lemma_side_at_within(events, channel, t);
    side_at(events, channel, t).lemma_mean_within(u8::MAX as int, u32::MAX as int);
}

/// With the mix ratio at zero, the note synthesized for a timing is the
/// mean of what channel A plays at that timing, or of what channel B plays
/// where channel A plays nothing.
pub proof fn theorem_mix_zero(cfg: EngineConfig, events: Seq<Event>, t: u32)
    requires
        source_timings_ordered(cfg, events),
        has_source_at(cfg, events, t),
        cfg.spec_mix() == 0,
    ensures
        processed(cfg, events).filter(is_synthesized_at(cfg, t)) == seq![
            if side_at(events, cfg.spec_channel_a(), t).count > 0 {
                side_at(events, cfg.spec_channel_a(), t)
            } else {
                side_at(events, cfg.spec_channel_b(), t)
            }.as_note(t, closing_channel(cfg, events, t)),
        ],
{
    theorem_one_note_per_timing(cfg, events, t);
    lemma_group_at_holds(cfg, events, t);
    group_at(cfg, events, t).lemma_mix_zero(t, closing_channel(cfg, events, t));
}

/// With the mix ratio at `UNIT`, the note synthesized for a timing is the
/// mean of what channel B plays at that timing, or of what channel A plays
/// where channel B plays nothing.
pub proof fn theorem_mix_unit(cfg: EngineConfig, events: Seq<Event>, t: u32)
    requires
        source_timings_ordered(cfg, events),
        has_source_at(cfg, events, t),
        cfg.spec_mix() == UNIT,
    ensures
        processed(cfg, events).filter(is_synthesized_at(cfg, t)) == seq![
            if side_at(events, cfg.spec_channel_b(), t).count > 0 {
                side_at(events, cfg.spec_channel_b(), t)
            } else {
                side_at(events, cfg.spec_channel_a(), t)
            }.as_note(t, closing_channel(cfg, events, t)),
        ],
{
    theorem_one_note_per_timing(cfg, events, t);
    lemma_group_at_holds(cfg, events, t);
    group_at(cfg, events, t).lemma_mix_unit(t, closing_channel(cfg, events, t));
}

/// Where channel A and channel B are the same channel, the note synthesized
/// for a timing is the mean of what that channel plays at that timing,
/// whatever the mix ratio.
pub proof fn theorem_one_channel(cfg: EngineConfig, events: Seq<Event>, t: u32)
    requires
        source_timings_ordered(cfg, events),
        has_source_at(cfg, events, t),
        cfg.spec_channel_a() == cfg.spec_channel_b(),
    ensures
        processed(cfg, events).filter(is_synthesized_at(cfg, t)) == seq![
            side_at(events, cfg.spec_channel_a(), t).as_note(t, closing_channel(cfg, events, t)),
        ],
{
    theorem_one_note_per_timing(cfg, events, t);
    lemma_group_at_holds(cfg, events, t);
    group_at(cfg, events, t).lemma_equal_sides(
        t,
        closing_channel(cfg, events, t),
        cfg.spec_mix() as int,
    );
}

/// Where no note-on of the block is on channel B, every synthesized note is
/// the mean of what channel A plays at its timing, whatever the mix ratio.
pub proof fn theorem_only_side_a(cfg: EngineConfig, events: Seq<Event>, t: u32)
    requires
        source_timings_ordered(cfg, events),
        has_source_at(cfg, events, t),
        forall|i: int|
            0 <= i < events.len() ==> !(#[trigger] events[i]).is_note_on_at(cfg.spec_channel_b()),
    ensures
        processed(cfg, events).filter(is_synthesized_at(cfg, t)) == seq![
            side_at(events, cfg.spec_channel_a(), t).as_note(t, closing_channel(cfg, events, t)),
        ],
{
    theorem_one_note_per_timing(cfg, events, t);
    lemma_group_at_holds(cfg, events, t);
    lemma_side_at_empty(events, cfg.spec_channel_b(), t);
    group_at(cfg, events, t).lemma_one_side(
        t,
        closing_channel(cfg, events, t),
        cfg.spec_mix() as int,
    );
}

/// Where no note-on of the block is on channel A, every synthesized note is
/// the mean of what channel B plays at its timing, whatever the mix ratio.
pub proof fn theorem_only_side_b(cfg: EngineConfig, events: Seq<Event>, t: u32)
    requires
        source_timings_ordered(cfg, events),
        has_source_at(cfg, events, t),
        forall|i: int|
            0 <= i < events.len() ==> !(#[trigger] events[i]).is_note_on_at(cfg.spec_channel_a()),
    ensures
        processed(cfg, events).filter(is_synthesized_at(cfg, t)) == seq![
            side_at(events, cfg.spec_channel_b(), t).as_note(t, closing_channel(cfg, events, t)),
        ],
{
    theorem_one_note_per_timing(cfg, events, t);
    lemma_group_at_holds(cfg, events, t);
    lemma_side_at_empty(events, cfg.spec_channel_a(), t);
    group_at(cfg, events, t).lemma_one_side(
        t,
        closing_channel(cfg, events, t),
        cfg.spec_mix() as int,
    );
}

/// Where channel A and channel B are the same channel, the two sides of
/// the accumulator hold the same after every event, in whatever order the
/// events come: each flush then emits the mean of that channel.
pub proof fn theorem_one_channel_sides_agree(cfg: EngineConfig, events: Seq<Event>)
    requires
        cfg.spec_channel_a() == cfg.spec_channel_b(),
    ensures
        state_after(cfg, events).acc.a == state_after(cfg, events).acc.b,
    decreases events.len(),
{
    if events.len() > 0 {
        theorem_one_channel_sides_agree(cfg, events.drop_last());
    }
}

/// Where no note-on of the block is on channel B, side B of the
/// accumulator is empty after every event, in whatever order the events
/// come: each flush then emits the mean of side A.
pub proof fn theorem_side_b_stays_empty(cfg: EngineConfig, events: Seq<Event>)
    requires
        forall|i: int|
            0 <= i < events.len() ==> !(#[trigger] events[i]).is_note_on_at(cfg.spec_channel_b()),
    ensures
        state_after(cfg, events).acc.b == Side::empty(),
    decreases events.len(),
{
    if events.len() > 0 {
        let init = events.drop_last();
        assert forall|i: int| 0 <= i < init.len() implies !(#[trigger] init[i]).is_note_on_at(
            cfg.spec_channel_b(),
        ) by {
            assert(init[i] == events[i]);
        }
        theorem_side_b_stays_empty(cfg, init);
        assert(events[events.len() - 1] == events.last());
    }
}

/// A block without events has no output.
pub proof fn theorem_empty_block(cfg: EngineConfig)
    ensures
        processed(cfg, Seq::empty()) == Seq::<Event>::empty(),
{
    assert(Seq::<Event>::empty() + Seq::<Event>::empty() == Seq::<Event>::empty());
}

/// After a chord on channel A, side A of the accumulator counts the notes
/// of the chord and holds the sums of their pitches and of their
/// velocities: its means are those of the chord, not yet rounded.
pub proof fn theorem_averaging(cfg: EngineConfig, notes: Seq<(u8, u32)>, timing: u32)
    requires
        notes.len() > 0,
    ensures
        state_after(cfg, chord(notes, cfg.spec_channel_a(), timing)).acc.a == (Side {
            count: notes.len(),
            note_sum: pitch_sum(notes),
            velocity_sum: velocity_sum(notes),
        }),
{
    let events = chord(notes, cfg.spec_channel_a(), timing);
    theorem_held_group(cfg, events);
    lemma_side_at_chord(notes, cfg.spec_channel_a(), timing);
    assert(events.last() == events[events.len() - 1]);
}

/// The accumulator holds MIDI ranges where the events of the block do.
proof fn lemma_state_in_range(cfg: EngineConfig, events: Seq<Event>)
    requires
        forall|i: int| 0 <= i < events.len() ==> (#[trigger] events[i]).in_range(),
    ensures
        state_after(cfg, events).acc.in_range(),
    decreases events.len(),
{
    if events.len() > 0 {
        let init = events.drop_last();
        assert forall|i: int| 0 <= i < init.len() implies (#[trigger] init[i]).in_range() by {
            assert(init[i] == events[i]);
        }
        lemma_state_in_range(cfg, init);
        assert(events[events.len() - 1].in_range());
    }
}

/// Before the block ends the output holds MIDI ranges where the events do.
proof fn lemma_output_in_range(cfg: EngineConfig, events: Seq<Event>, k: int)
    requires
        cfg.wf(),
        forall|i: int| 0 <= i < events.len() ==> (#[trigger] events[i]).in_range(),
        0 <= k < output_after(cfg, events).len(),
    ensures
        output_after(cfg, events)[k].in_range(),
    decreases events.len(),
{
    if events.len() > 0 {
        let init = events.drop_last();
        let last = events.last();
        let s0 = state_after(cfg, init);
        assert forall|i: int| 0 <= i < init.len() implies (#[trigger] init[i]).in_range() by {
            assert(init[i] == events[i]);
        }
        assert(events[events.len() - 1].in_range());
        if k < output_after(cfg, init).len() {
            lemma_output_in_range(cfg, init, k);
        } else if action(cfg, s0, last) is Emit {
            lemma_state_in_range(cfg, init);
            s0.acc.lemma_result_within(
                cfg.spec_mix() as int,
                crate::event::MAX_NOTE as int,
                UNIT as int,
            );
        }
    }
}

/// Where every event of a block is in its MIDI range, so is every event of
/// the output: the interpolated pitch and velocity need no clamp.
pub proof fn theorem_output_in_range(cfg: EngineConfig, events: Seq<Event>, k: int)
    requires
        cfg.wf(),
        forall|i: int| 0 <= i < events.len() ==> (#[trigger] events[i]).in_range(),
        0 <= k < processed(cfg, events).len(),
    ensures
        processed(cfg, events)[k].in_range(),
{
    if k < output_after(cfg, events).len() {
        lemma_output_in_range(cfg, events, k);
    } else {
        lemma_state_in_range(cfg, events);
        state_after(cfg, events).acc.lemma_result_within(
            cfg.spec_mix() as int,
            crate::event::MAX_NOTE as int,
            UNIT as int,
        );
    }
}

} // verus!
