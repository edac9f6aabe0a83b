//! The interpolation engine: routes each event of a block, holds the notes
//! of the two source channels, and emits one synthesized note for each group
//! that it held.

use vstd::prelude::*;
use crate::accumulator::{Accumulator, Sums};
use crate::config::EngineConfig;
use crate::event::Event;
use crate::stream::{has_source_at, is_forwarded, is_synthesized_at, source_timings_ordered};
use crate::theorems::{theorem_pass_through, theorem_single_emission};

verus! {

/// What the engine remembers between two events of a block.
pub struct State {
    /// What the source channels have played since the last flush.
    pub acc: Sums,
    /// The timing of the last source event, zero before the first.
    pub held_timing: u32,
}

/// What the engine decides for one incoming event.
#[derive(Clone, Copy, Debug, PartialEq, Eq, Structural)]
pub enum Action {
    /// The event goes to the output as it is.
    Forward,
    /// The event was accumulated; nothing goes to the output.
    Hold,
    /// The event was accumulated, and the note synthesized from the group
    /// before it goes to the output in its place.
    Emit(Event),
}

impl State {
    /// The state at the start of a block.
    pub open spec fn initial() -> State {
        State { acc: Sums::empty(), held_timing: 0 }
    }
}

/// A source event: a note-on on channel A or on channel B.
pub open spec fn is_source(cfg: EngineConfig, e: Event) -> bool {
    e.is_note_on_at(cfg.spec_channel_a()) || e.is_note_on_at(cfg.spec_channel_b())
}

/// A source event later than what is held closes the held group.
pub open spec fn closes_group(cfg: EngineConfig, s: State, e: Event) -> bool {
    is_source(cfg, e) && e.timing() > s.held_timing
}

/// The decision for event `e` in state `s`. A synthesized note carries the
/// timing of the group that it closes and the channel of `e`.
pub open spec fn action(cfg: EngineConfig, s: State, e: Event) -> Action {
    if !is_source(cfg, e) {
        Action::Forward
    } else if closes_group(cfg, s, e) {
        match s.acc.flushed(s.held_timing, e->NoteOn_channel, cfg.spec_mix() as int) {
            Some(note) => Action::Emit(note),
            None => Action::Hold,
        }
    } else {
        Action::Hold
    }
}

/// The state after event `e`. A source event is added to side A if it is on
/// channel A and to side B if it is on channel B, so to both where the two
/// channels are one.
pub open spec fn next_state(cfg: EngineConfig, s: State, e: Event) -> State {
    match e {
        Event::NoteOn { timing, channel, note, velocity } if is_source(cfg, e) => {
            let kept = if closes_group(cfg, s, e) {
                Sums::empty()
            } else {
                s.acc
            };
            let with_a = if channel == cfg.spec_channel_a() {
                kept.add_a(note, velocity)
            } else {
                kept
            };
            let with_b = if channel == cfg.spec_channel_b() {
                with_a.add_b(note, velocity)
            } else {
                with_a
            };
            State { acc: with_b, held_timing: timing }
        },
        _ => s,
    }
}

/// What an action puts on the output for event `e`.
pub open spec fn output_of(act: Action, e: Event) -> Seq<Event> {
    match act {
        Action::Forward => seq![e],
        Action::Hold => Seq::empty(),
        Action::Emit(note) => seq![note],
    }
}

/// What the end of the block puts on the output: the note of the group still
/// held, on channel A.
pub open spec fn closing_note(cfg: EngineConfig, s: State) -> Option<Event> {
    s.acc.flushed(s.held_timing, cfg.spec_channel_a(), cfg.spec_mix() as int)
}

/// The state after the events of a block so far.
pub open spec fn state_after(cfg: EngineConfig, events: Seq<Event>) -> State
    decreases events.len(),
{
    if events.len() == 0 {
        State::initial()
    } else {
        next_state(cfg, state_after(cfg, events.drop_last()), events.last())
    }
}

/// The output for the events of a block so far.
pub open spec fn output_after(cfg: EngineConfig, events: Seq<Event>) -> Seq<Event>
    decreases events.len(),
{
    if events.len() == 0 {
        Seq::empty()
    } else {
        output_after(cfg, events.drop_last()) + output_of(
            action(cfg, state_after(cfg, events.drop_last()), events.last()),
            events.last(),
        )
    }
}

/// The whole output for a block: what each event put out in turn, then the
/// closing note.
pub open spec fn processed(cfg: EngineConfig, events: Seq<Event>) -> Seq<Event> {
    output_after(cfg, events) + match closing_note(cfg, state_after(cfg, events)) {
        Some(note) => seq![note],
        None => Seq::empty(),
    }
}

/// The engine for one block after another. It takes the events one at a
/// time and allocates nothing.
pub struct Engine {
    config: EngineConfig,
    acc: Accumulator,
    held_timing: u32,
}

impl View for Engine {
    type V = State;

    closed spec fn view(&self) -> State {
        State { acc: self.acc@, held_timing: self.held_timing }
    }
}

impl Engine {
    /// The configuration that the engine was made with.
    pub closed spec fn spec_config(&self) -> EngineConfig {
        self.config
    }


    /// Each side can take one more note.
    pub open spec fn spec_has_room(&self) -> bool {
        self@.acc.a.count < u64::MAX && self@.acc.b.count < u64::MAX
    }

    /// An engine at the start of a block.
    pub fn new(config: EngineConfig) -> (engine: Engine)
        ensures
            engine@ == State::initial(),
            engine.spec_config() == config,
    {
        Engine { config, acc: Accumulator::new(), held_timing: 0 }
    }

    /// Whether each side can take one more note: `handle` asks for it.
    #[verifier::when_used_as_spec(spec_has_room)]
    pub fn has_room(&self) -> (r: bool)
        ensures
            r == self.spec_has_room(),
    {
        self.acc.count_a() < u64::MAX && self.acc.count_b() < u64::MAX
    }

    /// Routes one event and says what goes to the output for it.
    pub fn handle(&mut self, event: Event) -> (act: Action)
        requires
            old(self).has_room(),
        ensures
            final(self).spec_config() == old(self).spec_config(),
            final(self)@ == next_state(old(self).spec_config(), old(self)@, event),
            act == action(old(self).spec_config(), old(self)@, event),
    {
        match event {
            Event::NoteOn { timing, channel, note, velocity } => {
                let on_a = channel == self.config.channel_a();
                let on_b = channel == self.config.channel_b();
                if !on_a && !on_b {
                    return Action::Forward;
                }
                let mut acc = self.acc;
                let mut act = Action::Hold;
                if timing > self.held_timing {
                    if let Some(synthesized) = acc.flush(
                        self.held_timing,
                        channel,
                        self.config.mix(),
                    ) {
                        act = Action::Emit(synthesized);
                    }
                }
                if on_a {
                    acc.accumulate_a(note, velocity);
                }
                if on_b {
                    acc.accumulate_b(note, velocity);
                }
                self.acc = acc;
                self.held_timing = timing;
                act
            },
            _ => Action::Forward,
        }
    }

    /// Ends the block: emits the note of the group still held, on channel A,
    /// and returns to the state at the start of a block.
    pub fn finish(&mut self) -> (emitted: Option<Event>)
        ensures
            final(self).spec_config() == old(self).spec_config(),
            final(self)@ == State::initial(),
            emitted == closing_note(old(self).spec_config(), old(self)@),
    {
        let mut acc = self.acc;
        let emitted = acc.flush(self.held_timing, self.config.channel_a(), self.config.mix());
        self.acc = acc;
        self.held_timing = 0;
        emitted
    }
}

/// Processes one block: forwards every event that is not a source event,
/// in order, and puts one synthesized note where each group of source
/// events was closed.
pub fn process(events: &[Event], config: &EngineConfig) -> (out: Vec<Event>)
    ensures
        out@ == processed(*config, events@),
        events@.len() == 0 ==> out@.len() == 0,
        out@.filter(is_forwarded(*config)) == events@.filter(is_forwarded(*config)),
        source_timings_ordered(*config, events@) ==> forall|t: u32|
            #![trigger out@.filter(is_synthesized_at(*config, t))]
            out@.filter(is_synthesized_at(*config, t)).len() == if has_source_at(
                *config,
                events@,
                t,
            ) {
                1nat
            } else {
                0nat
            },
{
    let mut engine = Engine::new(*config);
    let mut out: Vec<Event> = Vec::new();
    let mut i: usize = 0;
    while i < events.len()
        invariant
            i <= events@.len(),
            engine.spec_config() == *config,
            engine@ == state_after(*config, events@.take(i as int)),
            out@ == output_after(*config, events@.take(i as int)),
            engine@.acc.a.count <= i,
            engine@.acc.b.count <= i,
        decreases events@.len() - i,
    {
        let event = events[i];
        proof {
            assert(events@.take(i + 1).drop_last() == events@.take(i as int));
            assert(events@.take(i + 1).last() == event);
        }
        match engine.handle(event) {
            Action::Forward => out.push(event),
            Action::Hold => {},
            Action::Emit(note) => out.push(note),
        }
        i = i + 1;
    }
    proof {
        assert(events@.take(i as int) == events@);
    }
    if let Some(note) = engine.finish() {
        out.push(note);
    }
    proof {
        theorem_pass_through(*config, events@);
        if source_timings_ordered(*config, events@) {
            assert forall|t: u32|
                #![trigger processed(*config, events@).filter(is_synthesized_at(*config, t))]
                processed(*config, events@).filter(is_synthesized_at(*config, t)).len()
                    == if has_source_at(*config, events@, t) {
                    1nat
                } else {
                    0nat
                } by {
                theorem_single_emission(*config, events@, t);
            }
        }
    }
    out
}

} // verus!
