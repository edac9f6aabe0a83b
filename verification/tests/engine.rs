use midi_interpolator::config::EngineConfig;
use midi_interpolator::engine::{process, Action, Engine};
use midi_interpolator::event::Event;
use midi_interpolator::ratio::UNIT;

fn on(timing: u32, channel: u8, note: u8, velocity: u32) -> Event {
    Event::NoteOn { timing, channel, note, velocity }
}

fn off(timing: u32, channel: u8, note: u8, velocity: u32) -> Event {
    Event::NoteOff { timing, channel, note, velocity }
}

fn config(mix: u32, channel_a: u8, channel_b: u8) -> EngineConfig {
    EngineConfig::new(mix, channel_a, channel_b).unwrap()
}

fn is_source(cfg: &EngineConfig, event: &Event) -> bool {
    match event {
        Event::NoteOn { channel, .. } => *channel == cfg.channel_a() || *channel == cfg.channel_b(),
        _ => false,
    }
}

#[test]
fn empty_block_gives_no_output() {
    for mix in [0, 1, 500_000, UNIT] {
        assert_eq!(process(&[], &config(mix, 1, 2)), vec![]);
        assert_eq!(process(&[], &config(mix, 3, 3)), vec![]);
    }
}

#[test]
fn two_channels_blend_into_one_note() {
    let events = [on(0, 1, 60, 800_000), on(0, 2, 72, 400_000), on(10, 5, 50, 500_000)];
    let out = process(&events, &config(500_000, 1, 2));
    let synthesized = on(0, 1, 66, 600_000);
    let forwarded = on(10, 5, 50, 500_000);
    assert_eq!(out.len(), 2);
    assert!(out.contains(&synthesized));
    assert!(out.contains(&forwarded));
    // The note on channel 5 is forwarded at once; the held group is closed
    // by the end of the block, so its note comes last.
    assert_eq!(out, vec![forwarded, synthesized]);
}

#[test]
fn group_is_emitted_where_the_next_one_starts() {
    let events = [
        on(0, 1, 60, 800_000),
        on(0, 2, 72, 400_000),
        off(5, 1, 60, 0),
        on(10, 1, 40, 100_000),
        Event::Other,
    ];
    let out = process(&events, &config(500_000, 1, 2));
    assert_eq!(
        out,
        vec![off(5, 1, 60, 0), on(0, 1, 66, 600_000), Event::Other, on(10, 1, 40, 100_000)]
    );
}

#[test]
fn closing_event_gives_its_channel_and_block_end_gives_channel_a() {
    let events = [on(0, 1, 60, 500_000), on(7, 2, 80, 500_000)];
    let out = process(&events, &config(0, 1, 2));
    // The first group is closed by an event on channel 2, the second by the
    // end of the block.
    assert_eq!(out, vec![on(0, 2, 60, 500_000), on(7, 1, 80, 500_000)]);
}

#[test]
fn events_off_the_source_channels_pass_through_in_order() {
    let cfg = config(250_000, 0, 15);
    let events = [
        Event::Other,
        on(0, 3, 10, 1),
        on(0, 0, 64, 500_000),
        off(1, 0, 64, 0),
        off(1, 15, 20, 7),
        on(2, 15, 70, 600_000),
        Event::Other,
        on(3, 14, 127, UNIT),
        off(4, 9, 0, 0),
        on(5, 0, 1, 2),
    ];
    let out = process(&events, &cfg);
    let kept_in: Vec<Event> = events.iter().copied().filter(|e| !is_source(&cfg, e)).collect();
    let kept_out: Vec<Event> = out.iter().copied().filter(|e| !is_source(&cfg, e)).collect();
    assert_eq!(kept_in.len(), 7);
    assert_eq!(kept_out, kept_in);
}

#[test]
fn note_offs_on_source_channels_are_forwarded() {
    let events = [off(0, 1, 60, 0), off(0, 2, 61, 5), Event::Other];
    assert_eq!(process(&events, &config(500_000, 1, 2)), events.to_vec());
}

#[test]
fn one_synthesized_note_for_each_timing() {
    let cfg = config(500_000, 1, 2);
    let events = [
        on(0, 1, 60, 100),
        on(0, 1, 62, 100),
        on(0, 2, 64, 100),
        on(3, 2, 50, 100),
        on(3, 9, 51, 100),
        on(8, 1, 40, 100),
        on(8, 2, 41, 100),
        on(8, 2, 42, 100),
        on(9, 1, 30, 100),
    ];
    let out = process(&events, &cfg);
    for t in 0..12u32 {
        let expected = if [0, 3, 8, 9].contains(&t) { 1 } else { 0 };
        let found = out
            .iter()
            .filter(|e| is_source(&cfg, e) && matches!(e, Event::NoteOn { timing, .. } if *timing == t))
            .count();
        assert_eq!(found, expected, "timing {}", t);
    }
    assert_eq!(out.len(), 5);
}

#[test]
fn mix_zero_gives_side_a_and_mix_one_gives_side_b() {
    let events = [on(4, 1, 60, 800_000), on(4, 1, 70, 200_000), on(4, 2, 20, 100_000)];
    assert_eq!(process(&events, &config(0, 1, 2)), vec![on(4, 1, 65, 500_000)]);
    assert_eq!(process(&events, &config(UNIT, 1, 2)), vec![on(4, 1, 20, 100_000)]);
}

#[test]
fn mix_boundaries_fall_back_to_the_side_that_played() {
    let only_b = [on(4, 2, 20, 100_000), on(4, 2, 30, 300_000)];
    assert_eq!(process(&only_b, &config(0, 1, 2)), vec![on(4, 1, 25, 200_000)]);
    let only_a = [on(4, 1, 90, 900_000)];
    assert_eq!(process(&only_a, &config(UNIT, 1, 2)), vec![on(4, 1, 90, 900_000)]);
}

#[test]
fn chord_is_averaged_before_it_is_blended() {
    // Four notes on channel A: the mean pitch is 61.5 and the mean velocity
    // 0.5. At mix 0 the note is the mean of side A, rounded once.
    let chord = [
        on(2, 1, 60, 250_000),
        on(2, 1, 61, 500_000),
        on(2, 1, 62, 750_000),
        on(2, 1, 63, 500_000),
    ];
    assert_eq!(process(&chord, &config(0, 1, 2)), vec![on(2, 1, 62, 500_000)]);
}

#[test]
fn means_are_not_rounded_before_the_blend() {
    // Side A has the mean 60.5 and side B the mean 62: halfway between them
    // is 61.25, which rounds to 61. Had the mean of side A been rounded to
    // 61 first, the result would be 61.5 and so 62.
    let events = [on(0, 1, 60, 0), on(0, 1, 61, 0), on(0, 2, 62, 0)];
    assert_eq!(process(&events, &config(500_000, 1, 2)), vec![on(0, 1, 61, 0)]);
}

#[test]
fn velocity_mean_is_rounded_to_the_nearest_step() {
    let events = [on(0, 1, 60, 1), on(0, 1, 60, 2)];
    // 1.5 steps round up to 2.
    assert_eq!(process(&events, &config(0, 1, 2)), vec![on(0, 1, 60, 2)]);
    let events = [on(0, 1, 60, 1), on(0, 1, 60, 1), on(0, 1, 60, 2)];
    // 4/3 steps round down to 1.
    assert_eq!(process(&events, &config(0, 1, 2)), vec![on(0, 1, 60, 1)]);
}

#[test]
fn interpolated_pitch_is_exact() {
    let events = [on(0, 1, 60, 0), on(0, 2, 61, UNIT)];
    assert_eq!(process(&events, &config(499_999, 1, 2)), vec![on(0, 1, 60, 499_999)]);
    assert_eq!(process(&events, &config(500_000, 1, 2)), vec![on(0, 1, 61, 500_000)]);
    assert_eq!(process(&events, &config(250_000, 1, 2)), vec![on(0, 1, 60, 250_000)]);
    let events = [on(0, 1, 0, 0), on(0, 2, 127, UNIT)];
    assert_eq!(process(&events, &config(333_333, 1, 2)), vec![on(0, 1, 42, 333_333)]);
    assert_eq!(process(&events, &config(UNIT, 1, 2)), vec![on(0, 1, 127, UNIT)]);
}

#[test]
fn equal_channels_give_the_mean_of_the_channel_for_any_mix() {
    let events = [on(1, 4, 60, 200_000), on(1, 4, 65, 400_000), on(6, 4, 10, 10)];
    for mix in [0, 1, 123_456, 500_000, 999_999, UNIT] {
        let out = process(&events, &config(mix, 4, 4));
        // 62.5 rounds up to 63.
        assert_eq!(out, vec![on(1, 4, 63, 300_000), on(6, 4, 10, 10)], "mix {}", mix);
    }
}

#[test]
fn only_side_a_gives_its_mean_for_any_mix() {
    let events = [
        on(0, 1, 60, 100_000),
        on(0, 1, 64, 300_000),
        off(1, 2, 64, 0),
        on(5, 1, 72, 900_000),
        on(9, 1, 10, 0),
        on(9, 1, 11, 1),
        on(9, 1, 13, 1),
    ];
    for mix in [0, 1, 250_000, 500_000, 750_000, UNIT] {
        let out = process(&events, &config(mix, 1, 2));
        assert_eq!(
            out,
            vec![off(1, 2, 64, 0), on(0, 1, 62, 200_000), on(5, 1, 72, 900_000), on(9, 1, 11, 1)],
            "mix {}",
            mix
        );
    }
}

#[test]
fn only_side_b_gives_its_mean_for_any_mix() {
    let events = [on(0, 2, 60, 100_000), on(0, 2, 64, 300_000), on(5, 2, 72, 900_000)];
    for mix in [0, 500_000, UNIT] {
        let out = process(&events, &config(mix, 1, 2));
        assert_eq!(out, vec![on(0, 2, 62, 200_000), on(5, 1, 72, 900_000)], "mix {}", mix);
    }
}

#[test]
fn first_source_event_after_time_zero_emits_nothing_early() {
    let events = [on(100, 1, 60, 5), on(100, 2, 62, 5)];
    assert_eq!(process(&events, &config(500_000, 1, 2)), vec![on(100, 1, 61, 5)]);
}

#[test]
fn earlier_timing_joins_the_held_group() {
    // An event that is not later than what is held never closes a group;
    // the held timing follows the last source event.
    let events = [on(10, 1, 60, 0), on(4, 2, 70, 0), on(6, 1, 80, 0)];
    let out = process(&events, &config(500_000, 1, 2));
    assert_eq!(out, vec![on(4, 1, 65, 0), on(6, 1, 80, 0)]);
}

#[test]
fn output_stays_in_midi_range() {
    let events = [
        on(0, 1, 127, UNIT),
        on(0, 1, 127, UNIT),
        on(0, 2, 127, UNIT),
        on(1, 1, 0, 0),
        on(1, 2, 127, UNIT),
        on(2, 2, 0, 0),
    ];
    for mix in [0, 1, 499_999, 500_000, 999_999, UNIT] {
        for event in process(&events, &config(mix, 1, 2)) {
            match event {
                Event::NoteOn { channel, note, velocity, .. } => {
                    assert!(channel < 16 && note <= 127 && velocity <= UNIT);
                }
                _ => panic!("only notes are expected"),
            }
        }
    }
}

#[test]
fn engine_decides_event_by_event() {
    let mut engine = Engine::new(config(500_000, 1, 2));
    assert!(engine.has_room());
    assert_eq!(engine.handle(Event::Other), Action::Forward);
    assert_eq!(engine.handle(on(0, 7, 1, 1)), Action::Forward);
    assert_eq!(engine.handle(off(0, 1, 1, 1)), Action::Forward);
    assert_eq!(engine.handle(on(0, 1, 60, 800_000)), Action::Hold);
    assert_eq!(engine.handle(on(0, 2, 72, 400_000)), Action::Hold);
    assert_eq!(engine.handle(on(3, 2, 50, 10)), Action::Emit(on(0, 2, 66, 600_000)));
    assert_eq!(engine.handle(on(3, 5, 50, 10)), Action::Forward);
    assert_eq!(engine.finish(), Some(on(3, 1, 50, 10)));
    // The engine is back at the start of a block.
    assert_eq!(engine.finish(), None);
    assert_eq!(engine.handle(on(2, 1, 9, 9)), Action::Hold);
    assert_eq!(engine.finish(), Some(on(2, 1, 9, 9)));
}

#[test]
fn process_agrees_with_the_engine_run_by_hand() {
    let cfg = config(300_000, 2, 5);
    let events = [
        on(0, 2, 60, 10),
        Event::Other,
        on(1, 5, 70, 20),
        on(1, 2, 80, 30),
        off(2, 2, 60, 0),
        on(4, 5, 90, 40),
    ];
    let mut engine = Engine::new(cfg);
    let mut by_hand = Vec::new();
    for event in events {
        match engine.handle(event) {
            Action::Forward => by_hand.push(event),
            Action::Hold => {}
            Action::Emit(note) => by_hand.push(note),
        }
    }
    by_hand.extend(engine.finish());
    assert_eq!(process(&events, &cfg), by_hand);
    assert_eq!(
        by_hand,
        vec![Event::Other, on(0, 5, 60, 10), off(2, 2, 60, 0), on(1, 5, 77, 27), on(4, 2, 90, 40)]
    );
}

#[test]
fn long_chord_is_averaged_exactly() {
    let mut events = Vec::new();
    for i in 0..100_001u32 {
        events.push(on(7, 1, if i % 2 == 0 { 61 } else { 60 }, i % 3));
    }
    // 50_001 notes of pitch 61 and 50_000 of pitch 60: the mean is just
    // above 60.5. The velocities are 0, 1, 2 in turn: the mean is just
    // below 1.
    let out = process(&events, &config(0, 1, 2));
    assert_eq!(out, vec![on(7, 1, 61, 1)]);
    events.pop();
    // Now the mean pitch is 60.5 exactly, and a tie goes up.
    let out = process(&events, &config(UNIT, 1, 2));
    assert_eq!(out, vec![on(7, 1, 61, 1)]);
    events.pop();
    events.pop();
    events.push(on(7, 1, 60, 0));
    // One 61 fewer than 60s: the mean is just below 60.5.
    let out = process(&events, &config(500_000, 1, 2));
    assert_eq!(out, vec![on(7, 1, 60, 1)]);
}
