use midi_interpolator::accumulator::Accumulator;
use midi_interpolator::blend::interpolate;
use midi_interpolator::event::Event;
use midi_interpolator::ratio::UNIT;

fn sums(acc: &Accumulator) -> [(u64, u128, u128); 2] {
    [
        (acc.count_a(), acc.note_sum_a(), acc.velocity_sum_a()),
        (acc.count_b(), acc.note_sum_b(), acc.velocity_sum_b()),
    ]
}

#[test]
fn new_accumulator_is_empty() {
    let acc = Accumulator::new();
    assert!(acc.is_empty());
    assert_eq!(sums(&acc), [(0, 0, 0), (0, 0, 0)]);
}

#[test]
fn flushing_nothing_emits_nothing() {
    let mut acc = Accumulator::new();
    assert_eq!(acc.flush(3, 1, 500_000), None);
    assert!(acc.is_empty());
}

#[test]
fn accumulating_adds_to_one_side() {
    let mut acc = Accumulator::new();
    acc.accumulate_a(60, 800_000);
    assert_eq!(sums(&acc), [(1, 60, 800_000), (0, 0, 0)]);
    acc.accumulate_a(64, 100_000);
    acc.accumulate_b(72, 400_000);
    assert!(!acc.is_empty());
    assert_eq!(sums(&acc), [(2, 124, 900_000), (1, 72, 400_000)]);
}

#[test]
fn flush_blends_and_resets() {
    let mut acc = Accumulator::new();
    acc.accumulate_a(60, 800_000);
    acc.accumulate_b(72, 400_000);
    let emitted = acc.flush(9, 3, 500_000);
    assert_eq!(
        emitted,
        Some(Event::NoteOn { timing: 9, channel: 3, note: 66, velocity: 600_000 })
    );
    assert_eq!(acc, Accumulator::new());
    assert_eq!(sums(&acc), [(0, 0, 0), (0, 0, 0)]);
    assert_eq!(acc.flush(9, 3, 500_000), None);
}

#[test]
fn flush_borrows_the_other_side_where_one_is_empty() {
    let mut acc = Accumulator::new();
    acc.accumulate_b(10, 100);
    acc.accumulate_b(20, 300);
    assert_eq!(
        acc.flush(0, 0, 0),
        Some(Event::NoteOn { timing: 0, channel: 0, note: 15, velocity: 200 })
    );
    acc.accumulate_a(100, 7);
    assert_eq!(
        acc.flush(1, 2, UNIT),
        Some(Event::NoteOn { timing: 1, channel: 2, note: 100, velocity: 7 })
    );
}

#[test]
fn wide_sums_take_the_largest_values() {
    let mut acc = Accumulator::new();
    for _ in 0..1000 {
        acc.accumulate_a(255, u32::MAX);
        acc.accumulate_b(255, u32::MAX);
    }
    assert_eq!(acc.note_sum_a(), 255_000);
    assert_eq!(acc.velocity_sum_b(), 1000 * (u32::MAX as u128));
    assert_eq!(
        acc.flush(0, 0, 123_457),
        Some(Event::NoteOn { timing: 0, channel: 0, note: 255, velocity: u32::MAX })
    );
}

#[test]
fn interpolate_weighs_the_two_means() {
    assert_eq!(interpolate(60, 1, 72, 1, 500_000), 66);
    assert_eq!(interpolate(60, 1, 72, 1, 0), 60);
    assert_eq!(interpolate(60, 1, 72, 1, UNIT), 72);
    assert_eq!(interpolate(121, 2, 62, 1, 500_000), 61);
    assert_eq!(interpolate(800_000, 1, 400_000, 1, 500_000), 600_000);
    assert_eq!(interpolate(0, 3, 30, 3, 100_000), 1);
    assert_eq!(interpolate(0, 1, 1, 1, 499_999), 0);
    assert_eq!(interpolate(0, 1, 1, 1, 500_000), 1);
}

#[test]
fn interpolate_rounds_ties_up() {
    // Means 1/2 and 1/2: one half rounds up to 1.
    assert_eq!(interpolate(1, 2, 1, 2, 0), 1);
    assert_eq!(interpolate(1, 2, 1, 2, 500_000), 1);
    // Means 1/3 and 2/3: below one half until the mix passes the middle.
    assert_eq!(interpolate(1, 3, 2, 3, 499_999), 0);
    assert_eq!(interpolate(1, 3, 2, 3, 500_000), 1);
    // Means 5/2 and 7/2 at a quarter: 2.75.
    assert_eq!(interpolate(5, 2, 7, 2, 250_000), 3);
    // Means 4/3 and 5/3: 1.4999995 at one step below the middle.
    assert_eq!(interpolate(4, 3, 5, 3, 499_999), 1);
    assert_eq!(interpolate(4, 3, 5, 3, 500_000), 2);
}

#[test]
fn interpolate_carries_the_two_remainders() {
    // 2/3 * 1/2 + 2/3 * 1/2: each half leaves a remainder, together they
    // make the whole step that lifts 0.666... to 1.
    assert_eq!(interpolate(2, 3, 2, 3, 500_000), 1);
    // 7/4 and 9/4 halfway are 2 exactly.
    assert_eq!(interpolate(7, 4, 9, 4, 500_000), 2);
    // 1/7 and 1/11 never reach one half.
    assert_eq!(interpolate(1, 7, 1, 11, 300_000), 0);
    // 10/7 = 1.428... and 17/11 = 1.545...: the blend passes 1.5 between
    // mix 0.61 and 0.62.
    assert_eq!(interpolate(10, 7, 17, 11, 610_000), 1);
    assert_eq!(interpolate(10, 7, 17, 11, 620_000), 2);
}

#[test]
fn interpolate_takes_the_largest_sums_and_counts() {
    let count = u64::MAX;
    let sum = (u32::MAX as u128) * (u64::MAX as u128);
    assert_eq!(interpolate(sum, count, sum, count, 0), u32::MAX);
    assert_eq!(interpolate(sum, count, sum, count, 500_000), u32::MAX);
    assert_eq!(interpolate(sum, count, 0, count, 500_000), 2_147_483_648);
    assert_eq!(interpolate(0, count, sum, count, UNIT), u32::MAX);
    assert_eq!(interpolate(0, count, sum, 1, 0), 0);
    // A mean just below one half stays below it for the largest count.
    let half_down = (u64::MAX / 2) as u128;
    assert_eq!(interpolate(half_down, count, half_down, count, 123_456), 0);
    assert_eq!(interpolate(half_down + 1, count, half_down + 1, count, 123_456), 1);
}
