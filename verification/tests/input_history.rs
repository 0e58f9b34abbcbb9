use bevy_rewind::input::history::{InputHistory, INPUT_HISTORY_CAPACITY};
use bevy_rewind::input::traits::InputTrait;
use bevy_rewind::RepliconTick;

use std::collections::VecDeque;

#[derive(Clone, Default, Debug, PartialEq)]
struct A(u8);

impl InputTrait for A {
    fn repeats() -> bool {
        true
    }
}

fn tick(tick: u32) -> RepliconTick {
    RepliconTick::new(tick)
}

/// A history whose first entry sits at `first_tick`
fn hist<T>(first_tick: u32, list: impl IntoIterator<Item = T>) -> InputHistory<T> {
    let list = list.into_iter().collect::<VecDeque<T>>();
    InputHistory {
        updated_at: RepliconTick::new(first_tick + list.len().saturating_sub(1) as u32),
        list,
    }
}

/// An input whose repetition depends on how many ticks have elapsed since it was last known
#[derive(Clone, Default, Debug, PartialEq)]
struct Ramp(u32);

impl InputTrait for Ramp {
    fn repeats() -> bool {
        true
    }

    fn repeated(&self, since: u32) -> Option<Self> {
        Some(Ramp(self.0 + since))
    }
}

#[derive(Clone, Default, Debug, PartialEq)]
struct E(u64);

#[test]
fn history_get() {
    let history = hist(10, [A(1), A(2), A(3), A(4), A(5)]);

    for i in 0..5 {
        assert_eq!(Some(A(1 + i)), history.get(tick(10 + i as u32), false));
    }

    assert_eq!(None, history.get(tick(9), false));
    assert_eq!(None, history.get(tick(0), false));
    assert_eq!(None, history.get(tick(5), false));
    assert_eq!(None, history.get(tick(15), false));
    assert_eq!(None, history.get(tick(20), false));
    assert_eq!(None, history.get(tick(598182), false));
}

#[test]
fn get_repeats() {
    let history = hist(0, [A(1)]);

    for i in 0..5 {
        assert_eq!(Some(A(1)), history.get(tick(i as u32), true));
    }
    assert_eq!(Some(A(1)), history.get(tick(6), true));
    assert_eq!(Some(A(1)), history.get(tick(2309), true));
}

#[test]
fn write() {
    let mut history = InputHistory::<A>::default();

    history.write(tick(15), A(1));
    assert_eq!(1, history.list.len());
    assert_eq!(tick(15), history.updated_at());

    history.write(tick(16), A(2));
    assert_eq!(2, history.list.len());
    assert_eq!(tick(16), history.updated_at());

    history.write(tick(14), A(0));
    assert_eq!(2, history.list.len());
    assert_eq!(tick(16), history.updated_at());

    history.write(tick(20), A(6));
    assert_eq!(6, history.list.len());
    assert_eq!(tick(20), history.updated_at());

    assert_eq!(hist(15, [A(1), A(2), A(2), A(2), A(2), A(6)]), history);

    history.write(tick(46), A(10));
    assert_eq!(1, history.list.len());
}

#[test]
fn write_with_gaps_wrap() {
    let mut history = hist(10, (0..10).map(A));
    assert_eq!(10, history.list.len());

    history.write(tick(25), A(15));
    assert_eq!(10, history.list.len());
    assert_eq!(
        hist(
            16,
            (6..10).map(A).chain((0..5).map(|_| A(9))).chain([A(15)])
        ),
        history
    );
}

#[test]
fn write_gap_equal_to_capacity_salvages_instead_of_clearing() {
    let mut history = InputHistory::<A>::default();
    history.write(tick(10), A(1));
    history.write(tick(11), A(2));
    let cap = history.list.capacity() as u32;

    history.write(tick(11 + cap), A(9));

    assert!(
        history.list.len() > 1,
        "a gap exactly equal to capacity must salvage the tail and gap-fill \
         (leaving a full window), not clear the list down to the lone new entry",
    );
    assert_eq!(tick(11 + cap), history.updated_at());
}

#[test]
fn write_gap_fill_extrapolates_each_missing_tick_forward() {
    let mut history = InputHistory::<Ramp>::default();
    history.write(tick(5), Ramp(0));
    history.write(tick(8), Ramp(100));

    assert_eq!(
        hist(5, [Ramp(0), Ramp(1), Ramp(2), Ramp(100)]),
        history,
        "the two skipped ticks (6, 7) must be filled by extrapolating the last \
         known input forward by 1 and 2 ticks — the offset is (gap_tick - last)",
    );
}

#[test]
fn first_tick() {
    let mut history = InputHistory::<A>::default();

    assert_eq!(tick(0), history.updated_at());
    assert_eq!(tick(0), history.first_tick());

    history.write(tick(15), A(1));
    assert_eq!(tick(15), history.updated_at());
    assert_eq!(tick(15), history.first_tick());

    history.write(tick(16), A(1));
    assert_eq!(2, history.list.len());
    assert_eq!(tick(15), history.first_tick());

    let history = hist(10, [A(0), A(1), A(2), A(3), A(4), A(5)]);
    assert_eq!(tick(15), history.updated_at());
    assert_eq!(6, history.list.len());
    assert_eq!(tick(10), history.first_tick());
}

fn entries(list: impl IntoIterator<Item = (u32, A)>) -> Vec<(RepliconTick, A)> {
    list.into_iter().map(|(t, a)| (tick(t), a)).collect()
}

#[test]
fn replace_section() {
    let original = hist(10, [A(1), A(2), A(3), A(4)]);

    let mut history = original.clone();
    history.list.reserve_exact(6);
    history.replace_section(entries([(13, A(10)), (14, A(11))]));

    let expected = hist(10, [A(1), A(2), A(3), A(10), A(11)]);
    assert_eq!(expected, history);

    let mut history = original.clone();
    history.list.reserve_exact(6);
    history.replace_section(entries([(8, A(10)), (9, A(11)), (10, A(12))]));

    let expected = hist(8, [A(10), A(11), A(12), A(2), A(3), A(4)]);
    assert_eq!(expected, history);

    let mut history = original.clone();
    history.list.reserve_exact(6);
    history.replace_section(entries([(11, A(10)), (12, A(11))]));

    let expected = hist(10, [A(1), A(10), A(11), A(4)]);
    assert_eq!(expected, history);

    let mut history = original.clone();
    history.list.reserve_exact(6);
    history.replace_section(entries([(50, A(10)), (51, A(11))]));

    let expected = hist(50, [A(10), A(11)]);
    assert_eq!(expected, history);
}

#[test]
fn map_entities_remaps_stored_inputs() {
    let (from, to) = (3, 8);

    let mut history = hist(3, [E(from), E(from)]);
    history.map_entities(&|e: &E| E(if e.0 == from { to } else { e.0 }));

    assert_eq!(hist(3, [E(to), E(to)]), history);
}

#[test]
fn replace_section_skips_entries_far_in_the_past() {
    let original = hist(30, [A(1), A(2)]);

    let mut history = original.clone();
    history.replace_section(entries([(20, A(9))]));

    assert_eq!(original, history, "an ancient entry must be dropped");
}

#[test]
fn replace_section_seeds_empty_history_in_range() {
    let mut history = hist(20, []);
    history.replace_section(entries([(20, A(5))]));

    assert_eq!(hist(20, [A(5)]), history);
}

#[test]
fn replace_section_applies_entry_exactly_ten_ticks_behind_head() {
    let mut history = hist(0, (0..15).map(A));
    history.replace_section(entries([(4, A(99))]));

    assert_eq!(
        Some(A(99)),
        history.get(tick(4), false),
        "an entry exactly ten ticks behind updated_at (14) is not yet too old \
         and must be applied in place, not skipped",
    );
}

#[test]
fn replace_section_replaces_the_head_tick_in_place() {
    let mut history = hist(10, [A(1), A(2), A(3)]);
    history.replace_section(entries([(10, A(50))]));

    assert_eq!(
        hist(10, [A(50), A(2), A(3)]),
        history,
        "an entry at exactly first_tick must replace the head in place, not \
         prepend a new out-of-range element ahead of it",
    );
}

#[test]
fn replace_section_prepend_extrapolates_each_gap_tick_forward() {
    let mut history = hist(20, [Ramp(0), Ramp(0)]);
    history.replace_section(vec![(tick(17), Ramp(0))]);

    assert_eq!(
        hist(17, [Ramp(0), Ramp(1), Ramp(2), Ramp(0), Ramp(0)]),
        history,
        "prepending three ticks before first_tick must fill the two gap ticks \
         (18, 19) by extrapolating the entry forward by 1 and 2 — the offset is \
         (first_tick - tick - 1)",
    );
}

#[test]
fn reset_clears_to_default() {
    let mut history = hist(10, [A(1), A(2)]);
    history.reset();

    assert!(history.is_empty());
    assert_eq!(InputHistory::<A>::default(), history);
}

#[test]
fn leading_up_within_a_room() {
    let mut history = hist(10, [A(1), A(2), A(3)]);
    history.lead_up(tick(15), 4);
    history.push_within(tick(15), A(9), 4);
    assert_eq!(hist(12, [A(3), A(3), A(3), A(9)]), history);

    // A gap that is larger than the room leaves nothing to repeat.
    let mut history = hist(10, [A(1), A(2), A(3)]);
    history.lead_up(tick(17), 4);
    history.push_within(tick(17), A(9), 4);
    assert_eq!(hist(17, [A(9)]), history);
}

#[test]
fn written_inputs_are_read() {
    let mut history = InputHistory::default();
    assert!(history.list.capacity() >= INPUT_HISTORY_CAPACITY);
    for t in 0..40 {
        assert!(history.write(tick(t), A(t as u8)));
        assert_eq!(Some(A(t as u8)), history.get(tick(t), false));
    }
    assert!(!history.write(tick(20), A(99)));
    assert_eq!(Some(A(20)), history.get(tick(20), false));
    assert_eq!(tick(39), history.updated_at());
}

#[test]
fn single_inputs_are_replaced() {
    let mut history = hist(10, [A(1), A(2), A(3)]);
    history.list.reserve_exact(6);
    history.replace(tick(11), A(9));
    assert_eq!(hist(10, [A(1), A(9), A(3)]), history);
    history.replace(tick(13), A(4));
    assert_eq!(hist(10, [A(1), A(9), A(3), A(4)]), history);
    history.replace(tick(8), A(7));
    assert_eq!(hist(8, [A(7), A(7), A(1), A(9), A(3), A(4)]), history);
}

#[test]
fn an_empty_history_is_filled_up_to_its_last_tick() {
    let mut history = hist::<Ramp>(21, []);
    history.replace(tick(18), Ramp(0));
    assert_eq!(hist(18, [Ramp(0), Ramp(1), Ramp(2), Ramp(2)]), history);
    for (t, ramp) in [(18, 0), (19, 1), (20, 2), (21, 2)] {
        assert_eq!(Some(Ramp(ramp)), history.get(tick(t), false));
    }

    // The tick before the last one takes the place of the last one.
    let mut history = hist::<Ramp>(21, []);
    history.replace(tick(20), Ramp(5));
    assert_eq!(hist(21, [Ramp(5)]), history);
}

#[test]
fn filling_a_gap_agrees_with_the_prediction() {
    let mut history = InputHistory::<Ramp>::default();
    for t in 3..8 {
        history.write(tick(t), Ramp(100 * t));
    }
    let capacity = history.list.capacity();
    let predicted: Vec<_> = (3..20).map(|t| history.get(tick(t), true)).collect();
    assert_eq!(Some(Ramp(712)), predicted[16]);

    history.write(tick(20), Ramp(0));
    let filled: Vec<_> = (3..20).map(|t| history.get(tick(t), true)).collect();
    assert_eq!(predicted, filled);
    assert_eq!(Some(Ramp(0)), history.get(tick(20), false));
    assert!(history.list.len() <= capacity);
}

#[test]
fn a_tick_half_of_all_before_the_first_has_no_input() {
    let history = hist(10, [A(1), A(2)]);
    assert_eq!(None, history.get(tick(10 + (1 << 31)), true));
}
