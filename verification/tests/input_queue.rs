use bevy_rewind::input::history::InputHistory;
use bevy_rewind::input::queue::InputQueue;
use bevy_rewind::input::traits::InputTrait;
use bevy_rewind::RepliconTick;

use std::collections::VecDeque;

#[derive(Clone, Default, Debug, PartialEq)]
struct A(u8);

impl InputTrait for A {
    fn repeats() -> bool {
        true
    }
}

fn tick(tick: u32) -> RepliconTick {
    RepliconTick::new(tick)
}

/// A history whose first entry sits at `first_tick`
fn hist<T>(first_tick: u32, list: impl IntoIterator<Item = T>) -> InputHistory<T> {
    let list = list.into_iter().collect::<VecDeque<T>>();
    InputHistory {
        updated_at: RepliconTick::new(first_tick + list.len().saturating_sub(1) as u32),
        list,
    }
}

#[derive(Clone, Default, Debug, PartialEq)]
struct NoRepeat(u8);

impl InputTrait for NoRepeat {
    fn repeats() -> bool {
        false
    }
}

fn queued<T: Clone>(queue: &InputQueue<T>) -> Vec<(RepliconTick, T)> {
    (0..queue.queue_len()).map(|i| queue.queue(i).unwrap()).map(|(t, v)| (t, v.clone())).collect()
}

fn used<T: Clone>(queue: &InputQueue<T>) -> Vec<(RepliconTick, T)> {
    (0..queue.past_len()).map(|i| queue.past(i).unwrap()).map(|(t, v)| (t, v.clone())).collect()
}

#[test]
fn queue_accepts_past_inputs_and_reports_earliest() {
    let mut queue = InputQueue::<A>::default();

    assert_eq!(queue.queue_len(), 0);

    let earliest = queue.add(tick(10), &hist(7, [A(79), A(80)]));
    assert_eq!(Some(tick(7)), earliest);
    assert_eq!(queue.queue_len(), 2);
    assert_eq!([(tick(7), A(79)), (tick(8), A(80)),].to_vec(), queued(&queue));

    let earliest = queue.add(tick(10), &hist(9, [A(0), A(1), A(2)]));
    assert_eq!(Some(tick(9)), earliest);
    assert_eq!(queue.queue_len(), 5);

    let earliest = queue.add(tick(10), &hist(10, [A(29), A(42), A(3)]));
    assert_eq!(None, earliest);
    assert_eq!(queue.queue_len(), 6);

    let earliest = queue.add(tick(10), &hist(15, [A(6), A(7)]));
    assert_eq!(None, earliest);
    assert_eq!(queue.queue_len(), 8);

    assert_eq!([
            (tick(7), A(79)),
            (tick(8), A(80)),
            (tick(9), A(0)),
            (tick(10), A(29)),
            (tick(11), A(42)),
            (tick(12), A(3)),
            (tick(15), A(6)),
            (tick(16), A(7)),
        ].to_vec(), queued(&queue));
}

#[test]
fn queue_doesnt_overflow() {
    let mut queue = InputQueue::<A>::default();

    queue.add(tick(10), &hist(7, (0..100).map(A)));
    assert_eq!(queue.queue_len(), 30);
}

#[test]
fn queue_repeats_actions_when_none_available() {
    let mut queue = InputQueue::<A>::default();
    queue.add(tick(10), &hist(10, [A(0)]));
    queue.add(tick(10), &hist(17, [A(7)]));

    assert_eq!(queue.next(tick(10)), Some(A(0)));
    assert_eq!(queue.next(tick(11)), Some(A(0)));
    assert_eq!(queue.next(tick(15)), Some(A(0)));
    assert_eq!(queue.next(tick(16)), Some(A(0)));
    assert_eq!(queue.next(tick(17)), Some(A(7)));
}

#[test]
fn queue_repeat_is_optional() {
    let mut queue = InputQueue::<NoRepeat>::default();
    queue.add(tick(10), &hist(10, [NoRepeat(0)]));
    queue.add(tick(10), &hist(17, [NoRepeat(7)]));

    assert_eq!(queue.next(tick(10)), Some(NoRepeat(0)));
    assert_eq!(queue.next(tick(11)), None);
    assert_eq!(queue.next(tick(15)), None);
    assert_eq!(queue.next(tick(17)), Some(NoRepeat(7)));
}

#[test]
fn queue_skips_old_values() {
    let mut queue = InputQueue::<A>::default();
    queue.add(tick(9), &hist(9, [A(0), A(1), A(2)]));

    assert_eq!(queue.next(tick(10)), Some(A(1)));
}

#[test]
fn queue_does_not_report_same_value_resends_as_novel() {
    let mut queue = InputQueue::<A>::default();
    assert_eq!(
        Some(tick(5)),
        queue.add(tick(10), &hist(5, [A(7), A(7), A(7), A(7), A(7)])),
    );
    assert_eq!(
        None,
        queue.add(tick(10), &hist(5, [A(7), A(7), A(7), A(7), A(7)])),
    );
}

#[test]
fn queue_reports_only_the_earliest_differing_past_tick_as_novel() {
    let mut queue = InputQueue::<A>::default();
    queue.add(tick(10), &hist(5, [A(1), A(2), A(3)]));
    assert_eq!(
        Some(tick(7)),
        queue.add(tick(10), &hist(5, [A(1), A(2), A(99)])),
    );
}

#[test]
fn queue_does_not_report_already_consumed_evicted_ticks_as_novel() {
    let mut queue = InputQueue::<A>::default();
    queue.add(tick(5), &hist(5, [A(1), A(2), A(3), A(4), A(5)]));
    for t in 5..=9 {
        queue.next(tick(t));
    }
    assert_eq!(
        None,
        queue.add(tick(15), &hist(5, [A(1), A(2), A(3), A(4), A(5)])),
    );
}

#[test]
fn queue_reports_unseen_past_tick_after_some_consumption_as_novel() {
    let mut queue = InputQueue::<A>::default();
    queue.add(tick(5), &hist(5, [A(1), A(2)]));
    queue.next(tick(5));
    queue.next(tick(6));
    assert_eq!(
        Some(tick(7)),
        queue.add(tick(10), &hist(7, [A(42)])),
    );
}

#[test]
fn queue_does_not_report_predicted_repeat_as_novel() {
    let mut queue = InputQueue::<A>::default();
    queue.add(tick(5), &hist(5, [A(1), A(1), A(1)]));
    for t in 5..=7 {
        queue.next(tick(t));
    }
    assert_eq!(
        None,
        queue.add(tick(10), &hist(8, [A(1)])),
        "a new past tick equal to the repeated prediction is not a misprediction",
    );
}

#[test]
fn queue_reports_diverging_new_past_tick_as_novel() {
    let mut queue = InputQueue::<A>::default();
    queue.add(tick(5), &hist(5, [A(1), A(1), A(1)]));
    for t in 5..=7 {
        queue.next(tick(t));
    }
    assert_eq!(
        Some(tick(8)),
        queue.add(tick(10), &hist(8, [A(9)])),
        "a new past tick differing from the repeated prediction is a misprediction",
    );
}

#[test]
fn queue_tracks_past_inputs() {
    let mut queue = InputQueue::<A>::default();
    queue.add(tick(9), &hist(9, [A(0), A(1), A(2)]));
    queue.add(tick(9), &hist(13, [A(4)]));

    assert_eq!(queue.next(tick(10)), Some(A(1)));
    assert_eq!(queue.past_len(), 1);
    assert_eq!(queue.next(tick(11)), Some(A(2)));
    assert_eq!(queue.past_len(), 2);

    assert_eq!(queue.next(tick(12)), Some(A(2)));
    assert_eq!(queue.past_len(), 2);

    assert_eq!(queue.next(tick(13)), Some(A(4)));
    assert_eq!(queue.past_len(), 3);

    assert_eq!([
            (tick(10), A(1)),
            (tick(11), A(2)),
            (tick(13), A(4))
        ].to_vec(), used(&queue));
}

#[test]
fn queue_drops_late_nonrepeating_input() {
    let mut queue = InputQueue::<NoRepeat>::default();
    queue.add(tick(10), &hist(10, [NoRepeat(3)]));

    assert_eq!(None, queue.next(tick(12)));
    assert_eq!(0, queue.past_len(), "nothing was consumed for tick 12");
    assert_eq!(0, queue.queue_len(), "the late entry was still drained");
}

#[test]
fn queue_ignores_empty_history() {
    let mut queue = InputQueue::<A>::default();

    assert_eq!(None, queue.add(tick(5), &hist(0, [])));
    assert_eq!(0, queue.queue_len());
    assert_eq!(None, queue.received_horizon());
}

#[test]
fn queue_repeats_late_input_forward() {
    let mut queue = InputQueue::<A>::default();
    queue.add(tick(5), &hist(5, [A(3)]));

    assert_eq!(Some(A(3)), queue.next(tick(7)));
    assert_eq!(
        vec![(tick(7), A(3))],
        used(&queue),
    );
}

#[test]
fn queue_keeps_the_last_three_used_inputs() {
    let mut queue = InputQueue::<A>::default();
    queue.add(tick(1), &hist(1, (1..9).map(A)));
    for t in 1..=5 {
        assert_eq!(Some(A(t)), queue.next(tick(t as u32)));
    }
    assert_eq!(vec![(tick(3), A(3)), (tick(4), A(4)), (tick(5), A(5))], used(&queue));
    assert_eq!(3, queue.queue_len());
    assert!(queue.past(3).is_none());
    assert!(queue.queue(3).is_none());
}

#[test]
fn queue_stays_in_order() {
    let mut queue = InputQueue::<A>::default();
    queue.add(tick(10), &hist(20, [A(20)]));
    queue.add(tick(10), &hist(14, [A(14), A(15)]));
    queue.add(tick(10), &hist(17, [A(17)]));
    queue.add(tick(10), &hist(11, [A(11)]));
    let ticks: Vec<u32> = queued(&queue).iter().map(|(t, _)| t.get()).collect();
    assert_eq!(vec![11, 14, 15, 17, 20], ticks);
    assert_eq!(Some(tick(20)), queue.received_horizon());
}

#[test]
fn queued_inputs_are_used() {
    let mut queue = InputQueue::<A>::default();
    queue.add(tick(5), &hist(5, [A(1), A(2), A(3)]));
    assert_eq!(Some(A(3)), queue.next(tick(7)));
    assert_eq!(vec![(tick(7), A(3))], used(&queue));
}

#[test]
fn resent_inputs_leave_the_queue_as_it_was() {
    let mut queue = InputQueue::<A>::default();
    queue.add(tick(10), &hist(3, [A(1), A(2), A(3), A(4)]));
    queue.add(tick(10), &hist(12, [A(8), A(9)]));

    let sent = hist(5, [A(5), A(6), A(7)]);
    queue.add(tick(10), &sent);
    let before = queued(&queue);
    assert_eq!(7, before.len());
    assert_eq!((tick(5), A(5)), before[2]);

    assert_eq!(None, queue.add(tick(10), &sent));
    assert_eq!(before, queued(&queue));
    assert!(used(&queue).is_empty());
    assert_eq!(Some(tick(13)), queue.received_horizon());
}

#[derive(Clone, Default, Debug, PartialEq)]
struct Stick(f32);

impl InputTrait for Stick {
    fn repeats() -> bool {
        true
    }
}

#[test]
fn inputs_are_compared_by_their_own_equality() {
    let mut queue = InputQueue::<Stick>::default();
    assert_eq!(Some(tick(5)), queue.add(tick(10), &hist(5, [Stick(0.0)])));
    // The two zeros are equal, so nothing is new.
    assert_eq!(None, queue.add(tick(10), &hist(5, [Stick(-0.0)])));
    // What is not equal to itself is always new.
    let odd = hist(5, [Stick(f32::NAN)]);
    assert_eq!(Some(tick(5)), queue.add(tick(10), &odd));
    assert_eq!(Some(tick(5)), queue.add(tick(10), &odd));
}

#[test]
fn ticks_half_of_all_apart_come_before_each_other() {
    const HALF: u32 = 1 << 31;
    let mut queue = InputQueue::<A>::default();
    assert_eq!(Some(tick(7)), queue.add(tick(7 + HALF), &hist(7, [A(1)])));
    assert_eq!(Some(tick(7)), queue.received_horizon());
    queue.add(tick(7), &hist(7 + HALF, [A(2)]));
    assert_eq!(Some(tick(7 + HALF)), queue.received_horizon());
    assert_eq!(2, queue.queue_len());
}
