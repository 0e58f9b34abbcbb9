use bevy_rewind::input::history::InputHistory;
use bevy_rewind::input::message::{FutureInputs, HistoryFor, PastInputs};
use bevy_rewind::input::queue::InputQueue;
use bevy_rewind::input::server::{
    input_entity, load_inputs, publish_confirmed_input_horizon, receive_inputs, sealed,
    send_inputs, store_authority_inputs, ConfirmedHorizon, InputTarget, SEAL_GRACE_TICKS,
};
use bevy_rewind::input::traits::InputTrait;
use bevy_rewind::{ConfirmedInputHorizon, RepliconTick, RollbackTarget};

use std::collections::VecDeque;

#[derive(Clone, Default, Debug, PartialEq)]
struct A(u8);

impl InputTrait for A {
    fn repeats() -> bool {
        true
    }
}

fn tick(tick: u32) -> RepliconTick {
    RepliconTick::new(tick)
}

/// A history whose first entry sits at `first_tick`
fn hist<T>(first_tick: u32, list: impl IntoIterator<Item = T>) -> InputHistory<T> {
    let list = list.into_iter().collect::<VecDeque<T>>();
    InputHistory {
        updated_at: RepliconTick::new(first_tick + list.len().saturating_sub(1) as u32),
        list,
    }
}

fn history_for<T>(
    entity: u64,
    at: u32,
    past: impl IntoIterator<Item = (u8, T)>,
    future: impl IntoIterator<Item = (u8, T)>,
) -> HistoryFor<T> {
    let mut message = HistoryFor {
        entity,
        tick: tick(at),
        past: PastInputs::new(),
        future: FutureInputs::new(),
    };
    for (offset, input) in past {
        message.past.push(offset, input);
    }
    for (offset, input) in future {
        message.future.push(offset, input);
    }
    message
}

/// An entity with a queue of inputs
struct Body {
    id: u64,
    queue: InputQueue<A>,
}

fn body(id: u64) -> Body {
    Body { id, queue: InputQueue::default() }
}

/// A server that receives inputs for entities
struct Server {
    bodies: Vec<Body>,
    targets: Vec<(u64, InputTarget)>,
    rollback_target: RollbackTarget,
    confirmed: ConfirmedHorizon,
    tick: RepliconTick,
}

fn server(bodies: Vec<Body>, at: u32) -> Server {
    Server {
        bodies,
        targets: vec![],
        rollback_target: RollbackTarget::default(),
        confirmed: ConfirmedHorizon::default(),
        tick: tick(at),
    }
}

impl Server {
    fn receive(&mut self, client: Option<u64>, message: InputHistory<A>) {
        let target = client
            .and_then(|client| self.targets.iter().find(|(id, _)| *id == client))
            .map(|(_, target)| *target);
        let Some(entity) = input_entity(client, target) else {
            return;
        };
        let Some(body) = self.bodies.iter_mut().find(|body| body.id == entity) else {
            return;
        };
        receive_inputs(
            &message,
            &mut body.queue,
            self.tick,
            self.confirmed,
            &mut self.rollback_target,
        );
    }

    fn queue(&self, id: u64) -> &InputQueue<A> {
        &self.bodies.iter().find(|body| body.id == id).unwrap().queue
    }
}

fn queued(queue: &InputQueue<A>) -> Vec<(RepliconTick, A)> {
    (0..queue.queue_len()).map(|i| queue.queue(i).unwrap()).map(|(t, v)| (t, v.clone())).collect()
}

fn used(queue: &InputQueue<A>) -> Vec<(RepliconTick, A)> {
    (0..queue.past_len()).map(|i| queue.past(i).unwrap()).map(|(t, v)| (t, v.clone())).collect()
}

fn load(input: &mut A, queue: &mut InputQueue<A>, at: u32) {
    load_inputs(input, queue, None, false, tick(at), ConfirmedHorizon::default(), false);
}

#[test]
fn receives_inputs() {
    let (e1, e2, e3, e4) = (1, 2, 3, 4);
    let mut server = server(vec![body(e1), body(e2), body(e3), body(e4)], 5);
    server.targets.push((e4, InputTarget::all(e3)));

    server.receive(Some(e1), hist(4, [A(1), A(2), A(3)]));
    server.receive(Some(e2), hist(5, [A(1), A(2), A(3)]));
    server.receive(Some(e4), hist(6, [A(1), A(2), A(3)]));

    assert_eq!(
        vec![(tick(4), A(1)), (tick(5), A(2)), (tick(6), A(3))],
        queued(server.queue(e1))
    );
    assert_eq!(
        vec![(tick(5), A(1)), (tick(6), A(2)), (tick(7), A(3))],
        queued(server.queue(e2))
    );
    assert_eq!(
        vec![(tick(6), A(1)), (tick(7), A(2)), (tick(8), A(3))],
        queued(server.queue(e3))
    );
    assert_eq!(0, server.queue(e4).queue_len());

    assert_eq!(Some(tick(4)), server.rollback_target.0);
}

#[test]
fn receive_inputs_takes_min_with_existing_rollback_target() {
    let e_late = 1;
    let mut server = server(vec![body(e_late)], 20);

    server.rollback_target = RollbackTarget(Some(tick(7)));

    server.receive(Some(e_late), hist(15, [A(1), A(2), A(3)]));

    assert_eq!(
        Some(tick(7)),
        server.rollback_target.0,
        "an earlier pre-existing target must not be raised by a later past input",
    );

    server.receive(Some(e_late), hist(3, [A(0), A(0), A(0), A(0)]));

    assert_eq!(
        Some(tick(3)),
        server.rollback_target.0,
        "an earlier incoming past input must lower an existing target",
    );
}

#[test]
fn receive_inputs_does_not_request_rollback_for_future_input() {
    let mut server = server(vec![body(1)], 5);

    server.receive(Some(1), hist(5, [A(1), A(2), A(3)]));

    assert_eq!(None, server.rollback_target.0);
}

#[test]
fn receive_inputs_seals_too_late_input() {
    let mut server = server(vec![body(1)], 15);
    server.confirmed = ConfirmedHorizon(10);

    server.receive(Some(1), hist(8, [A(1)]));

    assert_eq!(
        None, server.rollback_target.0,
        "an input for an already-sealed tick must not request a rollback",
    );
}

#[test]
fn receive_inputs_rolls_back_unsealed_input() {
    let mut server = server(vec![body(1)], 15);
    server.confirmed = ConfirmedHorizon(10);

    server.receive(Some(1), hist(9, [A(1)]));

    assert_eq!(
        Some(tick(9)),
        server.rollback_target.0,
        "an input above the sealed horizon must still request a rollback",
    );
}

#[test]
fn receive_inputs_unsealed_when_horizon_unset() {
    let mut server = server(vec![body(1)], 15);

    server.receive(Some(1), hist(4, [A(1)]));

    assert_eq!(
        Some(tick(4)),
        server.rollback_target.0,
        "with no seal published the eager path must remain unguarded",
    );
}

#[test]
fn sends_inputs() {
    let mut queue = InputQueue::<A>::default();
    queue.add(tick(5), &hist(5, [A(1)]));
    assert_eq!(Some(A(1)), queue.next(tick(5)));
    queue.add(tick(6), &hist(7, [A(3), A(4)]));

    assert_eq!(
        Some(history_for(1, 5, [(0u8, A(1))], [(2u8, A(3)), (3, A(4))])),
        send_inputs(1, &queue, tick(5)),
    );
}

#[test]
fn loads_inputs_with_queue() {
    let mut queue1 = InputQueue::<A>::default();
    queue1.add(tick(5), &hist(4, [A(0), A(1), A(2)]));
    let mut input1 = A(94);

    let mut queue2 = InputQueue::<A>::default();
    queue2.add(tick(5), &hist(6, [A(1), A(2)]));
    let mut input2 = A(94);

    load(&mut input1, &mut queue1, 5);
    load(&mut input2, &mut queue2, 5);
    assert_eq!(A(1), input1);
    assert_eq!(A(0), input2);

    load(&mut input1, &mut queue1, 6);
    load(&mut input2, &mut queue2, 6);
    assert_eq!(A(2), input1);
    assert_eq!(A(1), input2);

    load(&mut input1, &mut queue1, 7);
    load(&mut input2, &mut queue2, 7);
    assert_eq!(A(2), input1);
    assert_eq!(A(2), input2);
}

#[test]
fn remote_body_loads_at_confirmed_horizon_authority_loads_at_present() {
    let confirmed = ConfirmedHorizon(5);

    let mut queue = InputQueue::<A>::default();
    queue.add(tick(7), &hist(5, [A(10), A(20), A(30)]));
    let mut remote = A(0);
    load_inputs(&mut remote, &mut queue, None, false, tick(7), confirmed, true);

    let mut own = A(0);
    load_inputs(
        &mut own,
        &mut InputQueue::default(),
        Some(&hist(5, [A(10), A(20), A(30)])),
        true,
        tick(7),
        confirmed,
        true,
    );

    assert_eq!(A(10), remote);
    assert_eq!(A(30), own);
}

#[test]
fn authority_forward_load_keeps_live_input_and_consumes_queue() {
    let mut queue = InputQueue::<A>::default();
    queue.add(tick(5), &hist(5, [A(9)]));
    let mut own = A(42);
    let history = hist(5, [A(9)]);
    let confirmed = ConfirmedHorizon::default();
    load_inputs(&mut own, &mut queue, Some(&history), true, tick(5), confirmed, false);

    assert_eq!(A(42), own);
    assert_eq!(vec![(tick(5), A(9))], used(&queue));
}

#[test]
fn authority_body_self_feeds_and_broadcasts_with_redundancy() {
    let mut history = InputHistory::default();
    let mut queue = InputQueue::default();
    let mut message = None;

    for (at, value) in [(5, 1), (6, 2), (7, 3)] {
        let mut input = A(value);
        store_authority_inputs(&mut history, &mut queue, &input, tick(at), false);
        let confirmed = ConfirmedHorizon::default();
        load_inputs(&mut input, &mut queue, Some(&history), true, tick(at), confirmed, false);
        message = send_inputs(1, &queue, tick(at));
    }

    assert_eq!(
        Some(history_for(1, 7, [(2u8, A(1)), (1, A(2)), (0, A(3))], [])),
        message,
        "three self-fed ticks must broadcast as a three-deep past-redundant message",
    );
}

#[test]
fn self_feed_is_inert_during_resim() {
    let recorded = hist(5, [A(1), A(2)]);
    let mut history = recorded.clone();

    store_authority_inputs(&mut history, &mut InputQueue::default(), &A(42), tick(9), true);

    assert_eq!(
        recorded, history,
        "a resim step must not re-record the live input over the history it replays",
    );
}

#[test]
fn send_inputs_skips_unfed_queue() {
    assert_eq!(
        None,
        send_inputs(1, &InputQueue::<A>::default(), tick(5)),
        "an unfed queue has nothing to say",
    );
}

#[test]
fn clears_inputs_empty_queue() {
    let mut input = A(94);
    load(&mut input, &mut InputQueue::default(), 5);

    assert_eq!(A(0), input);
}

#[test]
fn receive_and_send_has_no_frame_delay() {
    let e1 = 1;
    let mut server = server(vec![body(e1)], 5);

    server.receive(Some(e1), hist(4, [A(1), A(2), A(3)]));

    assert_eq!(
        Some(history_for(e1, 5, [], [(0u8, A(2)), (1, A(3))])),
        send_inputs(e1, server.queue(e1), tick(5)),
    );
}

#[test]
fn repeat_late_inputs() {
    let mut queue1 = InputQueue::<A>::default();
    queue1.add(tick(0), &hist(4, [A(0), A(1), A(2)]));
    let mut input1 = A(94);

    let mut queue2 = InputQueue::<A>::default();
    queue2.add(tick(0), &hist(0, [A(0), A(1)]));
    let mut input2 = A(94);

    load(&mut input1, &mut queue1, 7);
    load(&mut input2, &mut queue2, 7);

    assert_eq!(A(2), input1);
    assert_eq!(A(1), input2);
}

#[test]
fn receive_inputs_skips_unroutable_messages() {
    let (no_queue, queued) = (1, 2);
    let mut server = server(vec![body(queued)], 5);

    server.receive(None, hist(3, [A(1)]));
    server.receive(Some(no_queue), hist(3, [A(1)]));
    server.receive(Some(queued), hist(4, [A(1)]));

    assert_eq!(
        1,
        server.queue(queued).queue_len(),
        "the routable message after the skipped ones must still be merged",
    );
    assert_eq!(
        Some(tick(4)),
        server.rollback_target.0,
        "only the routable past input may request a rollback (3 was skipped)",
    );
}

#[test]
fn publishes_confirmed_input_horizon_once_per_change() {
    let (fed, unfed) = (1, 2);
    let mut server = server(vec![body(fed), body(unfed)], 5);

    server.receive(Some(fed), hist(5, [A(1)]));

    let published = publish_confirmed_input_horizon(server.queue(fed), None);
    assert_eq!(
        Some(5),
        published.map(|c| c.0),
        "the received horizon must be published onto the body",
    );
    assert!(
        publish_confirmed_input_horizon(server.queue(unfed), None).is_none(),
        "a never-fed queue has no horizon to publish",
    );

    assert_eq!(
        None,
        publish_confirmed_input_horizon(server.queue(fed), published),
        "an unchanged horizon must not be re-inserted",
    );

    server.receive(Some(fed), hist(6, [A(1)]));
    assert_eq!(
        Some(ConfirmedInputHorizon(6)),
        publish_confirmed_input_horizon(server.queue(fed), published),
    );
}

#[test]
fn store_authority_inputs_resets_history_recorded_in_the_future() {
    let mut history = hist(10, [A(1), A(2)]);
    let mut queue = InputQueue::default();

    store_authority_inputs(&mut history, &mut queue, &A(7), tick(5), false);

    assert_eq!(
        hist(5, [A(7)]),
        history,
        "a history from the future must be reset and re-seeded at the current tick",
    );
    assert_eq!(
        vec![(tick(5), A(7))],
        queued(&queue),
        "the re-recorded input must still self-feed the queue",
    );
}

#[test]
fn store_authority_inputs_skips_already_recorded_tick() {
    let mut history = hist(5, [A(9)]);
    let mut queue = InputQueue::default();

    store_authority_inputs(&mut history, &mut queue, &A(7), tick(5), false);

    assert_eq!(
        hist(5, [A(9)]),
        history,
        "a tick that is already recorded must not be overwritten by the live input",
    );
    assert_eq!(
        0,
        queue.queue_len(),
        "an already-recorded tick must not self-feed the queue again",
    );
}

#[test]
fn send_inputs_skips_queue_with_future_consumed_ticks() {
    let mut queue = InputQueue::<A>::default();
    queue.add(tick(10), &hist(10, [A(1)]));
    assert_eq!(Some(A(1)), queue.next(tick(10)));

    assert_eq!(
        None,
        send_inputs(1, &queue, tick(5)),
        "a queue with future consumed ticks must not be broadcast",
    );
}

#[test]
fn authority_resim_missing_history_keeps_live_input() {
    let mut input = A(42);
    let history = hist(5, [A(1)]);
    let confirmed = ConfirmedHorizon::default();
    let mut queue = InputQueue::default();
    load_inputs(&mut input, &mut queue, Some(&history), true, tick(9), confirmed, true);

    assert_eq!(
        A(42),
        input,
        "a history miss during resim must leave the live input untouched",
    );
}

#[test]
fn seals_keep_a_grace() {
    assert_eq!(2, SEAL_GRACE_TICKS);
    assert!(sealed(tick(8), ConfirmedHorizon(10)));
    assert!(!sealed(tick(9), ConfirmedHorizon(10)));
    assert!(sealed(tick(0), ConfirmedHorizon(1)));
    assert!(!sealed(tick(1), ConfirmedHorizon(1)));
    assert!(!sealed(tick(1), ConfirmedHorizon::default()));
}

#[test]
fn only_seven_queued_inputs_are_sent() {
    let mut queue = InputQueue::<A>::default();
    queue.add(tick(5), &hist(5, (0..10).map(A)));
    assert_eq!(
        Some(history_for(9, 6, [], (1..7).map(|i| (i - 1, A(i))))),
        send_inputs(9, &queue, tick(6)),
    );
}
