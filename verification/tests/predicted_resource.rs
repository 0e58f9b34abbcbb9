use bevy_rewind::predicted_resource::{append_history, append_with_capacity, save_initial};
use bevy_rewind::TickData::Missing;
use bevy_rewind::{RepliconTick, ResourceHistory, RollbackFrames, StoreFor, TickData};

use std::collections::VecDeque;
use std::fmt::Debug;

#[derive(Clone, Copy, PartialEq, Eq, Debug)]
struct A(u8);
#[derive(Clone, Copy, PartialEq, Eq, Debug)]
struct B(u8);

fn a(v: u8) -> TickData<A> {
    TickData::Value(A(v))
}
fn b(v: u8) -> TickData<B> {
    TickData::Value(B(v))
}

fn list_array<T: Copy + Debug, const N: usize>(history: &ResourceHistory<T>) -> [TickData<T>; N] {
    assert_eq!(N, history.list.len(), "Length mismatch");
    let mut list = [TickData::<T>::Missing; N];
    for (i, item) in history.list.iter().take(N).enumerate() {
        list[i] = *item;
    }
    list
}

struct App {
    tick: u32,
    frames: RollbackFrames,
    a: Option<A>,
    hist_a: ResourceHistory<A>,
    b: Option<B>,
    hist_b: ResourceHistory<B>,
}

impl App {
    fn update(&mut self) {
        let store_for = StoreFor(RepliconTick::new(self.tick));
        append_history(self.a.as_ref(), &mut self.hist_a, store_for, self.frames);
        append_history(self.b.as_ref(), &mut self.hist_b, store_for, self.frames);
        self.tick += 1;
    }
}

fn init_app() -> App {
    App {
        tick: 0,
        frames: RollbackFrames::new(3),
        a: Some(A(1)),
        hist_a: ResourceHistory::default(),
        b: Some(B(2)),
        hist_b: ResourceHistory::default(),
    }
}

fn assert_lengths(app: &App, len: usize) {
    assert_eq!(len, app.hist_a.list.len(), "Length does not match");
    assert_eq!(len, app.hist_b.list.len(), "Length does not match");
}

fn assert_capacity(app: &App, cap: usize) {
    assert_eq!(cap, app.hist_a.list.capacity(), "Capacity does not match");
    assert_eq!(cap, app.hist_b.list.capacity(), "Capacity does not match");
}

fn increment_resources(app: &mut App) {
    if let Some(a) = app.a.as_mut() {
        a.0 += 1;
    }
    if let Some(b) = app.b.as_mut() {
        b.0 += 1;
    }
}

#[test]
fn history_appends() {
    let mut app = init_app();

    for length in [0, 1] {
        assert_lengths(&app, length);
        app.update();
        increment_resources(&mut app);
        assert_lengths(&app, length + 1);
    }

    assert_eq!([a(1), a(2)], list_array(&app.hist_a));
    assert_eq!([b(2), b(3)], list_array(&app.hist_b));
}

#[test]
fn history_removes_and_reinserts() {
    let mut app = init_app();

    assert_lengths(&app, 0);

    app.update();
    assert_lengths(&app, 1);

    increment_resources(&mut app);
    app.a = None;
    app.update();
    assert_lengths(&app, 2);

    increment_resources(&mut app);
    app.a = Some(A(3));
    app.b = None;
    app.update();
    assert_lengths(&app, 3);

    assert_eq!([a(1), TickData::Removed, a(3)], list_array(&app.hist_a));
    assert_eq!([b(2), b(3), TickData::Removed], list_array(&app.hist_b));
}

#[test]
fn history_wraps() {
    let mut app = init_app();

    for length in [1, 2, 3, 4, 5, 5, 5] {
        app.update();
        assert_lengths(&app, length);
        increment_resources(&mut app);
    }

    assert_eq!([a(3), a(4), a(5), a(6), a(7)], list_array(&app.hist_a));
}

#[test]
fn history_resizes_to_match_rollback_frames() {
    let mut app = init_app();

    app.update();
    assert_lengths(&app, 1);
    assert_capacity(&app, 5);

    app.frames = RollbackFrames::new(1);
    for length in [2, 3, 3, 3] {
        app.update();
        assert_lengths(&app, length);
        assert_capacity(&app, 3);
    }

    app.frames = RollbackFrames::new(5);
    for length in [4, 5, 6, 7, 7, 7] {
        app.update();
        assert_lengths(&app, length);
        assert_capacity(&app, 7);
    }
}

#[test]
fn fast_forwarded() {
    let mut app = init_app();

    app.update();
    assert_lengths(&app, 1);

    app.tick = 3;

    for _ in 0..3 {
        increment_resources(&mut app);
    }

    app.update();
    assert_lengths(&app, 4);

    assert_eq!([a(1), a(1), a(1), a(4)], list_array(&app.hist_a));
}

#[test]
fn fast_forwarded_wraps() {
    let mut app = init_app();

    app.update();
    assert_lengths(&app, 1);

    app.tick = 10;

    for _ in 0..10 {
        increment_resources(&mut app);
    }

    app.update();
    assert_lengths(&app, 5);

    assert_eq!([a(1), a(1), a(1), a(1), a(11)], list_array(&app.hist_a));
}

#[test]
fn predicted_resource_get() {
    let mut history = ResourceHistory {
        list: VecDeque::from([a(5), a(6), TickData::Removed, a(8)]),
        last_tick: 6,
    };

    assert_eq!(&a(5), history.get(RepliconTick::new(3)));
    assert_eq!(&a(6), history.get(RepliconTick::new(4)));
    assert_eq!(&TickData::Removed, history.get(RepliconTick::new(5)));
    assert_eq!(&a(8), history.get(RepliconTick::new(6)));

    assert_eq!(&Missing, history.get(RepliconTick::new(1)));
    assert_eq!(&Missing, history.get(RepliconTick::new(2)));

    assert_eq!(&Missing, history.get(RepliconTick::new(7)));
    assert_eq!(&Missing, history.get(RepliconTick::new(2589)));

    history.list[0] = TickData::Removed;
    assert_eq!(&TickData::Removed, history.get(RepliconTick::new(3)));
    assert_eq!(&TickData::Removed, history.get(RepliconTick::new(1)));
}

#[test]
fn predicted_resource_clean() {
    let original = ResourceHistory {
        list: VecDeque::from([a(5), a(6), a(7)]),
        last_tick: 5,
    };

    for tick in [1, 2] {
        let mut history = original.clone();
        history.clean(RepliconTick::new(tick));
        assert_eq!(0, history.list.len());
        assert_eq!(tick, history.last_tick);
    }

    for tick in [3, 4, 5] {
        let mut history = original.clone();
        history.clean(RepliconTick::new(tick));
        assert_eq!(3 - (5 - tick as usize), history.list.len());
        assert_eq!(tick, history.last_tick);
    }

    for tick in [6, 2589] {
        let mut history = original.clone();
        history.clean(RepliconTick::new(tick));
        assert_eq!(3, history.list.len());
        assert_eq!(5, history.last_tick);
    }
}

#[test]
fn keep_one() {
    let mut history = ResourceHistory {
        list: VecDeque::from([a(5), a(6), a(7)]),
        last_tick: 5,
    };
    assert_eq!(3, history.list.len());
    assert_eq!(5, history.last_tick);

    history.keep_one();

    assert_eq!(1, history.list.len());
    assert_eq!(3, history.last_tick);

    history.keep_one();

    assert_eq!(1, history.list.len());
    assert_eq!(3, history.last_tick);
}

#[test]
fn keep_one_empty() {
    let mut history = ResourceHistory::<A> {
        list: VecDeque::new(),
        last_tick: 5,
    };

    history.keep_one();
    assert_eq!(0, history.len());
    assert_eq!(5, history.last_tick);
}

#[test]
fn keep_one_doesnt_get_overridden() {
    let mut app = init_app();
    app.tick += 3;

    app.update();
    increment_resources(&mut app);
    app.update();

    assert_lengths(&app, 2);

    app.a = None;
    app.hist_a.keep_one();
    app.b = None;
    app.hist_b.keep_one();

    assert_lengths(&app, 1);

    app.tick -= 3;

    app.update();
    assert_lengths(&app, 1);
    app.update();
    assert_lengths(&app, 1);

    app.update();
    assert_lengths(&app, 2);

    assert_eq!([a(1), TickData::Removed], list_array(&app.hist_a));
}

#[test]
fn rollback_frames_are_capped_at_60() {
    assert_eq!(60, RollbackFrames::new(61).max_frames());
    assert_eq!(5, RollbackFrames::new(5).max_frames());
}

#[test]
fn history_holds_two_more_than_the_frames() {
    assert_eq!(62, RollbackFrames::new(200).history_size());
    assert_eq!(7, RollbackFrames::new(5).history_size());
    assert_eq!(15, RollbackFrames::default().max_frames());
}

#[test]
fn initial_value_is_saved_into_an_empty_history() {
    let mut history = ResourceHistory::default();
    save_initial(&A(4), &mut history, StoreFor(RepliconTick::new(8)));
    assert_eq!([a(4)], list_array(&history));
    assert_eq!(8, history.last_tick);

    save_initial(&A(5), &mut history, StoreFor(RepliconTick::new(9)));
    assert_eq!([a(4)], list_array(&history));
    assert_eq!(8, history.last_tick);
}

#[test]
fn appended_within_a_room() {
    let mut history = ResourceHistory::default();
    for tick in 4..9 {
        history.append_within(Some(&A(tick as u8)), RepliconTick::new(tick), 3);
    }
    assert_eq!([a(6), a(7), a(8)], list_array(&history));
    assert_eq!(8, history.last_tick);

    // Ticks that were stored before are left alone.
    history.append_within(Some(&A(1)), RepliconTick::new(8), 3);
    assert_eq!([a(6), a(7), a(8)], list_array(&history));

    history.append_within(None, RepliconTick::new(10), 3);
    assert_eq!([a(8), a(8), TickData::Removed], list_array(&history));
    assert_eq!(&TickData::Removed, history.get(RepliconTick::new(10)));
}

#[test]
fn skipped_ticks_fill_the_room_that_is_made() {
    let frames = RollbackFrames::new(15);
    let tick = StoreFor(RepliconTick::new(100));
    for (capacity, len) in [(1, 17), (4, 14), (9, 9), (17, 17), (40, 17)] {
        let mut history = ResourceHistory::from_list(0, [a(1)]);
        append_with_capacity(Some(&A(9)), &mut history, tick, frames, capacity);
        assert_eq!(len, history.len());
        assert_eq!(&a(9), history.get(RepliconTick::new(100)));
        assert_eq!(&a(1), history.get(RepliconTick::new(99)));
    }
}

#[test]
fn a_saved_initial_value_leaves_little_room() {
    let mut history = ResourceHistory::default();
    save_initial(&A(1), &mut history, StoreFor(RepliconTick::new(0)));
    let capacity = history.list.capacity();
    let len = if capacity >= 17 { 17 } else { capacity.max(1 + 17 - capacity) };

    let tick = StoreFor(RepliconTick::new(100));
    append_history(Some(&A(9)), &mut history, tick, RollbackFrames::new(15));
    assert_eq!(len, history.len());

    // One tick after the other, nothing is lost before the history is full.
    for tick in 101..120 {
        let before = history.len();
        let tick = StoreFor(RepliconTick::new(tick));
        append_history(Some(&A(9)), &mut history, tick, RollbackFrames::new(15));
        assert_eq!((before + 1).min(17), history.len());
    }
}
