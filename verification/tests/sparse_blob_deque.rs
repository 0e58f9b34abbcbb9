use std::sync::{Arc, RwLock};

use bevy_rewind::history::sparse_blob_deque::SparseBlobDeque;

#[derive(Clone, PartialEq, Eq, Debug)]
struct A(u16);

/// A simple component without a value
#[derive(Clone, PartialEq, Eq, Debug)]
struct B;

#[derive(Clone, Debug, Default)]
struct DropList(Arc<RwLock<Vec<u16>>>);

fn assert_drops(drops: &DropList, order: impl Into<Vec<u16>>) {
    let order = order.into();
    assert_eq!(order, *drops.0.read().unwrap());
}

#[derive(Clone, Debug)]
struct D(u16, DropList);

impl D {
    fn new(v: u16, list: &DropList) -> Self {
        Self(v, list.clone())
    }
}

impl PartialEq for D {
    fn eq(&self, other: &Self) -> bool {
        self.0 == other.0
    }
}

impl Drop for D {
    fn drop(&mut self) {
        let mut guard = self.1 .0.write().unwrap();
        if guard.contains(&self.0) {
            panic!("Detected double drop!");
        }
        guard.push(self.0);
    }
}

/// Append an `A(v)` value, or an empty (sparse) slot when `v` is `None`.
fn ap(h: &mut SparseBlobDeque<A>, v: Option<u16>) {
    h.append(v.map(A));
}

/// Append a drop-tracked `D(v)` value, or an empty slot when `v` is `None`.
fn ad(h: &mut SparseBlobDeque<D>, v: Option<u16>, drops: &DropList) {
    h.append(v.map(|v| D::new(v, drops)));
}

/// Replace the slot at `i` with `A(v)`.
fn rep(h: &mut SparseBlobDeque<A>, i: usize, v: u16) {
    h.replace(i, A(v));
}

/// The items are dropped front first.
fn drop_slots(mut h: SparseBlobDeque<D>) {
    h.clear();
}

#[test]
fn sparse_blob_deque_get() {
    let mut history = SparseBlobDeque::<A>::from_type(5);
    assert_eq!(None, history.get(0));

    for i in 0..3 {
        if i % 2 == 0 {
            ap(&mut history, Some(i * 5));
        } else {
            ap(&mut history, None);
        }
    }
    ap(&mut history, Some(3));

    for (i, a) in [Some(&A(0)), None, Some(&A(10)), Some(&A(3)), None].into_iter().enumerate() {
        assert_eq!(a, history.get(i));
    }
}

#[test]
fn append_full() {
    let mut history = SparseBlobDeque::<A>::from_type(5);

    for i in 0..5 {
        ap(&mut history, Some(i + 1));
    }

    assert_eq!(5, history.len());
    assert_eq!(5, history.stored_items());
    for i in 0..5 {
        assert_eq!(Some(&A(i as u16 + 1)), history.get(i));
    }

    ap(&mut history, Some(6));
    assert_eq!(5, history.len());
    assert_eq!(5, history.stored_items());
    for i in 0..5 {
        assert_eq!(Some(&A(i as u16 + 2)), history.get(i));
    }
}

#[test]
fn dense_storage() {
    let mut history = SparseBlobDeque::<A>::from_type(10);
    assert_eq!(None, history.get(0));
    assert_eq!(1, history.items.capacity());

    for _ in 0..5 {
        ap(&mut history, None);
    }

    // None items shouldn't add capacity
    assert_eq!(5, history.len());
    assert_eq!(1, history.items.capacity());

    ap(&mut history, Some(1));
    // We shouldn't need to expand yet
    assert_eq!(1, history.items.len());
    assert_eq!(1, history.items.capacity());

    ap(&mut history, Some(2));
    // Expand to fit just the new item
    assert_eq!(2, history.items.len());
    assert_eq!(2, history.items.capacity());

    for _ in 0..10 {
        ap(&mut history, None);
    }

    // We don't release memory if the items are wrapped out of history
    assert_eq!(0, history.items.len());
    assert_eq!(2, history.items.capacity());

    for i in 0..10 {
        ap(&mut history, Some(i));
    }

    // We should never make it exceed our own capacity
    assert_eq!(10, history.items.len());
    assert_eq!(10, history.items.capacity());
}

#[test]
fn append_get_max_mask() {
    let mut history = SparseBlobDeque::<A>::from_type(64);
    assert_eq!(None, history.get(0));

    for i in 0..(64 + 24) {
        if i % 2 == 0 {
            ap(&mut history, Some(i));
        } else {
            ap(&mut history, None);
        }
    }

    assert_eq!(64, history.len());

    for i in 0..64 {
        let a = history.get(i);
        if i % 2 == 0 {
            assert_eq!(Some(&A(i as u16 + 24)), a);
        } else {
            assert_eq!(None, a);
        }
    }
}

#[test]
fn append_sparse_wrap_drops_items() {
    let mut history = SparseBlobDeque::<D>::from_type(5);
    let drops = DropList::default();

    for i in 0..6 {
        if i % 2 == 0 {
            ad(&mut history, Some(i), &drops);
        } else {
            // Empty slots go through the D helper too, so the `None` path shares
            // the drop-tracked closure's instantiation.
            ad(&mut history, None, &drops);
        }
    }

    assert_eq!(5, history.len());
    assert_eq!(2, history.stored_items());
    assert_drops(&drops, [0]);

    for i in [0, 2, 4, 5] {
        assert_eq!(None, history.get(i));
    }
    for i in [1, 3] {
        assert_eq!(Some(i as u16 + 1), history.get(i).map(|v| v.0));
    }

    drop_slots(history);
    assert_drops(&drops, [0, 2, 4]);
}

#[test]
fn append_dense_wrap_drops_items_full() {
    let mut history = SparseBlobDeque::<D>::from_type(5);
    assert_eq!(None, history.get(0));
    let drops = DropList::default();

    for i in 0..5 {
        ad(&mut history, Some(i + 1), &drops);
    }

    assert_eq!(5, history.len());
    assert_eq!(5, history.stored_items());
    assert_drops(&drops, []);

    ad(&mut history, Some(6), &drops);
    assert_eq!(5, history.len());
    assert_eq!(5, history.stored_items());
    assert_drops(&drops, [1]);

    drop_slots(history);
    assert_drops(&drops, [1, 2, 3, 4, 5, 6]);
}

#[test]
fn extend_front() {
    let mut history = SparseBlobDeque::<A>::from_type(5);

    ap(&mut history, Some(1));
    assert_eq!(1, history.len());
    assert_eq!(Some(&A(1)), history.get(0));

    history.extend_front(2);
    assert_eq!(3, history.len());
    for i in 0..2 {
        assert_eq!(None, history.get(i));
    }
    assert_eq!(Some(&A(1)), history.get(2));

    history.extend_front(7);
    assert_eq!(5, history.len());
    for i in 0..4 {
        assert_eq!(None, history.get(i));
    }
    assert_eq!(Some(&A(1)), history.get(4));
}

#[test]
fn extend_back() {
    let mut history = SparseBlobDeque::<A>::from_type(5);

    ap(&mut history, Some(1));
    assert_eq!(1, history.len());

    // Extend the back without needing to remove anything
    history.extend_back(2);
    assert_eq!(3, history.len());
    assert_eq!(Some(&A(1)), history.get(0));
    for i in 1..4 {
        assert_eq!(None, history.get(i));
    }

    ap(&mut history, Some(2));
    ap(&mut history, Some(3));
    assert_eq!(5, history.len());
    assert_eq!(3, history.stored_items());

    // Wrap items out of history with empty items
    history.extend_back(4);
    assert_eq!(5, history.len());
    assert_eq!(1, history.stored_items());
    assert_eq!(Some(&A(3)), history.get(0));
    for i in 1..6 {
        assert_eq!(None, history.get(i));
    }

    // Wrap more than full capacity
    history.extend_back(7);
    assert_eq!(5, history.len());
    assert_eq!(0, history.stored_items());
    for i in 0..6 {
        assert_eq!(None, history.get(i));
    }
}

#[test]
fn trim_back() {
    let mut history = SparseBlobDeque::<A>::from_type(5);

    for i in 1..=5 {
        ap(&mut history, Some(i));
    }
    assert_eq!(5, history.len());

    history.trim_back(1);
    assert_eq!(4, history.len());
    for (i, v) in (1..=4).into_iter().enumerate() {
        assert_eq!(Some(&A(v)), history.get(i));
    }
    assert_eq!(None, history.get(4));

    history.trim_back(2);
    assert_eq!(2, history.len());
    for (i, v) in (1..=2).into_iter().enumerate() {
        assert_eq!(Some(&A(v)), history.get(i));
    }
    assert_eq!(None, history.get(3));

    history.extend_back(2);
    assert_eq!(4, history.len());
    for (i, v) in (1..=2).into_iter().enumerate() {
        assert_eq!(Some(&A(v)), history.get(i));
    }
    for i in 3..5 {
        assert_eq!(None, history.get(i));
    }

    history.trim_back(1);
    assert_eq!(3, history.len());
    for (i, v) in (1..=2).into_iter().enumerate() {
        assert_eq!(Some(&A(v)), history.get(i));
    }

    history.trim_back(6);
    assert_eq!(0, history.len());
    for i in 0..6 {
        assert_eq!(None, history.get(i));
    }
}

#[test]
fn replace() {
    let mut history = SparseBlobDeque::<A>::from_type(5);

    for i in 1..=3 {
        ap(&mut history, Some(i));
    }

    assert_eq!(3, history.len());
    assert_eq!(3, history.stored_items());

    rep(&mut history, 1, 5);
    for (i, v) in [1, 5, 3].into_iter().enumerate() {
        assert_eq!(Some(&A(v)), history.get(i));
    }

    rep(&mut history, 2, 6);
    for (i, v) in [1, 5, 6].into_iter().enumerate() {
        assert_eq!(Some(&A(v)), history.get(i));
    }

    rep(&mut history, 0, 4);
    for (i, v) in (4..=6).enumerate() {
        assert_eq!(Some(&A(v)), history.get(i));
    }
}

#[test]
fn replace_empty() {
    let mut history = SparseBlobDeque::<A>::from_type(5);

    for _ in 0..3 {
        ap(&mut history, None);
    }

    assert_eq!(3, history.len());
    assert_eq!(0, history.stored_items());

    rep(&mut history, 1, 2);
    assert_eq!(Some(&A(2)), history.get(1));
    assert_eq!(None, history.get(0));
    assert_eq!(None, history.get(2));

    rep(&mut history, 2, 3);
    assert_eq!(Some(&A(3)), history.get(2));
    assert_eq!(None, history.get(0));

    rep(&mut history, 0, 1);

    for i in 0..3 {
        assert_eq!(Some(&A(i as u16 + 1)), history.get(i));
    }
}

#[test]
fn replace_out_of_bounds_is_noop() {
    let mut history = SparseBlobDeque::<A>::from_type(5);
    ap(&mut history, Some(1));

    // Replacing beyond the length does nothing.
    rep(&mut history, 5, 9);

    assert_eq!(1, history.len());
    assert_eq!(Some(&A(1)), history.get(0));
}

#[test]
fn replace_zero_sized_existing_slot() {
    // A zero-sized type stores no bytes, so `items.get_mut` on an existing
    // (bit-set) slot yields `None`, taking the no-op replace path.
    let mut history = SparseBlobDeque::<B>::from_type(5);
    history.append(Some(B));
    assert_eq!(1, history.stored_items());

    history.replace(0, B);
    assert_eq!(1, history.len());
    assert_eq!(1, history.stored_items());
}

#[test]
fn replacing_makes_room_one_by_one() {
    let mut history = SparseBlobDeque::<A>::from_type(5);
    for _ in 0..3 {
        ap(&mut history, None);
    }
    assert_eq!(1, history.items.capacity());
    for (i, room) in [(1, 1), (1, 1), (2, 2), (0, 3)] {
        rep(&mut history, i, 7);
        assert_eq!(room, history.items.capacity());
    }
}

#[test]
fn the_ring_of_items_starts_where_the_front_item_lies() {
    let start = |history: &SparseBlobDeque<A>, at: usize| {
        let text = history.debug_text(&|a: &A| a.0.to_le_bytes().to_vec());
        assert!(text.contains(&format!("start: {at},")), "{text}");
        assert_eq!(at as u8, history.items.start);
    };
    let mut history = SparseBlobDeque::<A>::from_type(3);
    for v in 1..4 {
        ap(&mut history, Some(v));
        start(&history, 0);
    }
    ap(&mut history, Some(4));
    start(&history, 1);
    history.extend_back(1);
    start(&history, 2);
    history.trim_back(1);
    start(&history, 2);
    history.extend_front(1);
    rep(&mut history, 0, 9);
    start(&history, 1);
    assert_eq!(Some(&A(9)), history.get(0));
    history.clear();
    start(&history, 0);
}
