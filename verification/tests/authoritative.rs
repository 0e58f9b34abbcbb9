use bevy_rewind::component_index::ComponentId;
use bevy_rewind::history::authoritative::{
    remove_history_internal, write_history_internal, AuthoritativeHistory, Unrecorded,
};
use bevy_rewind::{RepliconTick, RollbackFrames, TickData, TEST_ROLLBACK_FRAMES};

use std::sync::{Arc, RwLock};

#[derive(Clone, Debug, Default)]
struct DropList(Arc<RwLock<Vec<u16>>>);

fn assert_drops(drops: &DropList, order: impl Into<Vec<u16>>) {
    let order = order.into();
    assert_eq!(order, *drops.0.read().unwrap());
}

#[derive(Clone, Debug)]
struct D(u16, DropList);

impl D {
    fn new(v: u16, list: &DropList) -> Self {
        Self(v, list.clone())
    }
}

impl PartialEq for D {
    fn eq(&self, other: &Self) -> bool {
        self.0 == other.0
    }
}

impl Drop for D {
    fn drop(&mut self) {
        let mut guard = self.1 .0.write().unwrap();
        if guard.contains(&self.0) {
            panic!("Detected double drop!");
        }
        guard.push(self.0);
    }
}

#[derive(Clone, PartialEq, Eq, Debug)]
struct A(u16);

const COMP_A: ComponentId = 4;
const COMP_D: ComponentId = 6;

fn a(v: u16) -> TickData<A> {
    TickData::Value(A(v))
}

fn r_tick(tick: u32) -> RepliconTick {
    RepliconTick::new(tick)
}

struct Entity<T> {
    predicted: bool,
    history: Option<AuthoritativeHistory<T>>,
}

impl<T> Entity<T> {
    fn with_history() -> Self {
        Entity { predicted: true, history: Some(AuthoritativeHistory::default()) }
    }

    fn write(&mut self, comp: ComponentId, tick: RepliconTick, value: T) -> Result<(), Unrecorded> {
        let frames = RollbackFrames::new(TEST_ROLLBACK_FRAMES);
        write_history_internal(comp, self.history.as_mut(), self.predicted, tick, value, frames)
    }

    fn remove(&mut self, comp: ComponentId, tick: RepliconTick) -> Result<(), Unrecorded> {
        remove_history_internal(comp, tick, self.history.as_mut())
    }
}

fn get(e: &Entity<A>, tick: u32) -> TickData<A> {
    match e.history.as_ref().unwrap().get(&COMP_A).unwrap().get(tick) {
        TickData::Value(v) => TickData::Value(v.clone()),
        TickData::Removed => TickData::Removed,
        TickData::Missing => TickData::Missing,
    }
}

#[test]
fn write_changes() {
    let mut e1 = Entity::with_history();
    let mut e2 = Entity::with_history();

    e1.write(COMP_A, r_tick(0), A(1)).unwrap();

    e2.write(COMP_A, r_tick(1), A(5)).unwrap();

    e1.write(COMP_A, r_tick(1), A(2)).unwrap();
    e1.write(COMP_A, r_tick(3), A(3)).unwrap();

    e2.write(COMP_A, r_tick(2), A(7)).unwrap();

    let m = || TickData::Missing;

    assert!(e1.history.as_ref().unwrap().contains_key(&COMP_A));
    for (i, v) in [a(1), a(2), m(), a(3), m()].into_iter().enumerate() {
        assert_eq!(v, get(&e1, i as u32));
    }

    assert!(e2.history.as_ref().unwrap().contains_key(&COMP_A));
    for (i, v) in [m(), a(5), a(7), m()].into_iter().enumerate() {
        assert_eq!(v, get(&e2, i as u32));
    }
}

#[test]
fn write_out_of_order() {
    let mut e1 = Entity::with_history();

    e1.write(COMP_A, r_tick(1), A(2)).unwrap();

    e1.write(COMP_A, r_tick(3), A(4)).unwrap();
    e1.write(COMP_A, r_tick(0), A(1)).unwrap();

    e1.write(COMP_A, r_tick(2), A(3)).unwrap();

    assert!(e1.history.as_ref().unwrap().contains_key(&COMP_A));
    for (i, v) in [a(1), a(2), a(3), a(4), TickData::Missing].into_iter().enumerate() {
        assert_eq!(v, get(&e1, i as u32));
    }
}

#[test]
fn multiple_adds() {
    let mut e1 = Entity::with_history();

    e1.write(COMP_A, r_tick(0), A(1)).unwrap();
    e1.write(COMP_A, r_tick(1), A(2)).unwrap();
    e1.write(COMP_A, r_tick(2), A(3)).unwrap();

    assert!(e1.history.as_ref().unwrap().contains_key(&COMP_A));
    for (i, v) in [a(1), a(2), a(3), TickData::Missing].into_iter().enumerate() {
        assert_eq!(v, get(&e1, i as u32));
    }
}

#[test]
fn drop_once_on_success() {
    let mut e1 = Entity::with_history();

    let drops = DropList::default();

    e1.write(COMP_D, r_tick(0), D::new(1, &drops)).unwrap();
    e1.write(COMP_D, r_tick(1), D::new(2, &drops)).unwrap();
    e1.write(COMP_D, r_tick(2), D::new(3, &drops)).unwrap();
    e1.write(COMP_D, r_tick(3), D::new(4, &drops)).unwrap();
    e1.write(COMP_D, r_tick(4), D::new(5, &drops)).unwrap();

    assert_drops(&drops, []);

    drop(e1);

    assert_drops(&drops, [1, 2, 3, 4, 5]);
}

#[test]
fn drop_once_on_fail() {
    let mut e1 = Entity::with_history();

    let drops = DropList::default();

    e1.write(COMP_D, r_tick(10), D::new(1, &drops)).unwrap();
    e1.write(COMP_D, r_tick(10), D::new(2, &drops)).unwrap();

    assert_drops(&drops, [1]);

    e1.write(COMP_D, r_tick(1), D::new(3, &drops)).unwrap();
    e1.write(COMP_D, r_tick(2), D::new(4, &drops)).unwrap();
    e1.write(COMP_D, r_tick(3), D::new(5, &drops)).unwrap();

    assert_drops(&drops, [1, 3, 4, 5]);

    drop(e1);

    assert_drops(&drops, [1, 3, 4, 5, 2]);
}

#[test]
fn write_to_unpredicted_entity_is_ignored() {
    let mut e1 = Entity { predicted: false, history: None };

    assert_eq!(Err(Unrecorded::NotPredicted), e1.write(COMP_A, r_tick(0), A(1)));

    assert!(e1.history.is_none());
}

#[test]
fn write_to_predicted_missing_history_is_ignored() {
    let mut e1 = Entity { predicted: true, history: None };

    assert_eq!(Err(Unrecorded::PredictedWithoutHistory), e1.write(COMP_A, r_tick(0), A(1)));

    assert!(e1.history.is_none());
}

#[test]
fn remove_history_marks_removed() {
    let mut e1 = Entity::with_history();
    e1.write(COMP_A, r_tick(0), A(1)).unwrap();
    e1.write(COMP_A, r_tick(1), A(2)).unwrap();
    assert_eq!(Ok(()), e1.remove(COMP_A, r_tick(2)));

    assert_eq!(TickData::Missing, get(&e1, 3));
    assert_eq!(TickData::Removed, get(&e1, 2));
}

#[test]
fn remove_history_without_authoritative_history_is_ignored() {
    let mut e1: Entity<A> = Entity { predicted: false, history: None };
    assert_eq!(Err(Unrecorded::NoHistory), e1.remove(COMP_A, r_tick(0)));

    assert!(e1.history.is_none());
}

#[test]
fn remove_history_without_component_history_is_ignored() {
    let mut e1 = Entity::<A>::with_history();
    assert_eq!(Err(Unrecorded::NoComponent), e1.remove(COMP_A, r_tick(0)));

    assert!(!e1.history.as_ref().unwrap().contains_key(&COMP_A));
}

#[test]
fn many_components_keep_their_own_history() {
    let mut e1 = Entity::with_history();
    for id in 0..40 {
        e1.write(id * 17, r_tick(3), A(id as u16)).unwrap();
    }
    for id in 0..40 {
        e1.write(id * 17, r_tick(4), A(100 + id as u16)).unwrap();
    }
    let history = e1.history.as_ref().unwrap();
    for id in 0..40 {
        let component = history.get(&(id * 17)).unwrap();
        assert_eq!(TickData::Value(&A(id as u16)), component.get(3));
        assert_eq!(TickData::Value(&A(100 + id as u16)), component.get(4));
    }
    assert!(!history.contains_key(&1));
    assert!(history.get(&1).is_none());
}
