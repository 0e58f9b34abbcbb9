use bevy_rewind::load::{
    load_and_clear_resource_prediction, reinsert_predicted_resource, ResourceLoad,
};
use bevy_rewind::{LoadFrom, RepliconTick, ResourceHistory, TickData};

#[derive(Clone, Copy, PartialEq, Eq, Debug)]
struct A(u8);
fn a(v: u8) -> TickData<A> {
    TickData::Value(A(v))
}

struct World {
    a: Option<A>,
    predicted: ResourceHistory<A>,
}

impl World {
    fn load_and_clear(&mut self, tick: u32) {
        let load_from = LoadFrom(RepliconTick::new(tick));
        self.a = match load_and_clear_resource_prediction(&mut self.predicted, &load_from) {
            ResourceLoad::Assign(a) => Some(a),
            ResourceLoad::Remove => None,
        };
    }

    fn reinsert(&mut self, tick: u32) {
        let load_from = LoadFrom(RepliconTick::new(tick));
        let is_present = self.a.is_some();
        if let Some(a) = reinsert_predicted_resource(is_present, &self.predicted, &load_from) {
            self.a = Some(a);
        }
    }
}

#[test]
fn load_value() {
    let predicted = ResourceHistory::<A>::from_list(1, [a(1), a(2), a(3)]);
    let mut world = World { a: Some(A(0)), predicted };

    world.load_and_clear(2);

    assert_eq!(Some(A(2)), world.a);
}

#[test]
fn remove_and_insert() {
    let predicted = ResourceHistory::<A>::from_list(1, [a(1), TickData::Removed, a(3)]);
    let mut world = World { a: Some(A(0)), predicted: predicted.clone() };

    world.load_and_clear(2);

    assert_eq!(None, world.a);

    world.predicted = predicted;
    world.load_and_clear(3);

    assert_eq!(Some(A(3)), world.a);
}

#[test]
fn remove_before_history_and_reinsert() {
    let predicted = ResourceHistory::<A>::from_list(2, [a(1), a(2)]);
    let mut world = World { a: Some(A(0)), predicted };

    world.load_and_clear(0);

    assert_eq!(None, world.a);

    assert_eq!(1, world.predicted.len());

    world.reinsert(1);
    assert_eq!(None, world.a);

    world.reinsert(2);
    assert_eq!(Some(A(1)), world.a);
}

#[test]
fn reinsert_leaves_present_resource_untouched() {
    let predicted = ResourceHistory::<A>::from_list(1, [a(1)]);
    let mut world = World { a: Some(A(9)), predicted };

    world.reinsert(1);

    assert_eq!(Some(A(9)), world.a);
}

#[test]
fn later_predictions_are_cleared() {
    let predicted = ResourceHistory::<A>::from_list(1, [a(1), a(2), a(3)]);
    let mut world = World { a: None, predicted };

    world.load_and_clear(2);

    assert_eq!(Some(A(2)), world.a);
    assert_eq!(2, world.predicted.len());
    assert_eq!(&TickData::Missing, world.predicted.get(RepliconTick::new(3)));
    assert_eq!(&a(1), world.predicted.get(RepliconTick::new(1)));
}

#[test]
fn values_are_loaded_from_any_history() {
    let mut predicted = ResourceHistory::<A>::from_list(1, [a(1), a(2), a(3)]);
    predicted.last_tick = 1;
    let mut world = World { a: None, predicted };

    world.load_and_clear(0);
    assert_eq!(Some(A(2)), world.a);
    assert_eq!((2, 0), (world.predicted.len(), world.predicted.last_tick));
}
