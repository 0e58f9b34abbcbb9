use bevy_rewind::component_index::ComponentId;
use bevy_rewind::history::component::HistoryComponent;
use bevy_rewind::history::component_history::ComponentHistory;
use bevy_rewind::history::confirmed::{confirmed_lookup, ConfirmedLookup};
use bevy_rewind::history::predicted::PredictedHistory;
use bevy_rewind::RepliconTick;

#[derive(Clone, PartialEq, Eq, Debug)]
struct A(u16);

const COMP_A: ComponentId = 0;
const COMP_B: ComponentId = 1;

fn empty_history() -> ComponentHistory<A> {
    let component = HistoryComponent::<fn(&A, &A) -> bool>::new::<A>();
    ComponentHistory::from_component(&component, 5)
}

fn value_history(tick: u32, value: A) -> ComponentHistory<A> {
    let mut hist = empty_history();
    hist.write(tick, value);
    hist
}

#[test]
fn confirmed_lookup_resolves_each_arm() {
    let mut hist = PredictedHistory::default();
    hist.insert(COMP_A, value_history(5, A(7)));
    let predicted = Some(&hist);

    let plain: Option<&PredictedHistory<A>> = None;

    assert!(matches!(
        confirmed_lookup(plain, COMP_A, RepliconTick::new(5)),
        ConfirmedLookup::Live
    ));
    assert!(matches!(
        confirmed_lookup(predicted, COMP_B, RepliconTick::new(5)),
        ConfirmedLookup::Live
    ));
    assert!(matches!(
        confirmed_lookup(predicted, COMP_A, RepliconTick::new(5)),
        ConfirmedLookup::Confirmed(A(7))
    ));
    assert!(matches!(
        confirmed_lookup(predicted, COMP_A, RepliconTick::new(9)),
        ConfirmedLookup::Confirmed(A(7))
    ));
    assert!(matches!(
        confirmed_lookup(predicted, COMP_A, RepliconTick::new(1)),
        ConfirmedLookup::Unconfirmed
    ));
}

#[test]
fn confirmed_lookup_withholds_removed() {
    let mut hist = PredictedHistory::default();
    let mut comp_hist = empty_history();
    comp_hist.mark_removed(5);
    hist.insert(COMP_A, comp_hist);

    assert!(matches!(
        confirmed_lookup(Some(&hist), COMP_A, RepliconTick::new(5)),
        ConfirmedLookup::Unconfirmed
    ));
}
