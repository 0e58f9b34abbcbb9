//! What of a predicted entity is confirmed.
use super::predicted::PredictedHistory;
use super::tick_data::TickData;
use crate::component_index::ComponentId;
use crate::tick::RepliconTick;

use vstd::prelude::*;

verus! {

/// Highest tick for which this body's real input was received; beyond it the
/// state is extrapolated. Replicated so an observer refuses to reconcile past it
/// rather than snap to a guess. Absent means no cap.
#[derive(Clone, Copy, Debug, PartialEq, Eq, Structural)]
pub struct ConfirmedInputHorizon(pub u32);

/// What is sent of a component.
#[derive(Debug)]
pub enum ConfirmedLookup<'a, T> {
    /// The value that it has now
    Live,
    /// The value that is confirmed
    Confirmed(&'a T),
    /// Nothing: no value is confirmed
    Unconfirmed,
}

/// What is sent of a component of an entity at a tick. Where the entity has no history of the
/// component, it is what is there now; otherwise the unconfirmed present is withheld.
pub fn confirmed_lookup<'a, T>(
    history: Option<&'a PredictedHistory<T>>,
    component: ComponentId,
    tick: RepliconTick,
) -> (r: ConfirmedLookup<'a, T>)
    requires
        history matches Some(h) ==> h.wf(),
    ensures
        match history {
            Some(h) if h.history@.contains_key(component) => match h.history@[component]@.latest(
                tick.0 as int,
            ) {
                TickData::Value(value) => r matches ConfirmedLookup::Confirmed(v) && *v == value,
                _ => r is Unconfirmed,
            },
            _ => r is Live,
        },
{
    let history = match history {
        Some(history) => history,
        None => return ConfirmedLookup::Live,
    };
    let comp_hist = match history.history.get(&component) {
        Some(comp_hist) => comp_hist,
        None => return ConfirmedLookup::Live,
    };
    match comp_hist.get_latest(tick.get()) {
        TickData::Value(value) => ConfirmedLookup::Confirmed(value),
        // Withhold rather than leak the unconfirmed live present.
        TickData::Removed | TickData::Missing => ConfirmedLookup::Unconfirmed,
    }
}

/// The present of a component with a history is never sent: what is sent of it at a tick is the value that
/// is latest there, and nothing where there is none. What has no history is sent as it is.
pub proof fn present_is_withheld<'a, T>(
    history: Option<&'a PredictedHistory<T>>,
    component: ComponentId,
    tick: RepliconTick,
    r: ConfirmedLookup<'a, T>,
)
    requires
        call_ensures(confirmed_lookup::<T>, (history, component, tick), r),
    ensures
        ({
            let kept = history is Some && (history->0).history@.contains_key(component);
            let latest = (history->0).history@[component]@.latest(tick.0 as int);
            &&& r is Live <==> !kept
            &&& r is Confirmed <==> kept && latest is Value
            &&& r is Confirmed ==> *r->Confirmed_0 == latest->Value_0
        }),
{
}

} // verus!
