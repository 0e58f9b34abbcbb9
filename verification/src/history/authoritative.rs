//! What the server has said of an entity.
use super::component_history::ComponentHistory;
use super::entity_history::EntityHistory;
use super::records::Records;
use crate::component_index::ComponentId;
use crate::rollback::RollbackFrames;
use crate::tick::RepliconTick;

use vstd::prelude::*;

verus! {

/// What the server has said of an entity's components.
pub struct AuthoritativeHistory<T> {
    pub components: EntityHistory<T>,
}

/// Why something that the server said was not recorded.
#[derive(Clone, Copy, Debug, PartialEq, Eq, Structural)]
pub enum Unrecorded {
    /// The entity is predicted, but has no authoritative history
    PredictedWithoutHistory,
    /// The entity is not predicted
    NotPredicted,
    /// The entity has no authoritative history
    NoHistory,
    /// The entity has no history for the component
    NoComponent,
}

impl<T> AuthoritativeHistory<T> {
    pub open spec fn wf(&self) -> bool {
        self.components.wf()
    }

    pub fn new() -> (r: Self)
        ensures
            r.wf(),
            r.components@ == Map::<ComponentId, ComponentHistory<T>>::empty(),
    {
        AuthoritativeHistory { components: EntityHistory::new() }
    }

    pub fn contains_key(&self, id: &ComponentId) -> (r: bool)
        ensures
            r == self.components@.contains_key(*id),
    {
        self.components.contains_key(id)
    }

    pub fn get(&self, id: &ComponentId) -> (r: Option<&ComponentHistory<T>>)
        requires
            self.wf(),
        ensures
            r == if self.components@.contains_key(*id) {
                Some(&self.components@[*id])
            } else {
                None
            },
            r matches Some(h) ==> h.wf(),
    {
        self.components.get(id)
    }

    pub fn insert(&mut self, id: ComponentId, history: ComponentHistory<T>)
        requires
            old(self).wf(),
            history.wf(),
        ensures
            final(self).wf(),
            final(self).components@ == old(self).components@.insert(id, history),
    {
        self.components.insert(id, history);
    }
}

impl<T> Default for AuthoritativeHistory<T> {
    fn default() -> (r: Self)
        ensures
            r.wf(),
            r.components@ == Map::<ComponentId, ComponentHistory<T>>::empty(),
    {
        AuthoritativeHistory::new()
    }
}

/// What a history holds before anything is written to it: what it held, or a fresh history.
pub open spec fn before_write<T>(
    components: Map<ComponentId, ComponentHistory<T>>,
    id: ComponentId,
    frames: RollbackFrames,
) -> Records<T> {
    if components.contains_key(id) {
        components[id]@
    } else {
        Records::fresh(frames@ + 2)
    }
}

/// Record a value that was received for a component. Entities without an authoritative history
/// are left alone; the reason is returned.
pub fn write_history_internal<T>(
    component_id: ComponentId,
    history: Option<&mut AuthoritativeHistory<T>>,
    is_predicted: bool,
    received_tick: RepliconTick,
    value: T,
    frames: RollbackFrames,
) -> (r: Result<(), Unrecorded>)
    requires
        history matches Some(h) ==> h.wf() && (h.components@.contains_key(component_id)
            ==> h.components@[component_id].can_reach(received_tick.0)),
    ensures
        match history {
            Some(h) => {
                let before = before_write(h.components@, component_id, frames);
                let after = final(h).components@[component_id];
                let stored = if h.components@.contains_key(component_id) {
                    h.components@[component_id].stored_as(value)
                } else {
                    value
                };
                &&& r is Ok
                &&& final(h).wf()
                &&& final(h).components@ == h.components@.insert(component_id, after)
                &&& after@ == before.written(received_tick.0 as int, stored)
            },
            None => r == Err::<(), Unrecorded>(
                if is_predicted {
                    Unrecorded::PredictedWithoutHistory
                } else {
                    Unrecorded::NotPredicted
                },
            ),
        },
{
    match history {
        Some(history) => {
            record_value(&mut history.components, component_id, received_tick, value, frames);
            Ok(())
        },
        None => Err(
            if is_predicted {
                Unrecorded::PredictedWithoutHistory
            } else {
                Unrecorded::NotPredicted
            },
        ),
    }
}

fn record_value<T>(
    components: &mut EntityHistory<T>,
    component_id: ComponentId,
    received_tick: RepliconTick,
    value: T,
    frames: RollbackFrames,
)
    requires
        old(components).wf(),
        old(components)@.contains_key(component_id) ==> old(
            components,
        )@[component_id].can_reach(received_tick.0),
    ensures
        final(components).wf(),
        ({
            let before = before_write(old(components)@, component_id, frames);
            let after = final(components)@[component_id];
            let stored = if old(components)@.contains_key(component_id) {
                old(components)@[component_id].stored_as(value)
            } else {
                value
            };
            &&& final(components)@ == old(components)@.insert(component_id, after)
            &&& after@ == before.written(received_tick.0 as int, stored)
        }),
{
    if !components.contains_key(&component_id) {
        let fresh = ComponentHistory::from_type(frames.history_size() as u8);
        components.insert(component_id, fresh);
    }
    let ghost ready = *components;
    match components.get_mut(&component_id) {
        Some(comp_hist) => {
            comp_hist.write(received_tick.get(), value);
        },
        None => {
            proof {
                assert(ready@.contains_key(component_id));
            }
        },
    }
    proof {
        assert(components@ =~= old(components)@.insert(
            component_id,
            components@[component_id],
        ));
    }
}

/// Record that a component was removed. Entities without an authoritative history, or without
/// one for the component, are left alone; the reason is returned.
pub fn remove_history_internal<T>(
    component_id: ComponentId,
    tick: RepliconTick,
    history: Option<&mut AuthoritativeHistory<T>>,
) -> (r: Result<(), Unrecorded>)
    requires
        history matches Some(h) ==> h.wf() && (h.components@.contains_key(component_id)
            ==> h.components@[component_id].can_mark(tick.0)),
    ensures
        match history {
            Some(h) if h.components@.contains_key(component_id) => {
                let after = final(h).components@[component_id];
                &&& r is Ok
                &&& final(h).wf()
                &&& final(h).components@ == h.components@.insert(component_id, after)
                &&& after@ == h.components@[component_id]@.marked(tick.0 as int)
            },
            Some(h) => r == Err::<(), Unrecorded>(Unrecorded::NoComponent) && *final(h) == *h,
            None => r == Err::<(), Unrecorded>(Unrecorded::NoHistory),
        },
{
    let history = match history {
        Some(history) => history,
        None => return Err(Unrecorded::NoHistory),
    };
    match history.components.get_mut(&component_id) {
        Some(comp_hist) => {
            comp_hist.mark_removed(tick.get());
            Ok(())
        },
        None => Err(Unrecorded::NoComponent),
    }
}

/// A component that the server speaks of for the first time gets a history of two ticks more than the
/// frames, in which what it said is read at its tick; one that has a history keeps it.
pub proof fn first_received_is_read<T>(
    components: Map<ComponentId, ComponentHistory<T>>,
    id: ComponentId,
    frames: RollbackFrames,
    t: u32,
    value: T,
)
    requires
        0 <= frames@ <= 60,
    ensures
        !components.contains_key(id) ==> {
            let r = before_write(components, id, frames);
            &&& r.capacity == frames@ + 2
            &&& r.slots.len() == 0
            &&& r.written(t as int, value).at(t as int) == super::tick_data::TickData::Value(value)
        },
        components.contains_key(id) ==> before_write(components, id, frames) == components[id]@,
{
    if !components.contains_key(id) {
        super::laws::written_is_read(before_write(components, id, frames), t as int, value);
    }
}

} // verus!
