//! The histories of an entity's components.
use super::component::HistoryComponent;
use super::component_history::ComponentHistory;
use crate::component_index::{ComponentId, ComponentIndex};

use vstd::prelude::*;

verus! {

/// The histories of an entity's components, found by component id.
pub struct EntityHistory<T> {
    /// Where in `entries` the history of a component stands
    pub index: ComponentIndex,
    /// The components with their histories, in the order in which they were added
    pub entries: Vec<(ComponentId, ComponentHistory<T>)>,
}

impl<T> View for EntityHistory<T> {
    type V = Map<ComponentId, ComponentHistory<T>>;

    open spec fn view(&self) -> Map<ComponentId, ComponentHistory<T>> {
        Map::new(
            |id: ComponentId| self.index@.contains_key(id),
            |id: ComponentId| self.entries@[self.index@[id] as int].1,
        )
    }
}

impl<T> EntityHistory<T> {
    /// The index leads to each entry and to nothing else; every history is well-formed.
    pub open spec fn wf(&self) -> bool {
        &&& forall|i: int|
            0 <= i < self.entries@.len() ==> {
                let entry = #[trigger] self.entries@[i];
                &&& entry.1.wf()
                &&& self.index@.contains_key(entry.0)
                &&& self.index@[entry.0] == i
            }
        &&& forall|id: ComponentId| #[trigger]
            self.index@.contains_key(id) ==> {
                &&& self.index@[id] < self.entries@.len()
                &&& self.entries@[self.index@[id] as int].0 == id
            }
    }

    /// Every history can be marked at a tick.
    pub open spec fn can_mark(&self, tick: u32) -> bool {
        forall|i: int|
            0 <= i < self.entries@.len() ==> (#[trigger] self.entries@[i]).1.can_mark(tick)
    }

    pub fn new() -> (r: Self)
        ensures
            r.wf(),
            r@ == Map::<ComponentId, ComponentHistory<T>>::empty(),
            r.entries@.len() == 0,
    {
        let r = EntityHistory { index: ComponentIndex::new(), entries: Vec::new() };
        proof {
            assert(r@ =~= Map::<ComponentId, ComponentHistory<T>>::empty());
        }
        r
    }

    /// The number of components with a history.
    pub fn len(&self) -> (r: usize)
        ensures
            r == self.entries@.len(),
    {
        self.entries.len()
    }

    pub fn is_empty(&self) -> (r: bool)
        ensures
            r == (self.entries@.len() == 0),
    {
        self.entries.len() == 0
    }

    pub fn contains_key(&self, id: &ComponentId) -> (r: bool)
        ensures
            r == self@.contains_key(*id),
    {
        match self.index.get(id) {
            Some(_) => true,
            None => false,
        }
    }

    /// The history of a component.
    pub fn get(&self, id: &ComponentId) -> (r: Option<&ComponentHistory<T>>)
        requires
            self.wf(),
        ensures
            r == if self@.contains_key(*id) {
                Some(&self@[*id])
            } else {
                None
            },
            r matches Some(h) ==> h.wf(),
    {
        match self.index.get(id) {
            Some(i) => {
                proof {
                    let entry = self.entries@[i as int];
                }
                Some(&self.entries[i].1)
            },
            None => None,
        }
    }

    /// The history of a component, to be changed.
    pub fn get_mut(&mut self, id: &ComponentId) -> (r: Option<&mut ComponentHistory<T>>)
        requires
            old(self).wf(),
        ensures
            match r {
                Some(h) => {
                    &&& old(self)@.contains_key(*id)
                    &&& *h == old(self)@[*id]
                    &&& h.wf()
                    &&& final(self)@ == old(self)@.insert(*id, *final(h))
                    &&& final(self).index == old(self).index
                    &&& final(self).entries@ == old(self).entries@.update(
                        old(self).index@[*id] as int,
                        (*id, *final(h)),
                    )
                    &&& final(h).wf() ==> final(self).wf()
                },
                None => {
                    &&& !old(self)@.contains_key(*id)
                    &&& *final(self) == *old(self)
                },
            },
    {
        match self.index.get(id) {
            Some(i) => {
                proof {
                    let entry = self.entries@[i as int];
                    assert forall|h: ComponentHistory<T>, after: EntityHistory<T>|
                        #![trigger after.entries@, h.wf()]
                        after.index == self.index && after.entries@ == self.entries@.update(
                            i as int,
                            (*id, h),
                        ) implies after@ == self@.insert(*id, h) && (h.wf() ==> after.wf()) by {
                        Self::replaced(*self, after, *id, h);
                    }
                }
                let entry: &mut (ComponentId, ComponentHistory<T>) = &mut self.entries[i];
                Some(&mut entry.1)
            },
            None => None,
        }
    }

    /// What is held after the history of a component was replaced.
    pub proof fn replaced(before: Self, after: Self, id: ComponentId, h: ComponentHistory<T>)
        requires
            before.wf(),
            before.index@.contains_key(id),
            after.index == before.index,
            after.entries@ == before.entries@.update(before.index@[id] as int, (id, h)),
        ensures
            after@ == before@.insert(id, h),
            h.wf() ==> after.wf(),
    {
        let i = before.index@[id] as int;
        assert(after@ =~= before@.insert(id, h)) by {
            assert forall|k: ComponentId| after@.contains_key(k) implies after@[k]
                == before@.insert(id, h)[k] by {
                let j = before.index@[k] as int;
                let entry = before.entries@[j];
                let other = before.entries@[i];
            }
        }
        if h.wf() {
            assert forall|j: int| 0 <= j < after.entries@.len() implies {
                let entry = #[trigger] after.entries@[j];
                &&& entry.1.wf()
                &&& after.index@.contains_key(entry.0)
                &&& after.index@[entry.0] == j
            } by {
                let entry = before.entries@[j];
            }
        }
    }

    /// A component with a history has an entry.
    pub proof fn entry_of(&self, id: ComponentId)
        requires
            self.wf(),
        ensures
            self@.contains_key(id) ==> {
                let i = self.index@[id] as int;
                &&& 0 <= i < self.entries@.len()
                &&& self.entries@[i] == (id, self@[id])
            },
    {
    }

    /// Give a component a history, in place of the one that it had.
    pub fn insert(&mut self, id: ComponentId, history: ComponentHistory<T>)
        requires
            old(self).wf(),
            history.wf(),
        ensures
            final(self).wf(),
            final(self)@ == old(self)@.insert(id, history),
            old(self)@.contains_key(id) ==> final(self).index@ == old(self).index@
                && final(self).entries@ == old(self).entries@.update(
                old(self).index@[id] as int,
                (id, history),
            ),
            !old(self)@.contains_key(id) ==> final(self).entries@ == old(self).entries@.push(
                (id, history),
            ),
    {
        match self.index.get(&id) {
            Some(i) => {
                self.entries[i] = (id, history);
                proof {
                    Self::replaced(*old(self), *self, id, history);
                }
            },
            None => {
                let i: usize = self.entries.len();
                self.entries.push((id, history));
                self.index.insert(id, i);
                proof {
                    Self::added(*old(self), *self, id, history);
                }
            },
        }
    }

    proof fn added(before: Self, after: Self, id: ComponentId, h: ComponentHistory<T>)
        requires
            before.wf(),
            !before.index@.contains_key(id),
            h.wf(),
            before.entries@.len() <= usize::MAX,
            after.index@ == before.index@.insert(id, before.entries@.len() as usize),
            after.entries@ == before.entries@.push((id, h)),
        ensures
            after.wf(),
            after@ == before@.insert(id, h),
    {
        assert forall|j: int| 0 <= j < after.entries@.len() implies {
            let entry = #[trigger] after.entries@[j];
            &&& entry.1.wf()
            &&& after.index@.contains_key(entry.0)
            &&& after.index@[entry.0] == j
        } by {
            if j < before.entries@.len() {
                let entry = before.entries@[j];
                assert(before.index@.contains_key(entry.0));
            }
        }
        assert(after@ =~= before@.insert(id, h));
    }

    /// The place of a component's history; where it has none, an empty one is added.
    pub fn entry<W>(&mut self, id: ComponentId, component: &HistoryComponent<W>, size: u8) -> (r:
        usize)
        requires
            old(self).wf(),
            1 <= size <= 64,
        ensures
            final(self).wf(),
            r < final(self).entries@.len(),
            final(self).entries@[r as int].0 == id,
            final(self).index@.contains_key(id),
            final(self).index@[id] == r,
            if old(self)@.contains_key(id) {
                *final(self) == *old(self)
            } else {
                let added = final(self).entries@.last();
                &&& final(self).entries@ == old(self).entries@.push((id, added.1))
                &&& final(self)@ == old(self)@.insert(id, added.1)
                &&& added.1@ == super::records::Records::<T>::fresh(size as int)
                &&& added.1.list.items.layout == component.layout
                &&& forall|v: T| #[trigger] added.1.stored_as(v) == v
            },
    {
        match self.index.get(&id) {
            Some(i) => {
                proof {
                    let entry = self.entries@[i as int];
                }
                i
            },
            None => {
                let i: usize = self.entries.len();
                self.insert(id, ComponentHistory::from_component(component, size));
                proof {
                    let entry = self.entries@[i as int];
                }
                i
            },
        }
    }
}

} // verus!
