//! The components that are rolled back.
use super::component::HistoryComponent;
use crate::component_index::{ComponentId, ComponentIndex};
use crate::layout::Layout;

use vstd::prelude::*;

verus! {

/// The components that are rolled back, found by component id.
pub struct RollbackRegistry<W> {
    /// Where in `components` a component stands
    pub ids: ComponentIndex,
    pub components: Vec<HistoryComponent<W>>,
}

impl<W> Default for RollbackRegistry<W> {
    fn default() -> (r: Self)
        ensures
            r.wf(),
            r.ids@ == Map::<usize, usize>::empty(),
            r.components@.len() == 0,
    {
        RollbackRegistry::new()
    }
}

impl<W> RollbackRegistry<W> {
    /// Every id leads to a component with a usable layout.
    pub open spec fn wf(&self) -> bool {
        &&& forall|id: ComponentId| #[trigger]
            self.ids@.contains_key(id) ==> self.ids@[id] < self.components@.len()
        &&& forall|i: int|
            0 <= i < self.components@.len() ==> (#[trigger] self.components@[i]).layout.align > 0
    }

    /// The component with the given id.
    pub open spec fn component(&self, id: ComponentId) -> HistoryComponent<W> {
        self.components@[self.ids@[id] as int]
    }

    /// The layout of the component with the given id.
    pub open spec fn layout(&self, id: ComponentId) -> Layout {
        self.component(id).layout
    }

    pub fn new() -> (r: Self)
        ensures
            r.wf(),
            r.ids@ == Map::<usize, usize>::empty(),
            r.components@.len() == 0,
    {
        RollbackRegistry { ids: ComponentIndex::new(), components: Vec::new() }
    }

    /// Register a component with values of type `C`. A component that is registered again is
    /// found under the later registration.
    pub fn register<C>(&mut self, id: ComponentId)
        requires
            old(self).wf(),
        ensures
            final(self).wf(),
            final(self).ids@ == old(self).ids@.insert(id, old(self).components@.len() as usize),
            final(self).components@.len() == old(self).components@.len() + 1,
            final(self).components@.drop_last() == old(self).components@,
            final(self).component(id).layout.size == vstd::layout::size_of::<C>(),
            final(self).component(id).layout.align == vstd::layout::align_of::<C>(),
            final(self).component(id).layout.wf(),
            final(self).component(id).tolerance is None,
    {
        self.add_component(id, HistoryComponent::new::<C>());
    }

    /// Register a component whose prediction may differ from the authority within a tolerance.
    pub fn register_with_tolerance<C>(&mut self, id: ComponentId, tolerance: W)
        requires
            old(self).wf(),
        ensures
            final(self).wf(),
            final(self).ids@ == old(self).ids@.insert(id, old(self).components@.len() as usize),
            final(self).components@.len() == old(self).components@.len() + 1,
            final(self).components@.drop_last() == old(self).components@,
            final(self).component(id).layout.size == vstd::layout::size_of::<C>(),
            final(self).component(id).layout.align == vstd::layout::align_of::<C>(),
            final(self).component(id).layout.wf(),
            final(self).component(id).tolerance == Some(tolerance),
    {
        self.add_component(id, HistoryComponent::new::<C>().with_tolerance(tolerance));
    }

    fn add_component(&mut self, id: ComponentId, component: HistoryComponent<W>)
        requires
            old(self).wf(),
            component.layout.wf(),
        ensures
            final(self).wf(),
            final(self).ids@ == old(self).ids@.insert(id, old(self).components@.len() as usize),
            final(self).components@.len() == old(self).components@.len() + 1,
            final(self).components@.drop_last() == old(self).components@,
            final(self).component(id) == component,
    {
        self.ids.insert(id, self.components.len());
        self.components.push(component);
        proof {
            component.layout.align_positive();
            assert(self.components@.drop_last() =~= old(self).components@);
            assert forall|i: int| 0 <= i < self.components@.len() implies (
            #[trigger] self.components@[i]).layout.align > 0 by {
                if i < old(self).components@.len() {
                    assert(old(self).components@[i].layout.align > 0);
                }
            }
        }
    }

    /// The component with the given id.
    pub fn get(&self, id: &ComponentId) -> (r: Option<&HistoryComponent<W>>)
        requires
            self.wf(),
        ensures
            r == if self.ids@.contains_key(*id) {
                Some(&self.component(*id))
            } else {
                None
            },
            r matches Some(c) ==> c.layout.align > 0,
    {
        match self.ids.get(id) {
            Some(index) => Some(&self.components[index]),
            None => None,
        }
    }
}

/// A component is found where its id leads to, and its layout with it.
pub proof fn found_where_registered<W>(registry: RollbackRegistry<W>, id: ComponentId, place: usize)
    requires
        registry.wf(),
        registry.ids@.contains_key(id),
        registry.ids@[id] == place,
    ensures
        place < registry.components@.len(),
        registry.component(id) == registry.components@[place as int],
        registry.layout(id) == registry.components@[place as int].layout,
        registry.layout(id).align > 0,
{
    assert(registry.components@[place as int].layout.align > 0);
}

} // verus!
