//! How a component is stored, compared and loaded.
use super::component_history::ComponentHistory;
use super::sparse_blob_deque::SparseBlobDeque;
use crate::layout::Layout;

use vstd::prelude::*;
use vstd::std_specs::cmp::PartialEqSpec;

verus! {

/// What is known of a component type: the layout of its values, and how much a prediction may
/// differ from the authority.
pub struct HistoryComponent<W> {
    pub layout: Layout,
    pub tolerance: Option<W>,
}

impl<W> HistoryComponent<W> {
    /// The tolerance can be asked about any two values.
    pub open spec fn wf<T>(&self) -> bool where W: Fn(&T, &T) -> bool {
        self.tolerance matches Some(f) ==> forall|a: &T, b: &T| #[trigger]
            call_requires(f, (a, b))
    }

    /// `r` is an answer to whether two values are within tolerance of each other. Without a
    /// tolerance they have to be equal.
    pub open spec fn judged<T: PartialEq>(&self, a: T, b: T, r: bool) -> bool where
        W: Fn(&T, &T) -> bool,
     {
        match self.tolerance {
            Some(f) => call_ensures(f, (&a, &b), r),
            None => <T as PartialEqSpec>::obeys_eq_spec() ==> r == PartialEqSpec::eq_spec(&a, &b),
        }
    }

    /// A component with values of type `C` and without a tolerance.
    pub fn new<C>() -> (r: Self)
        ensures
            r.layout.size == vstd::layout::size_of::<C>(),
            r.layout.align == vstd::layout::align_of::<C>(),
            r.layout.wf(),
            r.tolerance is None,
    {
        HistoryComponent { layout: Layout::new::<C>(), tolerance: None }
    }

    /// The same component with a tolerance.
    pub fn with_tolerance(self, tolerance: W) -> (r: Self)
        ensures
            r.layout == self.layout,
            r.tolerance == Some(tolerance),
    {
        HistoryComponent { layout: self.layout, tolerance: Some(tolerance) }
    }

    pub fn size(&self) -> (r: usize)
        ensures
            r == self.layout.size,
    {
        self.layout.size()
    }

    pub fn layout(&self) -> (r: Layout)
        ensures
            r == self.layout,
    {
        self.layout
    }

    /// The value to store for a component: a clone of it.
    pub fn store<T: Clone>(&self, src: &T) -> (r: T)
        ensures
            cloned(*src, r),
    {
        src.clone()
    }

    /// Whether two values are equal.
    pub fn equal<T: PartialEq>(&self, a: &T, b: &T) -> (r: bool)
        ensures
            <T as PartialEqSpec>::obeys_eq_spec() ==> r == PartialEqSpec::eq_spec(a, b),
    {
        a == b
    }

    /// Whether two values are within tolerance of each other.
    pub fn within_tolerance<T: PartialEq>(&self, a: &T, b: &T) -> (r: bool) where
        W: Fn(&T, &T) -> bool,

        requires
            self.wf::<T>(),
        ensures
            self.judged(*a, *b, r),
    {
        match &self.tolerance {
            Some(tolerance) => tolerance(a, b),
            None => self.equal(a, b),
        }
    }

    /// The value to load: a clone of the authoritative one, or of the predicted one without it.
    pub fn load_to_uninit<T: Clone>(&self, authoritative: Option<&T>, predicted: Option<&T>) -> (r:
        T)
        requires
            authoritative is Some || predicted is Some,
        ensures
            cloned(
                match authoritative {
                    Some(value) => *value,
                    None => *predicted->0,
                },
                r,
            ),
    {
        match authoritative {
            Some(value) => value.clone(),
            None => match predicted {
                Some(value) => value.clone(),
                None => vstd::pervasive::unreached(),
            },
        }
    }
}

impl<T> SparseBlobDeque<T> {
    /// An empty collection for the values of a component.
    pub fn from_component<W>(component: &HistoryComponent<W>, size: u8) -> (r: Self)
        requires
            1 <= size <= 64,
        ensures
            r.wf(),
            r@ == Seq::<Option<T>>::empty(),
            r.capacity == size,
            r.items.layout == component.layout,
            r.items.capacity == 1,
            r.items.start == 0,
            forall|v: T| #[trigger] r.stored_as(v) == v,
    {
        SparseBlobDeque::new(component.layout, size)
    }

    /// An empty collection for values of type `T`.
    pub fn from_type(size: u8) -> (r: Self)
        requires
            1 <= size <= 64,
        ensures
            r.wf(),
            r@ == Seq::<Option<T>>::empty(),
            r.capacity == size,
            r.items.layout.size == vstd::layout::size_of::<T>(),
            r.items.layout.align == vstd::layout::align_of::<T>(),
            r.items.capacity == 1,
            r.items.start == 0,
            forall|v: T| #[trigger] r.stored_as(v) == v,
    {
        SparseBlobDeque::from_component(&HistoryComponent::<()>::new::<T>(), size)
    }
}

impl<T> ComponentHistory<T> {
    /// An empty history for the values of a component.
    pub fn from_component<W>(component: &HistoryComponent<W>, size: u8) -> (r: Self)
        requires
            1 <= size <= 64,
        ensures
            r.wf(),
            r@ == super::records::Records::<T>::fresh(size as int),
            r.list.items.layout == component.layout,
            r.list.items.capacity == 1,
            r.list.items.start == 0,
            forall|v: T| #[trigger] r.stored_as(v) == v,
    {
        let r = ComponentHistory {
            removed_mask: 0,
            list: SparseBlobDeque::from_component(component, size),
            last_tick: 0,
        };
        proof {
            r.fresh_view();
        }
        r
    }

    /// An empty history for values of type `T`.
    pub fn from_type(size: u8) -> (r: Self)
        requires
            1 <= size <= 64,
        ensures
            r.wf(),
            r@ == super::records::Records::<T>::fresh(size as int),
            r.list.items.layout.size == vstd::layout::size_of::<T>(),
            r.list.items.layout.align == vstd::layout::align_of::<T>(),
            r.list.items.capacity == 1,
            r.list.items.start == 0,
            forall|v: T| #[trigger] r.stored_as(v) == v,
    {
        let r = ComponentHistory {
            removed_mask: 0,
            list: SparseBlobDeque::from_type(size),
            last_tick: 0,
        };
        proof {
            r.fresh_view();
        }
        r
    }

    proof fn fresh_view(&self)
        requires
            self.removed_mask == 0,
            self.last_tick == 0,
            self.list@ == Seq::<Option<T>>::empty(),
        ensures
            self@ == super::records::Records::<T>::fresh(self.list.capacity as int),
    {
        broadcast use crate::bits::group_bits;

        assert(self@.removed =~= Set::<int>::empty());
    }
}

/// Without a tolerance exactly equal values are within it; a tolerance is asked about just the two
/// values.
pub proof fn judged_by_equality<T: PartialEq, W: Fn(&T, &T) -> bool>(
    component: HistoryComponent<W>,
    a: T,
    b: T,
    r: bool,
)
    requires
        component.judged(a, b, r),
    ensures
        component.tolerance is None && <T as PartialEqSpec>::obeys_eq_spec() ==> (r
            <==> PartialEqSpec::eq_spec(&a, &b)),
        component.tolerance matches Some(f) ==> call_ensures(f, (&a, &b), r),
{
}

} // verus!
