//! What is known of one tick.
use vstd::prelude::*;
use vstd::std_specs::cmp::{PartialEqSpec, PartialEqSpecImpl};

verus! {

/// What a history knows of a tick.
#[derive(Debug)]
pub enum TickData<T> {
    /// The value at that tick
    Value(T),
    /// The value was absent at that tick
    Removed,
    /// Nothing is known of that tick
    Missing,
}

impl<T: PartialEq> PartialEq for TickData<T> {
    fn eq(&self, other: &Self) -> (r: bool) {
        match self {
            TickData::Value(t) => match other {
                TickData::Value(other) => t == other,
                _ => false,
            },
            TickData::Removed => matches!(other, TickData::Removed),
            TickData::Missing => matches!(other, TickData::Missing),
        }
    }
}

impl<T: PartialEq> PartialEqSpecImpl for TickData<T> {
    open spec fn obeys_eq_spec() -> bool {
        <T as PartialEqSpec>::obeys_eq_spec()
    }

    open spec fn eq_spec(&self, other: &Self) -> bool {
        match (self, other) {
            (TickData::Value(a), TickData::Value(b)) => PartialEqSpec::eq_spec(a, b),
            (TickData::Removed, TickData::Removed) => true,
            (TickData::Missing, TickData::Missing) => true,
            _ => false,
        }
    }
}

impl<T: Eq> Eq for TickData<T> {

}

impl<T: Clone> Clone for TickData<T> {
    fn clone(&self) -> (r: Self)
        ensures
            match self {
                TickData::Value(t) => r matches TickData::Value(c) && cloned(*t, c),
                TickData::Removed => r is Removed,
                TickData::Missing => r is Missing,
            },
    {
        match self {
            TickData::Value(t) => TickData::Value(t.clone()),
            TickData::Removed => TickData::Removed,
            TickData::Missing => TickData::Missing,
        }
    }
}

impl<T: Copy> Copy for TickData<T> {

}

impl<T> TickData<T> {
    /// The same data by reference.
    pub open spec fn by_ref(&self) -> TickData<&T> {
        match self {
            TickData::Value(t) => TickData::Value(t),
            TickData::Removed => TickData::Removed,
            TickData::Missing => TickData::Missing,
        }
    }

    /// The value, if there is one.
    pub fn value(self) -> (r: Option<T>)
        ensures
            r == match self {
                TickData::Value(t) => Some(t),
                _ => None,
            },
    {
        match self {
            TickData::Value(t) => Some(t),
            _ => None,
        }
    }

    /// Turn the value, if there is one, into another.
    pub fn map<O, F: Fn(&T) -> O>(&self, f: F) -> (r: TickData<O>)
        requires
            self matches TickData::Value(t) ==> call_requires(f, (&t,)),
        ensures
            match self {
                TickData::Value(t) => r matches TickData::Value(o) && call_ensures(f, (t,), o),
                TickData::Removed => r is Removed,
                TickData::Missing => r is Missing,
            },
    {
        match self {
            TickData::Value(t) => TickData::Value(f(t)),
            TickData::Removed => TickData::Removed,
            TickData::Missing => TickData::Missing,
        }
    }
}

impl<T: Clone> TickData<&T> {
    /// The same data with a clone of the value.
    pub fn cloned(&self) -> (r: TickData<T>)
        ensures
            match self {
                TickData::Value(t) => r matches TickData::Value(c) && cloned(**t, c),
                TickData::Removed => r is Removed,
                TickData::Missing => r is Missing,
            },
    {
        match self {
            TickData::Value(t) => TickData::Value((*t).clone()),
            TickData::Removed => TickData::Removed,
            TickData::Missing => TickData::Missing,
        }
    }
}

/// Data is equal where it is of the same kind, and values are equal values; by reference it is of the
/// same kind, with the same value.
pub proof fn compared_by_kind<T: PartialEq>(a: TickData<T>, b: TickData<T>)
    ensures
        a is Value && b is Value ==> (PartialEqSpec::eq_spec(&a, &b) <==> PartialEqSpec::eq_spec(
            &a->Value_0,
            &b->Value_0,
        )),
        a is Removed && b is Removed ==> PartialEqSpec::eq_spec(&a, &b),
        a is Missing && b is Missing ==> PartialEqSpec::eq_spec(&a, &b),
        a is Value != b is Value || a is Removed != b is Removed ==> !PartialEqSpec::eq_spec(&a, &b),
        a is Value <==> a.by_ref() is Value,
        a is Removed <==> a.by_ref() is Removed,
        a is Value ==> *a.by_ref()->Value_0 == a->Value_0,
{
}

} // verus!
