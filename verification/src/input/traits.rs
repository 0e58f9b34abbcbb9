//! What an input is.
use vstd::prelude::*;
use vstd::std_specs::cmp::PartialEqSpec;

verus! {

/// An input of a player.
pub trait InputTrait: Sized + Clone + PartialEq + Default {
    /// Whether inputs are repeated while none is received.
    fn repeats() -> bool;

    /// The input to use `since` ticks after this one, if it is repeated.
    fn repeated(&self, since: u32) -> (r: Option<Self>)
        default_ensures
            match r {
                Some(copy) => call_ensures(Self::repeats, (), true) && cloned(*self, copy),
                None => call_ensures(Self::repeats, (), false),
            },
    {
        if Self::repeats() {
            Some(self.clone())
        } else {
            None
        }
    }
}

/// Inputs are repeated.
pub open spec fn repeating<T: InputTrait>() -> bool {
    call_ensures(T::repeats, (), true)
}

/// What an input becomes when it is repeated after some ticks.
pub open spec fn repeat_of<T: InputTrait>(t: T, since: u32) -> Option<T> {
    choose|r: Option<T>| call_ensures(T::repeated, (&t, since), r)
}

/// The input without anything received.
pub open spec fn blank_input<T: InputTrait>() -> T {
    choose|r: T| call_ensures(T::default, (), r)
}

/// Inputs are plain values, and comparing them is a matter of their values.
pub open spec fn comparable<T: InputTrait>() -> bool {
    plain::<T>() && <T as PartialEqSpec>::obeys_eq_spec()
}

/// Inputs are plain values: repeating an input and making a blank one give the same each time, and a
/// clone is the same input.
pub open spec fn plain<T: InputTrait>() -> bool {
    &&& !(call_ensures(T::repeats, (), true) && call_ensures(T::repeats, (), false))
    &&& forall|t: T, since: u32, a: Option<T>, b: Option<T>| #[trigger]
        call_ensures(T::repeated, (&t, since), a) && #[trigger] call_ensures(
            T::repeated,
            (&t, since),
            b,
        ) ==> a == b
    &&& forall|a: T, b: T| #[trigger]
        call_ensures(T::default, (), a) && #[trigger] call_ensures(T::default, (), b) ==> a == b
    &&& forall|a: T, b: T| #[trigger] cloned(a, b) ==> a == b
}

/// The input to use some ticks after `last`: its repetition, or the blank input.
pub open spec fn carried_on<T: InputTrait>(last: T, since: u32) -> T {
    match repeat_of(last, since) {
        Some(t) => t,
        None => blank_input(),
    }
}

pub(crate) fn are_repeated<T: InputTrait>() -> (r: bool)
    requires
        plain::<T>(),
    ensures
        r == repeating::<T>(),
{
    T::repeats()
}

pub(crate) fn repeat<T: InputTrait>(t: &T, since: u32) -> (r: Option<T>)
    requires
        plain::<T>(),
    ensures
        r == repeat_of(*t, since),
{
    t.repeated(since)
}

pub(crate) fn blank<T: InputTrait>() -> (r: T)
    requires
        plain::<T>(),
    ensures
        r == blank_input::<T>(),
{
    T::default()
}

pub(crate) fn copy<T: InputTrait>(t: &T) -> (r: T)
    requires
        plain::<T>(),
    ensures
        r == *t,
{
    let r = t.clone();
    assert(cloned(*t, r));
    r
}

pub(crate) fn same<T: InputTrait>(a: &T, b: &T) -> (r: bool)
    requires
        comparable::<T>(),
    ensures
        r == PartialEqSpec::eq_spec(a, b),
{
    a == b
}

pub(crate) fn carry_on<T: InputTrait>(last: &T, since: u32) -> (r: T)
    requires
        plain::<T>(),
    ensures
        r == carried_on(*last, since),
{
    match repeat(last, since) {
        Some(t) => t,
        None => blank(),
    }
}

/// An input is carried on as what repeating it gives, or as the blank input where it is not repeated.
pub proof fn carried_on_is_repeated<T: InputTrait>(last: T, since: u32, r: Option<T>, blank: T)
    requires
        plain::<T>(),
        call_ensures(T::repeated, (&last, since), r),
        call_ensures(T::default, (), blank),
    ensures
        repeat_of(last, since) == r,
        blank_input::<T>() == blank,
        carried_on(last, since) == if r is Some {
            r->0
        } else {
            blank
        },
{
}

/// Of plain inputs, what repeating an input gives is its repetition, and what making a blank one gives is
/// the blank input.
pub proof fn plain_inputs_are_told<T: InputTrait>(t: T, since: u32, r: Option<T>, blank: T)
    requires
        plain::<T>(),
    ensures
        call_ensures(T::repeated, (&t, since), r) ==> repeat_of(t, since) == r,
        call_ensures(T::default, (), blank) ==> blank_input::<T>() == blank,
        call_ensures(T::repeats, (), false) ==> !repeating::<T>(),
        call_ensures(T::repeats, (), true) ==> repeating::<T>(),
{
}

} // verus!
