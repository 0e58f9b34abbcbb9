//! What the server tells of the inputs of an entity.
use crate::tick::RepliconTick;

use arrayvec::ArrayVec;

use vstd::prelude::*;

verus! {

#[verifier::external_type_specification]
#[verifier::external_body]
#[verifier::reject_recursive_types(T)]
pub struct ExArrayVec<T, const CAP: usize>(ArrayVec<T, CAP>);

/// The elements of a vector of at most three bytes.
pub uninterp spec fn three_bytes(v: ArrayVec<u8, 3>) -> Seq<u8>;

/// The elements of a vector of at most seven bytes.
pub uninterp spec fn seven_bytes(v: ArrayVec<u8, 7>) -> Seq<u8>;

/// `ArrayVec::new` makes an empty vector.
#[verifier::external_body]
fn three_new() -> (r: ArrayVec<u8, 3>)
    ensures
        three_bytes(r) == Seq::<u8>::empty(),
{
    ArrayVec::new()
}

/// `ArrayVec::push` adds an element behind the others. It panics on a full vector.
#[verifier::external_body]
fn three_push(v: &mut ArrayVec<u8, 3>, byte: u8)
    requires
        three_bytes(*old(v)).len() < 3,
    ensures
        three_bytes(*final(v)) == three_bytes(*old(v)).push(byte),
{
    v.push(byte)
}

/// `ArrayVec::as_slice` gives the elements in their order.
#[verifier::external_body]
fn three_as_slice(v: &ArrayVec<u8, 3>) -> (r: &[u8])
    ensures
        r@ == three_bytes(*v),
{
    v.as_slice()
}

/// `ArrayVec::new` makes an empty vector.
#[verifier::external_body]
fn seven_new() -> (r: ArrayVec<u8, 7>)
    ensures
        seven_bytes(r) == Seq::<u8>::empty(),
{
    ArrayVec::new()
}

/// `ArrayVec::push` adds an element behind the others. It panics on a full vector.
#[verifier::external_body]
fn seven_push(v: &mut ArrayVec<u8, 7>, byte: u8)
    requires
        seven_bytes(*old(v)).len() < 7,
    ensures
        seven_bytes(*final(v)) == seven_bytes(*old(v)).push(byte),
{
    v.push(byte)
}

/// `ArrayVec::as_slice` gives the elements in their order.
#[verifier::external_body]
fn seven_as_slice(v: &ArrayVec<u8, 7>) -> (r: &[u8])
    ensures
        r@ == seven_bytes(*v),
{
    v.as_slice()
}

/// Up to three inputs, each with the number of ticks that it lies before a tick.
#[derive(Debug, PartialEq)]
pub struct PastInputs<T> {
    offsets: ArrayVec<u8, 3>,
    inputs: Vec<T>,
}

/// Up to seven inputs, each with the number of ticks that it lies after a tick.
#[derive(Debug, PartialEq)]
pub struct FutureInputs<T> {
    offsets: ArrayVec<u8, 7>,
    inputs: Vec<T>,
}

impl<T> View for PastInputs<T> {
    type V = Seq<(u8, T)>;

    closed spec fn view(&self) -> Seq<(u8, T)> {
        Seq::new(self.inputs@.len(), |i: int| (three_bytes(self.offsets)[i], self.inputs@[i]))
    }
}

impl<T> View for FutureInputs<T> {
    type V = Seq<(u8, T)>;

    closed spec fn view(&self) -> Seq<(u8, T)> {
        Seq::new(self.inputs@.len(), |i: int| (seven_bytes(self.offsets)[i], self.inputs@[i]))
    }
}

impl<T> PastInputs<T> {
    /// There is an offset for each input.
    pub closed spec fn wf(&self) -> bool {
        three_bytes(self.offsets).len() == self.inputs@.len()
    }

    pub fn new() -> (r: Self)
        ensures
            r.wf(),
            r@ == Seq::<(u8, T)>::empty(),
    {
        let r = PastInputs { offsets: three_new(), inputs: Vec::new() };
        proof {
            assert(r@ =~= Seq::empty());
        }
        r
    }

    pub fn push(&mut self, offset: u8, input: T)
        requires
            old(self).wf(),
            old(self)@.len() < 3,
        ensures
            final(self).wf(),
            final(self)@ == old(self)@.push((offset, input)),
    {
        three_push(&mut self.offsets, offset);
        self.inputs.push(input);
        proof {
            assert(self@ =~= old(self)@.push((offset, input)));
        }
    }

    pub fn len(&self) -> (r: usize)
        ensures
            r == self@.len(),
    {
        self.inputs.len()
    }

    pub fn get(&self, index: usize) -> (r: (u8, &T))
        requires
            self.wf(),
            index < self@.len(),
        ensures
            r.0 == self@[index as int].0,
            *r.1 == self@[index as int].1,
    {
        (three_as_slice(&self.offsets)[index], &self.inputs[index])
    }

    /// Map the entities that the inputs speak of.
    pub fn map_entities<F: Fn(&T) -> T>(&mut self, mapper: &F)
        requires
            old(self).wf(),
            forall|i: int|
                0 <= i < old(self)@.len() ==> call_requires(
                    *mapper,
                    (&(#[trigger] old(self)@[i]).1,),
                ),
        ensures
            final(self).wf(),
            mapped_inputs(*mapper, old(self)@, final(self)@),
    {
        let mut i: usize = 0;
        while i < self.inputs.len()
            invariant
                i <= self.inputs@.len(),
                self.wf(),
                self@.len() == old(self)@.len(),
                forall|j: int|
                    0 <= j < self@.len() ==> call_requires(
                        *mapper,
                        (&(#[trigger] old(self)@[j]).1,),
                    ),
                forall|j: int| i <= j < self@.len() ==> #[trigger] self@[j] == old(self)@[j],
                forall|j: int|
                    0 <= j < i ==> {
                        &&& (#[trigger] self@[j]).0 == old(self)@[j].0
                        &&& call_ensures(*mapper, (&old(self)@[j].1,), self@[j].1)
                    },
            decreases self.inputs@.len() - i,
        {
            let ghost before = self@;
            assert(self@[i as int] == old(self)@[i as int]);
            let image: T = mapper(&self.inputs[i]);
            self.inputs.set(i, image);
            assert forall|j: int| 0 <= j < self@.len() && j != i implies #[trigger] self@[j]
                == before[j] by {}
            i = i + 1;
        }
    }
}

impl<T> FutureInputs<T> {
    /// There is an offset for each input.
    pub closed spec fn wf(&self) -> bool {
        seven_bytes(self.offsets).len() == self.inputs@.len()
    }

    pub fn new() -> (r: Self)
        ensures
            r.wf(),
            r@ == Seq::<(u8, T)>::empty(),
    {
        let r = FutureInputs { offsets: seven_new(), inputs: Vec::new() };
        proof {
            assert(r@ =~= Seq::empty());
        }
        r
    }

    pub fn push(&mut self, offset: u8, input: T)
        requires
            old(self).wf(),
            old(self)@.len() < 7,
        ensures
            final(self).wf(),
            final(self)@ == old(self)@.push((offset, input)),
    {
        seven_push(&mut self.offsets, offset);
        self.inputs.push(input);
        proof {
            assert(self@ =~= old(self)@.push((offset, input)));
        }
    }

    pub fn len(&self) -> (r: usize)
        ensures
            r == self@.len(),
    {
        self.inputs.len()
    }

    pub fn get(&self, index: usize) -> (r: (u8, &T))
        requires
            self.wf(),
            index < self@.len(),
        ensures
            r.0 == self@[index as int].0,
            *r.1 == self@[index as int].1,
    {
        (seven_as_slice(&self.offsets)[index], &self.inputs[index])
    }

    /// Map the entities that the inputs speak of.
    pub fn map_entities<F: Fn(&T) -> T>(&mut self, mapper: &F)
        requires
            old(self).wf(),
            forall|i: int|
                0 <= i < old(self)@.len() ==> call_requires(
                    *mapper,
                    (&(#[trigger] old(self)@[i]).1,),
                ),
        ensures
            final(self).wf(),
            mapped_inputs(*mapper, old(self)@, final(self)@),
    {
        let mut i: usize = 0;
        while i < self.inputs.len()
            invariant
                i <= self.inputs@.len(),
                self.wf(),
                self@.len() == old(self)@.len(),
                forall|j: int|
                    0 <= j < self@.len() ==> call_requires(
                        *mapper,
                        (&(#[trigger] old(self)@[j]).1,),
                    ),
                forall|j: int| i <= j < self@.len() ==> #[trigger] self@[j] == old(self)@[j],
                forall|j: int|
                    0 <= j < i ==> {
                        &&& (#[trigger] self@[j]).0 == old(self)@[j].0
                        &&& call_ensures(*mapper, (&old(self)@[j].1,), self@[j].1)
                    },
            decreases self.inputs@.len() - i,
        {
            let ghost before = self@;
            assert(self@[i as int] == old(self)@[i as int]);
            let image: T = mapper(&self.inputs[i]);
            self.inputs.set(i, image);
            assert forall|j: int| 0 <= j < self@.len() && j != i implies #[trigger] self@[j]
                == before[j] by {}
            i = i + 1;
        }
    }
}

/// Each input is replaced by its image; the offsets stay.
pub open spec fn mapped_inputs<T, F: Fn(&T) -> T>(
    mapper: F,
    before: Seq<(u8, T)>,
    after: Seq<(u8, T)>,
) -> bool {
    &&& after.len() == before.len()
    &&& forall|i: int|
        0 <= i < before.len() ==> {
            &&& (#[trigger] after[i]).0 == before[i].0
            &&& call_ensures(mapper, (&before[i].1,), after[i].1)
        }
}

/// The inputs of an entity around a tick.
#[derive(Debug, PartialEq)]
pub struct HistoryFor<T> {
    /// The bits of the entity's id
    pub entity: u64,
    pub tick: RepliconTick,
    /// The inputs that were used before or at the tick, oldest first
    pub past: PastInputs<T>,
    /// The inputs for the tick and after it
    pub future: FutureInputs<T>,
}

impl<T> HistoryFor<T> {
    pub open spec fn wf(&self) -> bool {
        self.past.wf() && self.future.wf()
    }

    /// Map the entity, and the entities that the inputs speak of.
    pub fn map_entities<E: Fn(u64) -> u64, F: Fn(&T) -> T>(
        &mut self,
        entity_mapper: &E,
        mapper: &F,
    )
        requires
            old(self).wf(),
            call_requires(*entity_mapper, (old(self).entity,)),
            forall|i: int|
                0 <= i < old(self).past@.len() ==> call_requires(
                    *mapper,
                    (&(#[trigger] old(self).past@[i]).1,),
                ),
            forall|i: int|
                0 <= i < old(self).future@.len() ==> call_requires(
                    *mapper,
                    (&(#[trigger] old(self).future@[i]).1,),
                ),
        ensures
            final(self).wf(),
            call_ensures(*entity_mapper, (old(self).entity,), final(self).entity),
            final(self).tick == old(self).tick,
            mapped_inputs(*mapper, old(self).past@, final(self).past@),
            mapped_inputs(*mapper, old(self).future@, final(self).future@),
    {
        self.entity = entity_mapper(self.entity);
        self.past.map_entities(mapper);
        self.future.map_entities(mapper);
    }
}

/// Mapping entities changes each input to what the mapper gives for it, and leaves the number of
/// inputs and the ticks that they are for.
pub proof fn ticks_are_not_mapped<T, F: Fn(&T) -> T>(
    mapper: F,
    before: Seq<(u8, T)>,
    after: Seq<(u8, T)>,
    i: int,
)
    requires
        mapped_inputs(mapper, before, after),
        0 <= i < before.len(),
    ensures
        after.len() == before.len(),
        after[i].0 == before[i].0,
        call_ensures(mapper, (&before[i].1,), after[i].1),
{
    assert(after[i].0 == before[i].0);
}

} // verus!
