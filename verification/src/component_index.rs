//! Finding components by their ids.
use bevy::platform::collections::HashMap;
use bevy::platform::hash::FixedHasher;

use vstd::prelude::*;

verus! {

/// The id of a component type.
pub type ComponentId = usize;

#[verifier::external_type_specification]
#[verifier::external_body]
pub struct ExFixedHasher(FixedHasher);

#[verifier::external_type_specification]
#[verifier::external_body]
#[verifier::reject_recursive_types(K)]
#[verifier::reject_recursive_types(V)]
#[verifier::reject_recursive_types(S)]
pub struct ExHashMap<K, V, S>(HashMap<K, V, S>);

/// The entries of a hash map.
pub uninterp spec fn map_entries(m: HashMap<usize, usize>) -> Map<usize, usize>;

/// `HashMap::new` makes a map without entries.
#[verifier::external_body]
fn map_new() -> (r: HashMap<usize, usize>)
    ensures
        map_entries(r).dom() == Set::<usize>::empty(),
{
    HashMap::new()
}

/// `HashMap::get` returns the value of a key, where it has one.
#[verifier::external_body]
fn map_get(m: &HashMap<usize, usize>, key: usize) -> (r: Option<usize>)
    ensures
        r == if map_entries(*m).contains_key(key) {
            Some(map_entries(*m)[key])
        } else {
            None
        },
{
    m.get(&key).copied()
}

/// `HashMap::insert` gives a key its value, in place of the one that it had.
#[verifier::external_body]
fn map_insert(m: &mut HashMap<usize, usize>, key: usize, value: usize)
    ensures
        map_entries(*final(m)) == map_entries(*old(m)).insert(key, value),
{
    m.insert(key, value);
}

/// Where the data of each component stands.
pub struct ComponentIndex {
    map: HashMap<usize, usize>,
}

impl View for ComponentIndex {
    type V = Map<usize, usize>;

    closed spec fn view(&self) -> Map<usize, usize> {
        map_entries(self.map)
    }
}

impl ComponentIndex {
    pub fn new() -> (r: Self)
        ensures
            r@ == Map::<usize, usize>::empty(),
    {
        let map = map_new();
        proof {
            assert(map_entries(map) =~= Map::<usize, usize>::empty());
        }
        ComponentIndex { map }
    }

    pub fn get(&self, id: &ComponentId) -> (r: Option<usize>)
        ensures
            r == if self@.contains_key(*id) {
                Some(self@[*id])
            } else {
                None
            },
    {
        map_get(&self.map, *id)
    }

    pub fn insert(&mut self, id: ComponentId, index: usize)
        ensures
            final(self)@ == old(self)@.insert(id, index),
    {
        map_insert(&mut self.map, id, index)
    }
}

} // verus!
