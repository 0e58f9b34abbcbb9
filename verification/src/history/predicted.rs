//! What was predicted of an entity.
use super::component::HistoryComponent;
use super::component_history::ComponentHistory;
use super::entity_history::EntityHistory;
use super::laws;
use super::records::Records;
use super::registry::RollbackRegistry;
use super::tick_data::TickData;
use crate::component_index::ComponentId;
use crate::rollback::{RollbackFrames, StoreFor};

use vstd::prelude::*;
use vstd::std_specs::cmp::PartialEqSpec;

verus! {

/// The id of an archetype: a set of components that entities have.
pub type ArchetypeId = usize;

/// What was predicted of an entity's components.
pub struct PredictedHistory<T> {
    pub history: EntityHistory<T>,
    /// The archetype that the entity had when it was last stored
    pub last_archetype: Option<ArchetypeId>,
}

impl<T> PredictedHistory<T> {
    pub open spec fn wf(&self) -> bool {
        self.history.wf()
    }

    pub fn new() -> (r: Self)
        ensures
            r.wf(),
            r.history@ == Map::<ComponentId, ComponentHistory<T>>::empty(),
            r.history.entries@.len() == 0,
            r.last_archetype is None,
    {
        PredictedHistory { history: EntityHistory::new(), last_archetype: None }
    }

    pub fn contains_key(&self, id: &ComponentId) -> (r: bool)
        ensures
            r == self.history@.contains_key(*id),
    {
        self.history.contains_key(id)
    }

    pub fn get(&self, id: &ComponentId) -> (r: Option<&ComponentHistory<T>>)
        requires
            self.wf(),
        ensures
            r == if self.history@.contains_key(*id) {
                Some(&self.history@[*id])
            } else {
                None
            },
            r matches Some(h) ==> h.wf(),
    {
        self.history.get(id)
    }

    pub fn insert(&mut self, id: ComponentId, history: ComponentHistory<T>)
        requires
            old(self).wf(),
            history.wf(),
        ensures
            final(self).wf(),
            final(self).history@ == old(self).history@.insert(id, history),
            final(self).last_archetype == old(self).last_archetype,
    {
        self.history.insert(id, history);
    }
}

impl<T> Default for PredictedHistory<T> {
    fn default() -> (r: Self)
        ensures
            r.wf(),
            r.history@ == Map::<ComponentId, ComponentHistory<T>>::empty(),
            r.last_archetype is None,
    {
        PredictedHistory::new()
    }
}

/// A set of components that entities have.
#[derive(Debug)]
pub struct Archetype {
    pub id: ArchetypeId,
    pub components: Vec<ComponentId>,
}

impl Archetype {
    pub fn contains(&self, id: ComponentId) -> (r: bool)
        ensures
            r == self.components@.contains(id),
    {
        let mut i: usize = 0;
        while i < self.components.len()
            invariant
                i <= self.components@.len(),
                forall|j: int| 0 <= j < i ==> self.components@[j] != id,
            decreases self.components@.len() - i,
        {
            if self.components[i] == id {
                return true;
            }
            i = i + 1;
        }
        false
    }
}

/// The registered components of an archetype.
#[derive(Debug)]
pub struct ArchetypeEntry {
    pub id: ArchetypeId,
    /// The components and where they are registered, by id
    pub predicted: Vec<(ComponentId, usize)>,
}

/// The archetypes of predicted entities.
#[derive(Debug)]
pub struct ArchetypeCache {
    /// The number of archetypes that were looked at
    pub generation: usize,
    /// The archetypes with registered components
    pub list: Vec<ArchetypeEntry>,
    /// The archetypes without
    pub no_components: Vec<ArchetypeId>,
}

/// Pairs in the order of their ids.
pub open spec fn by_id(pairs: Seq<(ComponentId, usize)>) -> bool {
    forall|i: int, j: int| 0 <= i < j < pairs.len() ==> (#[trigger] pairs[i]).0 <= (
    #[trigger] pairs[j]).0
}

/// The registered components among some components, and where they are registered.
pub open spec fn registered(
    ids: Map<usize, usize>,
    components: Seq<ComponentId>,
) -> Seq<(ComponentId, usize)>
    decreases components.len(),
{
    if components.len() == 0 {
        Seq::empty()
    } else {
        let front = registered(ids, components.drop_last());
        if ids.contains_key(components.last()) {
            front.push((components.last(), ids[components.last()]))
        } else {
            front
        }
    }
}

/// Entities of an archetype are predicted and have a history.
pub open spec fn is_stored(
    archetype: Archetype,
    predicted_id: ComponentId,
    history_id: ComponentId,
) -> bool {
    archetype.components@.contains(predicted_id) && archetype.components@.contains(history_id)
}

/// The archetypes that have registered components among some archetypes.
pub open spec fn with_components(
    archetypes: Seq<Archetype>,
    predicted_id: ComponentId,
    history_id: ComponentId,
    ids: Map<usize, usize>,
) -> Seq<Archetype> {
    archetypes.filter(
        |a: Archetype|
            is_stored(a, predicted_id, history_id) && registered(ids, a.components@).len() > 0,
    )
}

/// The archetypes that have no registered components among some archetypes.
pub open spec fn without_components(
    archetypes: Seq<Archetype>,
    predicted_id: ComponentId,
    history_id: ComponentId,
    ids: Map<usize, usize>,
) -> Seq<Archetype> {
    archetypes.filter(
        |a: Archetype|
            is_stored(a, predicted_id, history_id) && registered(ids, a.components@).len() == 0,
    )
}

/// An entry holds the registered components of an archetype, in the order of their ids.
pub open spec fn enters(entry: ArchetypeEntry, archetype: Archetype, ids: Map<usize, usize>) -> bool {
    &&& entry.id == archetype.id
    &&& by_id(entry.predicted@)
    &&& entry.predicted@.to_multiset() == registered(ids, archetype.components@).to_multiset()
}

impl Default for ArchetypeCache {
    fn default() -> (r: Self)
        ensures
            r.generation == 0,
            r.list@.len() == 0,
            r.no_components@.len() == 0,
    {
        ArchetypeCache::new()
    }
}

impl ArchetypeCache {
    pub fn new() -> (r: Self)
        ensures
            r.generation == 0,
            r.list@.len() == 0,
            r.no_components@.len() == 0,
    {
        ArchetypeCache { generation: 0, list: Vec::new(), no_components: Vec::new() }
    }
}

/// Insert a pair behind the pairs with smaller or equal ids.
fn insert_by_id(pairs: &mut Vec<(ComponentId, usize)>, pair: (ComponentId, usize))
    requires
        by_id(old(pairs)@),
    ensures
        by_id(final(pairs)@),
        final(pairs)@.to_multiset() == old(pairs)@.to_multiset().insert(pair),
        final(pairs)@.len() == old(pairs)@.len() + 1,
{
    let mut at: usize = pairs.len();
    while at > 0 && pairs[at - 1].0 > pair.0
        invariant
            at <= pairs@.len(),
            pairs@ == old(pairs)@,
            forall|j: int| at <= j < pairs@.len() ==> pair.0 < (#[trigger] pairs@[j]).0,
        decreases at,
    {
        at = at - 1;
    }
    pairs.insert(at, pair);
    proof {
        assert(pairs@.remove(at as int) =~= old(pairs)@);
        broadcast use vstd::seq_lib::group_to_multiset_ensures;

        assert(pairs@[at as int] == pair);
        assert(pairs@.contains(pair));
        assert(pairs@.to_multiset() =~= old(pairs)@.to_multiset().insert(pair));
        assert forall|i: int, j: int| 0 <= i < j < pairs@.len() implies (#[trigger] pairs@[i]).0
            <= (#[trigger] pairs@[j]).0 by {
            let a = if i < at {
                i
            } else {
                i - 1
            };
            let b = if j < at {
                j
            } else {
                j - 1
            };
            let before = old(pairs)@;
            if i != at && j != at {
                assert(before[a].0 <= before[b].0);
            } else if j == at && at > 0 {
                assert(before[at - 1].0 <= pair.0);
                if i < at - 1 {
                    assert(before[i].0 <= before[at - 1].0);
                }
            }
        }
    }
}

/// The registered components of an archetype, in the order of their ids.
fn registered_components<W>(archetype: &Archetype, registry: &RollbackRegistry<W>) -> (r: Vec<
    (ComponentId, usize),
>)
    ensures
        by_id(r@),
        r@.to_multiset() == registered(registry.ids@, archetype.components@).to_multiset(),
        r@.len() == registered(registry.ids@, archetype.components@).len(),
{
    let mut predicted: Vec<(ComponentId, usize)> = Vec::new();
    let ghost all = archetype.components@;
    let mut i: usize = 0;
    proof {
        assert(all.take(0) =~= Seq::empty());
        assert(predicted@ =~= registered(registry.ids@, all.take(0)));
    }
    while i < archetype.components.len()
        invariant
            i <= all.len(),
            all == archetype.components@,
            by_id(predicted@),
            predicted@.to_multiset() == registered(registry.ids@, all.take(i as int)).to_multiset(),
            predicted@.len() == registered(registry.ids@, all.take(i as int)).len(),
        decreases all.len() - i,
    {
        let component_id: ComponentId = archetype.components[i];
        proof {
            assert(all.take(i + 1).drop_last() =~= all.take(i as int));
            broadcast use vstd::seq_lib::group_to_multiset_ensures;

        }
        if let Some(index) = registry.ids.get(&component_id) {
            insert_by_id(&mut predicted, (component_id, index));
        }
        i = i + 1;
    }
    proof {
        assert(all.take(all.len() as int) =~= all);
    }
    predicted
}

/// Look at the archetypes that were added since the last time.
pub fn update_archetype_cache<W>(
    archetypes: &[Archetype],
    predicted_id: ComponentId,
    history_id: ComponentId,
    cache: &mut ArchetypeCache,
    registry: &RollbackRegistry<W>,
)
    requires
        old(cache).generation <= archetypes@.len(),
    ensures
        final(cache).generation == archetypes@.len(),
        ({
            let added = archetypes@.skip(old(cache).generation as int);
            let with = with_components(added, predicted_id, history_id, registry.ids@);
            let without = without_components(added, predicted_id, history_id, registry.ids@);
            let known = old(cache).list@.len() as int;
            &&& final(cache).list@.len() == known + with.len()
            &&& final(cache).list@.take(known) == old(cache).list@
            &&& forall|i: int|
                0 <= i < with.len() ==> enters(
                    #[trigger] final(cache).list@.skip(known)[i],
                    with[i],
                    registry.ids@,
                )
            &&& final(cache).no_components@ == old(cache).no_components@ + without.map_values(
                |a: Archetype| a.id,
            )
        }),
{
    let ghost added = archetypes@.skip(cache.generation as int);
    let ghost ids = registry.ids@;
    let ghost known = cache.list@.len() as int;
    let ghost first = cache.generation as int;
    let mut i: usize = cache.generation;
    proof {
        assert(added.take(0) =~= Seq::empty());
        reveal(Seq::filter);
        assert(cache.no_components@ =~= old(cache).no_components@ + without_components(
            added.take(0),
            predicted_id,
            history_id,
            ids,
        ).map_values(|a: Archetype| a.id));
    }
    while i < archetypes.len()
        invariant
            0 <= first <= i <= archetypes@.len(),
            added == archetypes@.skip(first),
            ids == registry.ids@,
            known == old(cache).list@.len(),
            cache.list@.len() == known + with_components(
                added.take(i - first),
                predicted_id,
                history_id,
                ids,
            ).len(),
            cache.list@.take(known) == old(cache).list@,
            forall|k: int|
                0 <= k < cache.list@.len() - known ==> enters(
                    #[trigger] cache.list@.skip(known)[k],
                    with_components(added.take(i - first), predicted_id, history_id, ids)[k],
                    ids,
                ),
            cache.no_components@ == old(cache).no_components@ + without_components(
                added.take(i - first),
                predicted_id,
                history_id,
                ids,
            ).map_values(|a: Archetype| a.id),
        decreases archetypes@.len() - i,
    {
        let archetype = &archetypes[i];
        let ghost seen = added.take(i - first);
        let ghost next = added.take(i - first + 1);
        let ghost with = with_components(seen, predicted_id, history_id, ids);
        let ghost without = without_components(seen, predicted_id, history_id, ids);
        let ghost before = *cache;
        proof {
            reveal(Seq::filter);
            assert(next.drop_last() =~= seen);
            assert(next.last() == *archetype);
        }
        if archetype.contains(predicted_id) && archetype.contains(history_id) {
            let predicted = registered_components(archetype, registry);
            if predicted.len() > 0 {
                let entry = ArchetypeEntry { id: archetype.id, predicted };
                proof {
                    assert(enters(entry, *archetype, ids));
                }
                cache.list.push(entry);
                proof {
                    let now = with_components(next, predicted_id, history_id, ids);
                    assert(now == with.push(*archetype));
                    assert(cache.list@.take(known) =~= before.list@.take(known));
                    assert forall|k: int| 0 <= k < cache.list@.len() - known implies enters(
                        #[trigger] cache.list@.skip(known)[k],
                        now[k],
                        ids,
                    ) by {
                        if k < with.len() {
                            assert(cache.list@.skip(known)[k] == before.list@.skip(known)[k]);
                        } else {
                            assert(cache.list@.skip(known)[k] == entry);
                        }
                    }
                }
            } else {
                cache.no_components.push(archetype.id);
                proof {
                    let now = without_components(next, predicted_id, history_id, ids);
                    assert(now == without.push(*archetype));
                    assert(now.map_values(|a: Archetype| a.id) =~= without.map_values(
                        |a: Archetype| a.id,
                    ).push(archetype.id));
                }
            }
        }
        i = i + 1;
    }
    proof {
        assert(added.take(archetypes@.len() - first) =~= added);
    }
    cache.generation = archetypes.len();
}

/// What is held of a component that an entity no longer has: the removal is recorded, unless all
/// that is known is later.
pub open spec fn left_behind<T>(r: Records<T>, t: u32) -> Records<T> {
    if r.first() >= t {
        r
    } else {
        r.marked(t as int)
    }
}

/// Store an entity that has none of the registered components.
pub fn store_no_components<T>(history: &mut PredictedHistory<T>, tick: StoreFor)
    requires
        old(history).wf(),
        old(history).last_archetype is Some ==> old(history).history.can_mark(tick.0.0),
    ensures
        final(history).wf(),
        final(history).last_archetype is None,
        final(history).history@.dom() == old(history).history@.dom(),
        forall|id: ComponentId| #[trigger]
            old(history).history@.contains_key(id) ==> final(history).history@[id]@ == if old(
                history,
            ).last_archetype is Some {
                left_behind(old(history).history@[id]@, tick.0.0)
            } else {
                old(history).history@[id]@
            },
{
    if history.last_archetype.is_some() {
        let no_entry: Vec<(ComponentId, usize)> = Vec::new();
        mark_missing(&mut history.history, &no_entry, tick);
        history.last_archetype = None;
    }
}

/// A component is among some registered components.
pub open spec fn is_listed(predicted: Seq<(ComponentId, usize)>, id: ComponentId) -> bool {
    exists|i: int| 0 <= i < predicted.len() && (#[trigger] predicted[i]).0 == id
}

fn lists(predicted: &Vec<(ComponentId, usize)>, id: ComponentId) -> (r: bool)
    ensures
        r == is_listed(predicted@, id),
{
    let mut i: usize = 0;
    while i < predicted.len()
        invariant
            i <= predicted@.len(),
            forall|j: int| 0 <= j < i ==> (#[trigger] predicted@[j]).0 != id,
        decreases predicted@.len() - i,
    {
        if predicted[i].0 == id {
            return true;
        }
        i = i + 1;
    }
    false
}

/// Record the removal of the components that an entity no longer has.
fn mark_missing<T>(
    history: &mut EntityHistory<T>,
    predicted: &Vec<(ComponentId, usize)>,
    tick: StoreFor,
)
    requires
        old(history).wf(),
        old(history).can_mark(tick.0.0),
    ensures
        final(history).wf(),
        final(history)@.dom() == old(history)@.dom(),
        forall|id: ComponentId| #[trigger]
            old(history)@.contains_key(id) ==> if is_listed(predicted@, id) {
                final(history)@[id] == old(history)@[id]
            } else {
                final(history)@[id]@ == left_behind(old(history)@[id]@, tick.0.0)
            },
{
    let t: u32 = tick.get();
    let ghost entries = history.entries@;
    let mut i: usize = 0;
    while i < history.entries.len()
        invariant
            i <= entries.len(),
            t == tick.0.0,
            entries == old(history).entries@,
            old(history).wf(),
            old(history).can_mark(t),
            history.wf(),
            history.index == old(history).index,
            history.entries@.len() == entries.len(),
            forall|j: int|
                i <= j < entries.len() ==> #[trigger] history.entries@[j] == entries[j],
            forall|j: int|
                0 <= j < i ==> {
                    let entry = #[trigger] history.entries@[j];
                    &&& entry.0 == entries[j].0
                    &&& if is_listed(predicted@, entry.0) {
                        entry == entries[j]
                    } else {
                        entry.1@ == left_behind(entries[j].1@, t)
                    }
                },
        decreases entries.len() - i,
    {
        let ghost before = *history;
        let ghost id = entries[i as int].0;
        proof {
            let entry = old(history).entries@[i as int];
            assert(history.entries@[i as int] == entry);
            assert(old(history)@.contains_key(id));
            assert(old(history)@[id] == entry.1);
        }
        let entry = &mut history.entries[i];
        if entry.1.first_tick() < t && !lists(predicted, entry.0) {
            entry.1.mark_removed(t);
        }
        i = i + 1;
        proof {
            EntityHistory::replaced(before, *history, id, history.entries@[i - 1].1);
        }
    }
    proof {
        assert(history@.dom() =~= old(history)@.dom());
        assert forall|id: ComponentId| #[trigger] old(history)@.contains_key(id) implies if is_listed(
            predicted@,
            id,
        ) {
            history@[id] == old(history)@[id]
        } else {
            history@[id]@ == left_behind(old(history)@[id]@, tick.0.0)
        } by {
            old(history).entry_of(id);
            let entry = history.entries@[old(history).index@[id] as int];
        }
    }
}

/// What is held after the value of a component was stored. Nothing is written where the value
/// has not changed, is equal to the one that was latest on the tick before, or is for a tick
/// before what the window can hold.
pub open spec fn stores<T: Clone + PartialEq>(
    before: Records<T>,
    after: Records<T>,
    value: Option<&T>,
    keeps: spec_fn(T) -> T,
    t: u32,
) -> bool {
    let last = before.latest(super::load::tick_before(t) as int);
    let obeys = <T as PartialEqSpec>::obeys_eq_spec();
    match value {
        None => after == before,
        Some(v) => {
            ||| after == before && before.refuses(t as int)
            ||| {
                &&& after == before
                &&& last matches TickData::Value(prev) && (obeys ==> PartialEqSpec::eq_spec(
                    &prev,
                    v,
                ))
            }
            ||| {
                &&& !before.refuses(t as int)
                &&& last matches TickData::Value(prev) ==> (obeys ==> !PartialEqSpec::eq_spec(
                    &prev,
                    v,
                ))
                &&& exists|copy: T|
                    cloned(*v, copy) && after == before.written(t as int, #[trigger] keeps(copy))
            }
        },
    }
}

/// Store the value of a component.
fn store_value<T: Clone + PartialEq, W>(
    history: &mut ComponentHistory<T>,
    component: &HistoryComponent<W>,
    value: Option<&T>,
    t: u32,
)
    requires
        old(history).wf(),
        value is Some ==> old(history).can_reach(t),
    ensures
        final(history).wf(),
        final(history).list.capacity == old(history).list.capacity,
        stores(old(history)@, final(history)@, value, |v: T| old(history).stored_as(v), t),
{
    let value: &T = match value {
        Some(value) => value,
        None => return,
    };
    if history.refuses(t) {
        return;
    }
    if let TickData::Value(prev) = history.get_latest(t.saturating_sub(1)) {
        if component.equal(prev, value) {
            return;
        }
    }
    let copy = component.store(value);
    let ghost keeps = |v: T| old(history).stored_as(v);
    let ghost written = copy;
    history.write(t, copy);
    proof {
        assert(history@ == old(history)@.written(t as int, keeps(written)));
        assert(history@.capacity == old(history)@.capacity);
    }
}

/// What is held of a component before its value is stored: its history, or a fresh one.
pub open spec fn base<T>(
    history: Map<ComponentId, ComponentHistory<T>>,
    id: ComponentId,
    frames: RollbackFrames,
) -> Records<T> {
    if history.contains_key(id) {
        history[id]@
    } else {
        Records::fresh(frames@ + 2)
    }
}

/// What a value of a component reads back as once it is stored.
pub open spec fn kept<T>(
    history: Map<ComponentId, ComponentHistory<T>>,
    id: ComponentId,
) -> spec_fn(T) -> T {
    |v: T|
        if history.contains_key(id) {
            history[id].stored_as(v)
        } else {
            v
        }
}

/// The components of an entry are registered, and none is listed twice.
pub open spec fn entry_of_registry<W>(
    entry: ArchetypeEntry,
    registry: RollbackRegistry<W>,
) -> bool {
    &&& forall|i: int|
        0 <= i < entry.predicted@.len() ==> (#[trigger] entry.predicted@[i]).1
            < registry.components@.len()
    &&& forall|i: int, j: int|
        0 <= i < j < entry.predicted@.len() ==> (#[trigger] entry.predicted@[i]).0 != (
        #[trigger] entry.predicted@[j]).0
}

/// Store an entity's components. `values` has the value of each of the entry's components that
/// has changed.
pub fn store_components<T: Clone + PartialEq, W>(
    history: &mut PredictedHistory<T>,
    entry: &ArchetypeEntry,
    values: &[Option<&T>],
    registry: &RollbackRegistry<W>,
    tick: StoreFor,
    frames: RollbackFrames,
)
    requires
        old(history).wf(),
        old(history).last_archetype matches Some(last) && last != entry.id ==> old(
            history,
        ).history.can_mark(tick.0.0),
        forall|i: int|
            0 <= i < values@.len() && values@[i] is Some && old(history).history@.contains_key(
                (#[trigger] entry.predicted@[i]).0,
            ) ==> old(history).history@[entry.predicted@[i].0].can_reach(tick.0.0),
        entry_of_registry(*entry, *registry),
        values@.len() == entry.predicted@.len(),
    ensures
        final(history).wf(),
        final(history).last_archetype == Some(entry.id),
        forall|id: ComponentId| #[trigger]
            final(history).history@.contains_key(id) <==> old(history).history@.contains_key(id)
                || is_listed(entry.predicted@, id),
        forall|i: int|
            0 <= i < values@.len() ==> {
                let id = entry.predicted@[i].0;
                stores(
                    base(old(history).history@, id, frames),
                    final(history).history@[id]@,
                    #[trigger] values@[i],
                    kept(old(history).history@, id),
                    tick.0.0,
                )
            },
        forall|id: ComponentId| #[trigger]
            old(history).history@.contains_key(id) && !is_listed(entry.predicted@, id) ==> {
                let left = old(history).last_archetype matches Some(last) && last != entry.id;
                final(history).history@[id]@ == if left {
                    left_behind(old(history).history@[id]@, tick.0.0)
                } else {
                    old(history).history@[id]@
                }
            },
{
    let t: u32 = tick.get();
    if let Some(last_archetype) = history.last_archetype {
        if last_archetype != entry.id {
            mark_missing(&mut history.history, &entry.predicted, tick);
        }
    }
    history.last_archetype = Some(entry.id);
    let ghost marked = history.history;
    let ghost listed = entry.predicted@;
    let size: u8 = frames.history_size() as u8;
    let mut i: usize = 0;
    proof {
        assert forall|id: ComponentId| is_listed(listed, id) && #[trigger] old(
            history,
        ).history@.contains_key(id) implies marked@.contains_key(id) && marked@[id] == old(
            history,
        ).history@[id] by {}
        assert forall|id: ComponentId| marked@.contains_key(id) == #[trigger] old(
            history,
        ).history@.contains_key(id) by {
            assert(marked@.dom().contains(id) == old(history).history@.dom().contains(id));
        }
    }
    while i < entry.predicted.len()
        invariant
            i <= listed.len(),
            listed == entry.predicted@,
            t == tick.0.0,
            size == frames@ + 2,
            2 <= size <= 62,
            values@.len() == listed.len(),
            entry_of_registry(*entry, *registry),
            history.wf(),
            history.last_archetype == Some(entry.id),
            forall|k: int|
                0 <= k < values@.len() && values@[k] is Some && old(history).history@.contains_key(
                    (#[trigger] listed[k]).0,
                ) ==> old(history).history@[listed[k].0].can_reach(t),
            forall|id: ComponentId| marked@.contains_key(id) == #[trigger] old(
                history,
            ).history@.contains_key(id),
            forall|id: ComponentId|
                is_listed(listed, id) && #[trigger] old(history).history@.contains_key(id)
                    ==> marked@[id] == old(history).history@[id],
            forall|id: ComponentId| #[trigger]
                history.history@.contains_key(id) <==> marked@.contains_key(id) || is_listed(
                    listed.take(i as int),
                    id,
                ),
            forall|id: ComponentId|
                marked@.contains_key(id) && !is_listed(listed.take(i as int), id)
                    ==> #[trigger] history.history@[id] == marked@[id],
            forall|j: int|
                0 <= j < i ==> {
                    let id = listed[j].0;
                    stores(
                        base(old(history).history@, id, frames),
                        history.history@[id]@,
                        #[trigger] values@[j],
                        kept(old(history).history@, id),
                        t,
                    )
                },
        decreases listed.len() - i,
    {
        let (component_id, registry_index): (ComponentId, usize) = entry.predicted[i];
        let component = &registry.components[registry_index];
        let ghost before = history.history;
        proof {
            assert(listed[i as int].0 == component_id);
            assert(is_listed(listed, component_id));
            assert(!is_listed(listed.take(i as int), component_id)) by {
                assert forall|j: int| 0 <= j < i implies (#[trigger] listed.take(
                    i as int,
                )[j]).0 != component_id by {
                    assert(listed[j].0 != listed[i as int].0);
                }
            }
            assert(before@.contains_key(component_id) == old(history).history@.contains_key(
                component_id,
            ));
        }
        let place: usize = history.history.entry(component_id, component, size);
        let ghost ready = history.history;
        proof {
            ready.entry_of(component_id);
            if before@.contains_key(component_id) {
                assert(ready@[component_id] == marked@[component_id]);
            }
            assert(ready@[component_id]@ == base(old(history).history@, component_id, frames));
        }
        let slot = &mut history.history.entries[place];
        store_value(&mut slot.1, component, values[i], t);
        proof {
            let now = history.history.entries@[place as int];
            EntityHistory::replaced(ready, history.history, component_id, now.1);
            assert((|v: T| ready@[component_id].stored_as(v)) =~= kept(
                old(history).history@,
                component_id,
            ));
            assert forall|id: ComponentId| #[trigger]
                history.history@.contains_key(id) <==> marked@.contains_key(id) || is_listed(
                    listed.take(i + 1),
                    id,
                ) by {
                listed_next(listed, i as int, id);
            }
            assert forall|id: ComponentId|
                marked@.contains_key(id) && !is_listed(
                    listed.take(i + 1),
                    id,
                ) implies #[trigger] history.history@[id] == marked@[id] by {
                listed_next(listed, i as int, id);
            }
            assert forall|j: int| 0 <= j < i + 1 implies {
                let id = listed[j].0;
                stores(
                    base(old(history).history@, id, frames),
                    history.history@[id]@,
                    #[trigger] values@[j],
                    kept(old(history).history@, id),
                    t,
                )
            } by {
                if j < i {
                    assert(listed[j].0 != listed[i as int].0);
                    let id = listed[j].0;
                    assert(is_listed(listed.take(i as int), id)) by {
                        assert(listed.take(i as int)[j].0 == id);
                    }
                    assert(before@.contains_key(id));
                    assert(history.history@[id] == before@[id]);
                }
            }
        }
        i = i + 1;
    }
    proof {
        assert(listed.take(listed.len() as int) =~= listed);
        assert forall|id: ComponentId| #[trigger]
            old(history).history@.contains_key(id) && !is_listed(entry.predicted@, id) implies {
            let left = old(history).last_archetype matches Some(last) && last != entry.id;
            history.history@[id]@ == if left {
                left_behind(old(history).history@[id]@, tick.0.0)
            } else {
                old(history).history@[id]@
            }
        } by {
            assert(history.history@[id] == marked@[id]);
        }
    }
}

proof fn listed_next(listed: Seq<(ComponentId, usize)>, i: int, id: ComponentId)
    requires
        0 <= i < listed.len(),
    ensures
        is_listed(listed.take(i + 1), id) <==> is_listed(listed.take(i), id) || listed[i].0 == id,
{
    if is_listed(listed.take(i), id) {
        let j = choose|j: int| 0 <= j < listed.take(i).len() && (#[trigger] listed.take(i)[j]).0 == id;
        assert(listed.take(i + 1)[j].0 == id);
    }
    if listed[i].0 == id {
        assert(listed.take(i + 1)[i].0 == id);
    }
    if is_listed(listed.take(i + 1), id) {
        let j = choose|j: int|
            0 <= j < listed.take(i + 1).len() && (#[trigger] listed.take(i + 1)[j]).0 == id;
        if j < i {
            assert(listed.take(i)[j].0 == id);
        }
    }
}

/// Store the components of an entity that have no history yet, unless the entity was last stored
/// with the same archetype. `values` has the value of each of the entry's components.
pub fn store_initial<T: Clone, W>(
    history: &mut PredictedHistory<T>,
    entry: &ArchetypeEntry,
    values: &[&T],
    registry: &RollbackRegistry<W>,
    tick: StoreFor,
    frames: RollbackFrames,
)
    requires
        old(history).wf(),
        entry_of_registry(*entry, *registry),
        values@.len() == entry.predicted@.len(),
    ensures
        final(history).wf(),
        final(history).last_archetype == old(history).last_archetype,
        old(history).last_archetype == Some(entry.id) ==> *final(history) == *old(history),
        old(history).last_archetype != Some(entry.id) ==> {
            &&& forall|id: ComponentId| #[trigger]
                final(history).history@.contains_key(id) <==> old(history).history@.contains_key(
                    id,
                ) || is_listed(entry.predicted@, id)
            &&& forall|id: ComponentId|
                old(history).history@.contains_key(id) ==> #[trigger] final(history).history@[id]
                    == old(history).history@[id]
            &&& forall|i: int|
                0 <= i < values@.len() && !old(history).history@.contains_key(
                    entry.predicted@[i].0,
                ) ==> first_value(
                    final(history).history@[entry.predicted@[i].0]@,
                    *#[trigger] values@[i],
                    tick.0.0,
                    frames,
                )
        },
{
    let t: u32 = tick.get();
    if let Some(last_archetype) = history.last_archetype {
        if last_archetype == entry.id {
            return;
        }
    }
    let ghost listed = entry.predicted@;
    let size: u8 = frames.history_size() as u8;
    let mut i: usize = 0;
    while i < entry.predicted.len()
        invariant
            i <= listed.len(),
            listed == entry.predicted@,
            t == tick.0.0,
            size == frames@ + 2,
            2 <= size <= 62,
            values@.len() == listed.len(),
            entry_of_registry(*entry, *registry),
            history.wf(),
            history.last_archetype == old(history).last_archetype,
            forall|id: ComponentId| #[trigger]
                history.history@.contains_key(id) <==> old(history).history@.contains_key(id)
                    || is_listed(listed.take(i as int), id),
            forall|id: ComponentId|
                old(history).history@.contains_key(id) ==> #[trigger] history.history@[id] == old(
                    history,
                ).history@[id],
            forall|j: int|
                0 <= j < i && !old(history).history@.contains_key(listed[j].0) ==> first_value(
                    history.history@[listed[j].0]@,
                    *#[trigger] values@[j],
                    t,
                    frames,
                ),
        decreases listed.len() - i,
    {
        let (component_id, registry_index): (ComponentId, usize) = entry.predicted[i];
        let ghost before = history.history;
        proof {
            assert(listed[i as int].0 == component_id);
        }
        if !history.history.contains_key(&component_id) {
            let component = &registry.components[registry_index];
            let mut comp_hist: ComponentHistory<T> = ComponentHistory::from_component(
                component,
                size,
            );
            let copy = component.store(values[i]);
            let ghost written = copy;
            comp_hist.write(t, copy);
            let ghost stored = comp_hist@;
            proof {
                assert(stored == Records::<T>::fresh(size as int).written(t as int, written));
                assert(first_value(stored, *values@[i as int], t, frames));
            }
            history.history.insert(component_id, comp_hist);
        }
        proof {
            assert forall|id: ComponentId| #[trigger]
                history.history@.contains_key(id) <==> old(history).history@.contains_key(id)
                    || is_listed(listed.take(i + 1), id) by {
                listed_next(listed, i as int, id);
            }
            assert forall|j: int|
                0 <= j < i + 1 && !old(history).history@.contains_key(
                    listed[j].0,
                ) implies first_value(
                history.history@[listed[j].0]@,
                *#[trigger] values@[j],
                t,
                frames,
            ) by {
                if j < i {
                    assert(listed[j].0 != listed[i as int].0);
                    assert(is_listed(listed.take(i as int), listed[j].0)) by {
                        assert(listed.take(i as int)[j].0 == listed[j].0);
                    }
                    assert(before@.contains_key(listed[j].0));
                } else {
                    assert(!is_listed(listed.take(i as int), component_id)) by {
                        assert forall|k: int| 0 <= k < i implies (#[trigger] listed.take(
                            i as int,
                        )[k]).0 != component_id by {
                            assert(listed[k].0 != listed[i as int].0);
                        }
                    }
                }
            }
        }
        i = i + 1;
    }
    proof {
        assert(listed.take(listed.len() as int) =~= listed);
    }
}

/// A history of a clone of one value, at one tick.
pub open spec fn first_value<T: Clone>(
    r: Records<T>,
    value: T,
    t: u32,
    frames: RollbackFrames,
) -> bool {
    exists|copy: T|
        cloned(value, copy) && r == #[trigger] Records::<T>::fresh(frames@ + 2).written(
            t as int,
            copy,
        )
}

/// A removal is read back: once an entity was stored at a tick without a component of which anything
/// was recorded before, or of which nothing is recorded at all up to then, the component counts as
/// removed at that tick, and loading it removes the component.
pub proof fn removal_is_read<T>(r: Records<T>, t: u32, x: int)
    requires
        r.valid(),
        0 <= x < t,
        r.at(x) !is Missing || (r.tidy() && r.last < t && forall|y: int| (#[trigger] r.at(y)) is Missing),
        r.capacity == 1 && r.slots.len() == 1 ==> t <= r.last,
        r.slots.len() > 0 ==> r.last - t < r.capacity,
    ensures
        left_behind(r, t).at(t as int) == TickData::<T>::Removed,
        left_behind(r, t).latest(t as int) == TickData::<T>::Removed,
        super::load::rewound(TickData::Missing, left_behind(r, t).latest(t as int), false) is Remove,
{
    if r.at(x) is Missing {
        super::records::last_below_spec(r.known(), 64);
        assert forall|a: int| !r.known().contains(a) by {
            assert(r.at(r.last - a) is Missing);
        }
    } else if x < r.first() {
        laws::nothing_before_first(r, x);
    }
    laws::marked_is_read(r, t as int);
    let after = r.marked(t as int);
    let ago = after.ago(t as int);
    assert(after.removed.contains(ago));
    super::records::first_from_spec(after.items(), ago);
}

/// What is recorded of a component at other ticks stays when its removal is recorded, where the tick
/// lies in the window.
pub proof fn removal_leaves_others<T>(r: Records<T>, t: u32, x: int)
    requires
        r.valid(),
        r.tidy(),
        r.slots.len() > 0,
        t <= r.last,
        x != t,
    ensures
        left_behind(r, t).at(x) == r.at(x),
{
    laws::mark_leaves_others(r, t as int, x);
}

/// A component that is only recorded for the tick that is stored or later ones is left alone.
pub proof fn later_records_stay<T>(r: Records<T>, t: u32, y: int)
    requires
        r.valid(),
        r.tidy(),
        r.slots.len() <= r.last + 1,
        r.at(y) !is Missing,
        forall|x: int| 0 <= x < t ==> (#[trigger] r.at(x)) is Missing,
    ensures
        left_behind(r, t) == r,
{
    laws::first_is_recorded(r, y);
    if r.first() < t {
        assert(r.at(r.first()) is Missing);
    }
}

/// A value that was stored is recorded at its tick, or is equal to what was latest on the tick before
/// and changes nothing; a component that was not changed is left alone. The tick lies in what the
/// window can hold, and is not marked as removed.
pub proof fn stored_is_recorded<T: Clone + PartialEq>(
    before: Records<T>,
    after: Records<T>,
    value: Option<&T>,
    keeps: spec_fn(T) -> T,
    t: u32,
)
    requires
        before.valid(),
        before.capacity == 1 && before.slots.len() == 1 ==> t <= before.last,
        before.slots.len() > 0 && t <= before.last ==> before.last - t < before.capacity
            && !before.removed.contains(before.last - t),
        stores(before, after, value, keeps, t),
    ensures
        value is None ==> after == before,
        value matches Some(v) ==> {
            ||| exists|copy: T|
                cloned(*v, copy) && after.at(t as int) == TickData::Value(#[trigger] keeps(copy))
            ||| {
                &&& after == before
                &&& t > 0
                &&& before.latest(t - 1) matches TickData::Value(prev) && (<
                    T as PartialEqSpec
                >::obeys_eq_spec() ==> PartialEqSpec::eq_spec(&prev, v))
            }
            ||| {
                &&& after == before
                &&& t == 0
                &&& before.latest(0) matches TickData::Value(prev) && (<
                    T as PartialEqSpec
                >::obeys_eq_spec() ==> PartialEqSpec::eq_spec(&prev, v))
            }
        },
        <T as PartialEqSpec>::obeys_eq_spec() && t > 0 ==> (value matches Some(v) ==> (before.latest(
            t - 1,
        ) matches TickData::Value(prev) ==> (PartialEqSpec::eq_spec(&prev, v) ==> after
            == before))),
{
    if let Some(v) = value {
        if !(after == before) {
            let copy = choose|copy: T|
                cloned(*v, copy) && after == before.written(t as int, #[trigger] keeps(copy));
            laws::written_is_read(before, t as int, keeps(copy));
            assert(cloned(*v, copy) && after.at(t as int) == TickData::Value(keeps(copy)));
        } else if !(before.latest(super::load::tick_before(t) as int) is Value) {
            let copy = choose|copy: T|
                cloned(*v, copy) && after == before.written(t as int, #[trigger] keeps(copy));
            laws::written_is_read(before, t as int, keeps(copy));
        } else {
            let last = before.latest(super::load::tick_before(t) as int);
            let prev = last->Value_0;
            if <T as PartialEqSpec>::obeys_eq_spec() && !PartialEqSpec::eq_spec(&prev, v) {
                let copy = choose|copy: T|
                    cloned(*v, copy) && after == before.written(t as int, #[trigger] keeps(copy));
                laws::written_is_read(before, t as int, keeps(copy));
                assert(cloned(*v, copy) && after.at(t as int) == TickData::Value(keeps(copy)));
            }
        }
    }
}

/// The first value of a component is read at its tick and at all later ones, and nothing is at any
/// other tick. The history holds two ticks more than the frames.
pub proof fn first_value_is_read<T: Clone>(
    r: Records<T>,
    value: T,
    t: u32,
    frames: RollbackFrames,
    x: int,
)
    requires
        first_value(r, value, t, frames),
        0 <= frames@ <= 60,
    ensures
        r.capacity == frames@ + 2,
        r.at(t as int) matches TickData::Value(copy) && cloned(value, copy),
        x >= t ==> r.latest(x) == r.at(t as int),
        x != t ==> r.at(x) is Missing,
        x < t ==> r.latest(x) is Missing,
{
    let copy = choose|copy: T|
        cloned(value, copy) && r == #[trigger] Records::<T>::fresh(frames@ + 2).written(
            t as int,
            copy,
        );
    let fresh = Records::<T>::fresh(frames@ + 2);
    laws::written_is_read(fresh, t as int, copy);
    assert(r.slots =~= seq![Some(copy)]);
    assert(r.removed =~= Set::<int>::empty());
    assert(r.items().contains(0));
    super::records::first_from_spec(r.removed, 0);
}

/// The registered components of an archetype are listed with where they are registered, and no others.
pub proof fn registered_are_listed(
    ids: Map<usize, usize>,
    components: Seq<ComponentId>,
    id: ComponentId,
    place: usize,
)
    ensures
        registered(ids, components).contains((id, place)) <==> components.contains(id)
            && ids.contains_key(id) && ids[id] == place,
    decreases components.len(),
{
    let all = registered(ids, components);
    if components.len() > 0 {
        let front = components.drop_last();
        let listed = registered(ids, front);
        registered_are_listed(ids, front, id, place);
        if listed.contains((id, place)) {
            let i = choose|i: int| 0 <= i < listed.len() && listed[i] == (id, place);
            assert(all[i] == (id, place));
            let j = choose|j: int| 0 <= j < front.len() && front[j] == id;
            assert(components[j] == id);
        }
        if components.contains(id) && ids.contains_key(id) && ids[id] == place {
            let j = choose|j: int| 0 <= j < components.len() && components[j] == id;
            if j < front.len() {
                assert(front[j] == id);
            } else {
                assert(all[all.len() - 1] == (id, place));
            }
        }
        if all.contains((id, place)) {
            let i = choose|i: int| 0 <= i < all.len() && all[i] == (id, place);
            if i < listed.len() {
                assert(listed[i] == (id, place));
            } else {
                assert(components[components.len() - 1] == id);
            }
        }
    }
}

/// The entities of an archetype are stored exactly where they are predicted, have a history, and the
/// archetype was added; those with and those without registered components are told apart.
pub proof fn archetypes_are_told_apart(
    archetypes: Seq<Archetype>,
    predicted_id: ComponentId,
    history_id: ComponentId,
    ids: Map<usize, usize>,
    a: Archetype,
)
    requires
        archetypes.contains(a),
    ensures
        ({
            let stored = a.components@.contains(predicted_id) && a.components@.contains(history_id);
            let some = exists|id: ComponentId|
                a.components@.contains(id) && #[trigger] ids.contains_key(id);
            let with = with_components(archetypes, predicted_id, history_id, ids);
            let without = without_components(archetypes, predicted_id, history_id, ids);
            &&& with.contains(a) <==> stored && some
            &&& without.contains(a) <==> stored && !some
        }),
{
    let f = |a: Archetype|
        is_stored(a, predicted_id, history_id) && registered(ids, a.components@).len() > 0;
    let g = |a: Archetype|
        is_stored(a, predicted_id, history_id) && registered(ids, a.components@).len() == 0;
    let k = choose|k: int| 0 <= k < archetypes.len() && archetypes[k] == a;
    if f(a) {
        archetypes.lemma_filter_contains(f, k);
    }
    if g(a) {
        archetypes.lemma_filter_contains(g, k);
    }
    if archetypes.filter(f).contains(a) {
        let i = choose|i: int|
            0 <= i < archetypes.filter(f).len() && archetypes.filter(f)[i] == a;
        archetypes.lemma_filter_pred(f, i);
    }
    if archetypes.filter(g).contains(a) {
        let i = choose|i: int|
            0 <= i < archetypes.filter(g).len() && archetypes.filter(g)[i] == a;
        archetypes.lemma_filter_pred(g, i);
    }
    let listed = registered(ids, a.components@);
    if listed.len() > 0 {
        let (id, place) = listed[0];
        assert(listed.contains((id, place)));
        registered_are_listed(ids, a.components@, id, place);
        assert(a.components@.contains(id) && ids.contains_key(id));
    }
    if exists|id: ComponentId| a.components@.contains(id) && #[trigger] ids.contains_key(id) {
        let id = choose|id: ComponentId|
            a.components@.contains(id) && #[trigger] ids.contains_key(id);
        registered_are_listed(ids, a.components@, id, ids[id]);
        assert(listed.contains((id, ids[id])));
    }
}

/// A component that is stored for the first time gets a history of two ticks more than the frames,
/// without any record; one that has a history keeps it.
pub proof fn new_components_start_empty<T>(
    history: Map<ComponentId, ComponentHistory<T>>,
    id: ComponentId,
    frames: RollbackFrames,
    x: int,
)
    ensures
        !history.contains_key(id) ==> {
            let r = base(history, id, frames);
            &&& r.capacity == frames@ + 2
            &&& r.slots.len() == 0
            &&& r.at(x) is Missing
            &&& r.latest(x) is Missing
        },
        history.contains_key(id) ==> base(history, id, frames) == history[id]@,
{
}

/// An entry lists the registered components of its archetype, each with where it is registered, and no
/// others, with rising ids.
pub proof fn entries_list_registered(
    entry: ArchetypeEntry,
    archetype: Archetype,
    ids: Map<usize, usize>,
    id: ComponentId,
    place: usize,
    i: int,
    j: int,
)
    requires
        enters(entry, archetype, ids),
    ensures
        entry.id == archetype.id,
        entry.predicted@.contains((id, place)) <==> archetype.components@.contains(id)
            && ids.contains_key(id) && ids[id] == place,
        0 <= i < j < entry.predicted@.len() ==> entry.predicted@[i].0 <= entry.predicted@[j].0,
        entry.predicted@.len() <= archetype.components@.len(),
{
    let listed = registered(ids, archetype.components@);
    broadcast use vstd::seq_lib::group_to_multiset_ensures;

    registered_are_listed(ids, archetype.components@, id, place);
    assert(entry.predicted@.to_multiset().count((id, place)) == listed.to_multiset().count(
        (id, place),
    ));
    assert(entry.predicted@.to_multiset().len() == listed.to_multiset().len());
    no_more_are_registered(ids, archetype.components@);
}

proof fn no_more_are_registered(ids: Map<usize, usize>, components: Seq<ComponentId>)
    ensures
        registered(ids, components).len() <= components.len(),
    decreases components.len(),
{
    if components.len() > 0 {
        no_more_are_registered(ids, components.drop_last());
    }
}

/// A component is listed where it is, wherever it is registered.
pub proof fn listed_at_some_place(predicted: Seq<(ComponentId, usize)>, id: ComponentId)
    ensures
        is_listed(predicted, id) <==> exists|place: usize| #[trigger] predicted.contains((id, place)),
{
    if is_listed(predicted, id) {
        let i = choose|i: int| 0 <= i < predicted.len() && (#[trigger] predicted[i]).0 == id;
        assert(predicted.contains((id, predicted[i].1)));
    }
    if exists|place: usize| #[trigger] predicted.contains((id, place)) {
        let place = choose|place: usize| #[trigger] predicted.contains((id, place));
        let i = choose|i: int| 0 <= i < predicted.len() && predicted[i] == (id, place);
        assert(predicted[i].0 == id);
    }
}

/// A value with bytes is kept as it is, and so is the first value of a component.
pub proof fn values_are_kept<T>(
    history: Map<ComponentId, ComponentHistory<T>>,
    id: ComponentId,
    value: T,
)
    ensures
        !history.contains_key(id) || history[id].list.items.layout.size > 0 ==> kept(history, id)(
            value,
        ) == value,
{
}

/// Recording a removal at a later tick leaves what was recorded and what was latest at the ticks that stay
/// in the window.
pub proof fn removal_keeps_the_past<T>(r: Records<T>, t: u32, x: int)
    requires
        r.valid(),
        r.tidy(),
        r.disjoint(),
        2 <= r.capacity < 64,
        r.slots.len() > 0,
        0 <= r.last < t,
        t - r.capacity < x < t,
    ensures
        x > t - r.capacity + 1 ==> left_behind(r, t).at(x) == r.at(x),
        left_behind(r, t).latest(x) == r.latest(x),
{
    if r.first() < t {
        if x > t - r.capacity + 1 {
            laws::moving_on_leaves_records(r, t as int, arbitrary::<T>(), x);
        }
        laws::later_ticks_keep_latest(r, t as int, arbitrary::<T>(), x);
    }
}

/// Storing a value leaves what is recorded at all other ticks that stay in the window.
pub proof fn stored_leaves_others<T: Clone + PartialEq>(
    before: Records<T>,
    after: Records<T>,
    value: Option<&T>,
    keeps: spec_fn(T) -> T,
    t: u32,
    x: int,
)
    requires
        before.valid(),
        before.tidy(),
        before.capacity >= 2,
        before.slots.len() > 0,
        x != t,
        t > before.last ==> t - before.capacity + 1 < x,
        stores(before, after, value, keeps, t),
    ensures
        after.capacity == before.capacity,
        t <= before.last || x < t ==> after.at(x) == before.at(x),
        t > before.last && x > t ==> after.at(x) is Missing,
{
    if after != before {
        let copy = choose|copy: T|
            cloned(*value->0, copy) && after == before.written(t as int, #[trigger] keeps(copy));
        if t <= before.last {
            laws::write_leaves_others(before, t as int, keeps(copy), x);
        } else if x < t {
            laws::moving_on_leaves_records(before, t as int, keeps(copy), x);
        }
    }
}

} // verus!
