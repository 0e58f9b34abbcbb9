//! Loading the state of an earlier tick.
use super::authoritative::AuthoritativeHistory;
use super::batch;
use super::batch::{InsertBatch, RemoveBatch};
use super::component::HistoryComponent;
use super::component_history::ComponentHistory;
use super::confirmed::ConfirmedInputHorizon;
use super::entity_history::EntityHistory;
use super::laws;
use super::predicted;
use super::predicted::PredictedHistory;
use super::records;
use super::records::Records;
use super::registry::RollbackRegistry;
use super::tick_data::TickData;
use crate::component_index::ComponentId;
use crate::confirmations;
use crate::layout::Layout;
use crate::rollback::LoadFrom;
use crate::tick;
use crate::tick::RepliconTick;

use bevy_replicon::client::confirm_history::ConfirmHistory;
use bevy_replicon::client::server_mutate_ticks::ServerMutateTicks;

use vstd::prelude::*;
use vstd::std_specs::cmp::PartialEqSpec;

verus! {

/// What is done to a component when a tick is loaded.
pub enum Load<T> {
    /// It gets a clone of this value
    Insert(T),
    /// It is removed
    Remove,
    /// It stays as it is
    Keep,
}

/// Past the input horizon the authority is a guess.
pub open spec fn beyond(horizon: Option<&ConfirmedInputHorizon>, t: u32) -> bool {
    horizon matches Some(h) && t > h.0
}

/// What the authority says of a component at a tick: its latest record there, if a tick from
/// there up to its next record was received.
pub open spec fn authority<T>(
    r: Records<T>,
    confirm: ConfirmHistory,
    global: ServerMutateTicks,
    t: u32,
) -> TickData<T> {
    let end = (t + r.empty_after(t as int)) as u32;
    if confirmations::known_in(confirm, global, t, end) {
        r.latest(t as int)
    } else {
        TickData::Missing
    }
}

/// What the authority says of any component at a tick.
pub open spec fn authority_on<T>(
    authoritative: Option<(&AuthoritativeHistory<T>, &ConfirmHistory)>,
    horizon: Option<&ConfirmedInputHorizon>,
    global: ServerMutateTicks,
    t: u32,
    id: ComponentId,
) -> TickData<T> {
    match authoritative {
        Some((auth, confirm)) if !beyond(horizon, t) && auth.components@.contains_key(id) =>
            authority(auth.components@[id]@, *confirm, global, t),
        _ => TickData::Missing,
    }
}

/// The ticks that are looked at for a record's confirmation can be counted.
pub open spec fn countable<T>(components: EntityHistory<T>, t: u32) -> bool {
    forall|i: int|
        0 <= i < components.entries@.len() ==> t + (
        #[trigger] components.entries@[i]).1@.empty_after(t as int) <= u32::MAX
}

/// The ticks that are looked at for the confirmation of what is recorded of some components can be
/// counted.
pub open spec fn countable_for<T>(
    entries: Seq<(ComponentId, ComponentHistory<T>)>,
    components: EntityHistory<T>,
    t: u32,
) -> bool {
    forall|i: int|
        0 <= i < entries.len() && components@.contains_key((#[trigger] entries[i]).0) ==> t
            + components@[entries[i].0]@.empty_after(t as int) <= u32::MAX
}

/// What is done to a predicted component: the authority goes before the prediction. Disabled
/// entities keep their components.
pub open spec fn rewound<T>(auth: TickData<T>, pred: TickData<T>, disabled: bool) -> Load<T> {
    match (auth, pred) {
        (TickData::Value(value), _) => Load::Insert(value),
        (TickData::Missing, TickData::Value(value)) => Load::Insert(value),
        _ => if disabled {
            Load::Keep
        } else {
            Load::Remove
        },
    }
}

/// What is left of a predicted component's history: nothing after the loaded tick. A component
/// that is known from a later tick only keeps its first value.
pub open spec fn rewound_history<T>(
    r: Records<T>,
    auth: TickData<T>,
    disabled: bool,
    t: u32,
) -> Records<T> {
    if auth is Missing && r.latest(t as int) is Missing && !disabled {
        r.first_kept()
    } else {
        r.cleaned(t as int)
    }
}

/// The ids of the components that are inserted.
pub open spec fn insert_ids<T>(loads: Seq<(ComponentId, Load<T>)>) -> Seq<ComponentId>
    decreases loads.len(),
{
    if loads.len() == 0 {
        Seq::empty()
    } else {
        let front = insert_ids(loads.drop_last());
        match loads.last().1 {
            Load::Insert(_) => front.push(loads.last().0),
            _ => front,
        }
    }
}

/// The ids of the components that are removed.
pub open spec fn remove_ids<T>(loads: Seq<(ComponentId, Load<T>)>) -> Seq<ComponentId>
    decreases loads.len(),
{
    if loads.len() == 0 {
        Seq::empty()
    } else {
        let front = remove_ids(loads.drop_last());
        match loads.last().1 {
            Load::Remove => front.push(loads.last().0),
            _ => front,
        }
    }
}

/// The values with bytes that are inserted, with their layouts.
pub open spec fn insert_values<T, W>(
    registry: RollbackRegistry<W>,
    loads: Seq<(ComponentId, Load<T>)>,
) -> Seq<(Layout, T)>
    decreases loads.len(),
{
    if loads.len() == 0 {
        Seq::empty()
    } else {
        let front = insert_values(registry, loads.drop_last());
        let layout = registry.layout(loads.last().0);
        match loads.last().1 {
            Load::Insert(value) if layout.size > 0 => front.push((layout, value)),
            _ => front,
        }
    }
}

/// The layouts of the values.
pub open spec fn layouts<T>(values: Seq<(Layout, T)>) -> Seq<Layout> {
    values.map_values(|v: (Layout, T)| v.0)
}

/// A batch inserts clones of what is to be loaded, laid out one after the other.
pub open spec fn inserts<T: Clone, W>(
    insert_batch: InsertBatch<T>,
    registry: RollbackRegistry<W>,
    loads: Seq<(ComponentId, Load<T>)>,
) -> bool {
    let values = insert_values(registry, loads);
    &&& insert_batch.ids@ == insert_ids(loads)
    &&& insert_batch.laid_out(layouts(values))
    &&& forall|i: int|
        0 <= i < values.len() ==> cloned(values[i].1, #[trigger] insert_batch.values@[i])
}

/// The room that the values of some components take at most.
pub open spec fn room_for<T, W>(
    registry: RollbackRegistry<W>,
    entries: Seq<(ComponentId, ComponentHistory<T>)>,
    n: int,
) -> int
    decreases n,
{
    if n <= 0 {
        0
    } else {
        let layout = registry.layout(entries[n - 1].0);
        room_for(registry, entries, n - 1) + layout.size + layout.align
    }
}

proof fn room_grows<T, W>(
    registry: RollbackRegistry<W>,
    entries: Seq<(ComponentId, ComponentHistory<T>)>,
    n: int,
    m: int,
)
    requires
        n <= m,
    ensures
        room_for(registry, entries, n) <= room_for(registry, entries, m),
    decreases m - n,
{
    if n < m {
        room_grows(registry, entries, n, m - 1);
    }
}

/// The components of an entity can be loaded: they are registered, and there is room for their
/// values.
pub open spec fn loadable<T, W>(
    registry: RollbackRegistry<W>,
    entries: Seq<(ComponentId, ComponentHistory<T>)>,
) -> bool {
    &&& registry.wf()
    &&& forall|i: int|
        0 <= i < entries.len() ==> registry.ids@.contains_key((#[trigger] entries[i]).0)
    &&& room_for(registry, entries, entries.len() as int) <= usize::MAX
}

/// What is done to each predicted component of an entity.
pub open spec fn rewinds<T>(
    entries: Seq<(ComponentId, ComponentHistory<T>)>,
    authority: spec_fn(ComponentId) -> TickData<T>,
    disabled: bool,
    t: u32,
) -> Seq<(ComponentId, Load<T>)> {
    Seq::new(
        entries.len(),
        |i: int|
            (entries[i].0, rewound(authority(entries[i].0), entries[i].1@.latest(t as int), disabled)),
    )
}

/// The number of empty ticks is at most 64.
pub proof fn empty_after_bounds<T>(r: Records<T>, t: int)
    requires
        r.valid(),
    ensures
        0 <= r.empty_after(t) <= 64,
{
    if r.slots.len() > 0 && t < r.last {
        let ago = if r.last - t < r.slots.len() {
            r.last - t
        } else {
            r.slots.len() - 1
        };
        super::records::last_below_spec(r.known(), ago);
    }
}

/// What the authority says of a component at a tick.
pub fn authority_at<'a, T>(
    auth_hist: &'a ComponentHistory<T>,
    confirm: &ConfirmHistory,
    global: &ServerMutateTicks,
    t: u32,
) -> (r: TickData<&'a T>)
    requires
        auth_hist.wf(),
        t + auth_hist@.empty_after(t as int) <= u32::MAX,
    ensures
        r == authority(auth_hist@, *confirm, *global, t).by_ref(),
{
    let check_range: u32 = auth_hist.empty_after(t);
    proof {
        auth_hist.view_is_valid();
        empty_after_bounds(auth_hist@, t as int);
    }
    let end_tick: u32 = t + check_range;
    if confirmations::is_known_in(confirm, global, t, end_tick) {
        auth_hist.get_latest(t)
    } else {
        TickData::Missing
    }
}

/// Add a component to the batch.
fn push_insert<T: Clone, W>(
    insert_batch: &mut InsertBatch<T>,
    registry: &RollbackRegistry<W>,
    id: ComponentId,
    component: &HistoryComponent<W>,
    value: T,
    loads: Ghost<Seq<(ComponentId, Load<T>)>>,
    source: Ghost<T>,
    room: Ghost<int>,
)
    requires
        registry.wf(),
        registry.ids@.contains_key(id),
        *component == registry.component(id),
        cloned(source@, value),
        inserts(*old(insert_batch), *registry, loads@),
        old(insert_batch).bytes <= room@,
        room@ + registry.layout(id).size + registry.layout(id).align <= usize::MAX,
    ensures
        inserts(*final(insert_batch), *registry, loads@.push((id, Load::Insert(source@)))),
        final(insert_batch).bytes <= room@ + registry.layout(id).size + registry.layout(id).align,
{
    let ghost before = *insert_batch;
    proof {
        batch::padding_steps(insert_batch.bytes as int, component.layout.align as int);
    }
    insert_batch.push(id, component, value);
    proof {
        let all = loads@.push((id, Load::Insert(source@)));
        assert(all.drop_last() =~= loads@);
        let values = insert_values(*registry, loads@);
        if component.layout.size > 0 {
            InsertBatch::pushed_layout(before, *insert_batch, layouts(values), component.layout);
            assert(layouts(values.push((component.layout, source@))) =~= layouts(values).push(
                component.layout,
            ));
        } else {
            assert(insert_batch.laid_out(layouts(values)));
        }
    }
}

/// Load a predicted entity at a tick: the components of the entity that are inserted and removed.
/// What was predicted for later ticks is dropped.
pub fn load_and_clear_prediction<T: Clone, W>(
    predicted: &mut PredictedHistory<T>,
    authoritative: Option<(&AuthoritativeHistory<T>, &ConfirmHistory)>,
    horizon: Option<&ConfirmedInputHorizon>,
    is_disabled: bool,
    registry: &RollbackRegistry<W>,
    previous_tick: &LoadFrom,
    global_confirm: &ServerMutateTicks,
) -> (r: (InsertBatch<T>, RemoveBatch))
    requires
        old(predicted).wf(),
        loadable(*registry, old(predicted).history.entries@),
        authoritative matches Some((auth, _)) ==> auth.wf() && (beyond(
            horizon,
            previous_tick.0.0,
        ) || countable_for(
            old(predicted).history.entries@,
            auth.components,
            previous_tick.0.0,
        )),
    ensures
        final(predicted).wf(),
        final(predicted).last_archetype == old(predicted).last_archetype,
        final(predicted).history.entries@.len() == old(predicted).history.entries@.len(),
        ({
            let t = previous_tick.0.0;
            let entries = old(predicted).history.entries@;
            let says = |id: ComponentId|
                authority_on(authoritative, horizon, *global_confirm, t, id);
            let loads = rewinds(entries, says, is_disabled, t);
            &&& inserts(r.0, *registry, loads)
            &&& r.1.ids@ == remove_ids(loads)
            &&& forall|i: int|
                0 <= i < entries.len() ==> {
                    let entry = #[trigger] final(predicted).history.entries@[i];
                    &&& entry.0 == entries[i].0
                    &&& entry.1@ == rewound_history(
                        entries[i].1@,
                        says(entry.0),
                        is_disabled,
                        t,
                    )
                }
        }),
{
    let ghost entries = predicted.history.entries@;
    let t: u32 = previous_tick.get();
    let ghost says = |id: ComponentId|
        authority_on(authoritative, horizon, *global_confirm, t, id);
    let ghost loads = rewinds(entries, says, is_disabled, t);
    let mut insert_batch: InsertBatch<T> = InsertBatch::new();
    let mut removes = RemoveBatch::new();
    let beyond_horizon: bool = match horizon {
        Some(h) => t > h.0,
        None => false,
    };
    let mut i: usize = 0;
    proof {
        assert(loads.take(0) =~= Seq::empty());
        assert(layouts(insert_values(*registry, loads.take(0))) =~= Seq::empty());
    }
    while i < predicted.history.entries.len()
        invariant
            i <= entries.len(),
            predicted.wf(),
            predicted.last_archetype == old(predicted).last_archetype,
            predicted.history.entries@.len() == entries.len(),
            t == previous_tick.0.0,
            beyond_horizon == beyond(horizon, t),
            says == (|id: ComponentId|
                authority_on(authoritative, horizon, *global_confirm, t, id)),
            loads == rewinds(entries, says, is_disabled, t),
            loadable(*registry, entries),
            authoritative matches Some((auth, _)) ==> auth.wf() && (beyond_horizon
                || countable_for(entries, auth.components, t)),
            inserts(insert_batch, *registry, loads.take(i as int)),
            insert_batch.bytes <= room_for(*registry, entries, i as int),
            removes.ids@ == remove_ids(loads.take(i as int)),
            forall|j: int|
                i <= j < entries.len() ==> predicted.history.entries@[j] == #[trigger] entries[j],
            forall|j: int|
                0 <= j < i ==> {
                    let entry = #[trigger] predicted.history.entries@[j];
                    &&& entry.0 == entries[j].0
                    &&& entry.1@ == rewound_history(
                        entries[j].1@,
                        says(entry.0),
                        is_disabled,
                        t,
                    )
                },
        decreases entries.len() - i,
    {
        let ghost before = predicted.history;
        proof {
            let entry = entries[i as int];
            assert(predicted.history.entries@[i as int] == entry);
            room_grows(*registry, entries, i + 1, entries.len() as int);
            assert(loads.take(i + 1) =~= loads.take(i as int).push(loads[i as int]));
            assert(loads.take(i + 1).drop_last() =~= loads.take(i as int));
        }
        let comp_id: ComponentId = predicted.history.entries[i].0;
        let component = match registry.get(&comp_id) {
            Some(component) => component,
            None => vstd::pervasive::unreached(),
        };
        let auth: TickData<&T> = if beyond_horizon {
            TickData::Missing
        } else {
            match authoritative {
                Some((authoritative, confirmed)) => {
                    proof {
                        authoritative.components.entry_of(comp_id);
                    }
                    match authoritative.get(&comp_id) {
                        Some(auth_hist) => authority_at(auth_hist, confirmed, global_confirm, t),
                        None => TickData::Missing,
                    }
                },
                None => TickData::Missing,
            }
        };
        proof {
            assert(auth == says(comp_id).by_ref());
        }
        let entry = &mut predicted.history.entries[i];
        let mut keep_first: bool = false;
        match (auth, entry.1.get_latest(t)) {
            (TickData::Removed, _) | (TickData::Missing, TickData::Removed) => {
                if !is_disabled {
                    removes.push(comp_id);
                }
            },
            (TickData::Missing, TickData::Missing) => {
                if !is_disabled {
                    removes.push(comp_id);
                    keep_first = true;
                }
            },
            (auth, pred) => {
                let source: Option<&T> = auth.value();
                let fallback: Option<&T> = pred.value();
                let value = component.load_to_uninit(source, fallback);
                push_insert(
                    &mut insert_batch,
                    registry,
                    comp_id,
                    component,
                    value,
                    Ghost(loads.take(i as int)),
                    Ghost(
                        match source {
                            Some(value) => *value,
                            None => *fallback->0,
                        },
                    ),
                    Ghost(room_for(*registry, entries, i as int)),
                );
            },
        }
        if keep_first {
            entry.1.keep_first_item();
        } else {
            entry.1.clean(t);
        }
        i = i + 1;
        proof {
            let now = predicted.history.entries@[i - 1];
            EntityHistory::replaced(before, predicted.history, comp_id, now.1);
        }
    }
    proof {
        assert(loads.take(entries.len() as int) =~= loads);
    }
    (insert_batch, removes)
}

/// What is done to a component that the authority speaks of.
pub open spec fn corrected<T>(auth: TickData<T>) -> Load<T> {
    match auth {
        TickData::Value(value) => Load::Insert(value),
        TickData::Removed => Load::Remove,
        TickData::Missing => Load::Keep,
    }
}

/// What is done to each component that the authority speaks of.
pub open spec fn corrections<T>(
    entries: Seq<(ComponentId, ComponentHistory<T>)>,
    confirm: ConfirmHistory,
    horizon: Option<&ConfirmedInputHorizon>,
    global: ServerMutateTicks,
    t: u32,
) -> Seq<(ComponentId, Load<T>)> {
    Seq::new(
        entries.len(),
        |i: int|
            (
                entries[i].0,
                corrected(
                    if beyond(horizon, t) {
                        TickData::Missing
                    } else {
                        authority(entries[i].1@, confirm, global, t)
                    },
                ),
            ),
    )
}

/// Nothing is done to any component.
proof fn nothing_done<T, W>(registry: RollbackRegistry<W>, loads: Seq<(ComponentId, Load<T>)>)
    requires
        forall|i: int| 0 <= i < loads.len() ==> (#[trigger] loads[i]).1 is Keep,
    ensures
        insert_ids(loads) == Seq::<ComponentId>::empty(),
        remove_ids(loads) == Seq::<ComponentId>::empty(),
        insert_values(registry, loads) == Seq::<(Layout, T)>::empty(),
    decreases loads.len(),
{
    if loads.len() > 0 {
        let front = loads.drop_last();
        assert forall|i: int| 0 <= i < front.len() implies (#[trigger] front[i]).1 is Keep by {
            assert(loads[i].1 is Keep);
        }
        nothing_done(registry, front);
        assert(loads[loads.len() - 1].1 is Keep);
    }
}

/// Load what the authority says of an entity at a tick: the components that are inserted and
/// removed.
pub fn load_confirmed_authoritative<T: Clone, W>(
    authoritative: &AuthoritativeHistory<T>,
    confirmed: &ConfirmHistory,
    horizon: Option<&ConfirmedInputHorizon>,
    registry: &RollbackRegistry<W>,
    previous_tick: &LoadFrom,
    global_confirm: &ServerMutateTicks,
) -> (r: (InsertBatch<T>, RemoveBatch))
    requires
        authoritative.wf(),
        beyond(horizon, previous_tick.0.0) || (loadable(
            *registry,
            authoritative.components.entries@,
        ) && countable(authoritative.components, previous_tick.0.0)),
    ensures
        ({
            let loads = corrections(
                authoritative.components.entries@,
                *confirmed,
                horizon,
                *global_confirm,
                previous_tick.0.0,
            );
            &&& inserts(r.0, *registry, loads)
            &&& r.1.ids@ == remove_ids(loads)
        }),
{
    let ghost entries = authoritative.components.entries@;
    let t: u32 = previous_tick.get();
    let ghost loads = corrections(entries, *confirmed, horizon, *global_confirm, t);
    let mut insert_batch: InsertBatch<T> = InsertBatch::new();
    let mut removes = RemoveBatch::new();
    // Past the input horizon the authority is a guess; keep the prediction.
    let beyond_horizon: bool = match horizon {
        Some(h) => t > h.0,
        None => false,
    };
    if beyond_horizon {
        proof {
            nothing_done(*registry, loads);
            assert(layouts(insert_values(*registry, loads)) =~= Seq::empty());
        }
        return (insert_batch, removes);
    }
    let mut i: usize = 0;
    proof {
        assert(loads.take(0) =~= Seq::empty());
        assert(layouts(insert_values(*registry, loads.take(0))) =~= Seq::empty());
    }
    while i < authoritative.components.entries.len()
        invariant
            i <= entries.len(),
            entries == authoritative.components.entries@,
            authoritative.wf(),
            t == previous_tick.0.0,
            !beyond(horizon, t),
            loads == corrections(entries, *confirmed, horizon, *global_confirm, t),
            loadable(*registry, entries),
            countable(authoritative.components, t),
            inserts(insert_batch, *registry, loads.take(i as int)),
            insert_batch.bytes <= room_for(*registry, entries, i as int),
            removes.ids@ == remove_ids(loads.take(i as int)),
        decreases entries.len() - i,
    {
        proof {
            let entry = entries[i as int];
            room_grows(*registry, entries, i + 1, entries.len() as int);
            assert(loads.take(i + 1) =~= loads.take(i as int).push(loads[i as int]));
            assert(loads.take(i + 1).drop_last() =~= loads.take(i as int));
        }
        let entry = &authoritative.components.entries[i];
        let comp_id: ComponentId = entry.0;
        let component = match registry.get(&comp_id) {
            Some(component) => component,
            None => vstd::pervasive::unreached(),
        };
        match authority_at(&entry.1, confirmed, global_confirm, t) {
            TickData::Value(source) => {
                let value = component.load_to_uninit(Some(source), None);
                push_insert(
                    &mut insert_batch,
                    registry,
                    comp_id,
                    component,
                    value,
                    Ghost(loads.take(i as int)),
                    Ghost(*source),
                    Ghost(room_for(*registry, entries, i as int)),
                );
            },
            TickData::Removed => {
                removes.push(comp_id);
            },
            TickData::Missing => {},
        }
        i = i + 1;
    }
    proof {
        assert(loads.take(entries.len() as int) =~= loads);
    }
    (insert_batch, removes)
}

/// What is done to each predicted component that the entity lacks: it gets the value that was
/// predicted for exactly this tick.
pub open spec fn reinsertions<T>(
    entries: Seq<(ComponentId, ComponentHistory<T>)>,
    present: Seq<ComponentId>,
    t: u32,
) -> Seq<(ComponentId, Load<T>)> {
    Seq::new(
        entries.len(),
        |i: int|
            (
                entries[i].0,
                match entries[i].1@.at(t as int) {
                    TickData::Value(value) if !present.contains(entries[i].0) => Load::Insert(value),
                    _ => Load::Keep,
                },
            ),
    )
}

/// Whether an archetype has a component.
fn has_component(archetype: &[ComponentId], id: ComponentId) -> (r: bool)
    ensures
        r == archetype@.contains(id),
{
    let mut i: usize = 0;
    while i < archetype.len()
        invariant
            i <= archetype@.len(),
            forall|j: int| 0 <= j < i ==> archetype@[j] != id,
        decreases archetype@.len() - i,
    {
        if archetype[i] == id {
            return true;
        }
        i = i + 1;
    }
    false
}

/// Insert predicted components that an entity, which has the components `archetype`, lacks.
pub fn reinsert_predicted<T: Clone, W>(
    archetype: &[ComponentId],
    predicted: &PredictedHistory<T>,
    registry: &RollbackRegistry<W>,
    previous_tick: &LoadFrom,
) -> (r: InsertBatch<T>)
    requires
        predicted.wf(),
        loadable(*registry, predicted.history.entries@),
    ensures
        inserts(
            r,
            *registry,
            reinsertions(predicted.history.entries@, archetype@, previous_tick.0.0),
        ),
{
    let ghost entries = predicted.history.entries@;
    let t: u32 = previous_tick.get();
    let ghost loads = reinsertions(entries, archetype@, t);
    let mut insert_batch: InsertBatch<T> = InsertBatch::new();
    let mut i: usize = 0;
    proof {
        assert(loads.take(0) =~= Seq::empty());
        assert(layouts(insert_values(*registry, loads.take(0))) =~= Seq::empty());
    }
    while i < predicted.history.entries.len()
        invariant
            i <= entries.len(),
            entries == predicted.history.entries@,
            predicted.wf(),
            t == previous_tick.0.0,
            loads == reinsertions(entries, archetype@, t),
            loadable(*registry, entries),
            inserts(insert_batch, *registry, loads.take(i as int)),
            insert_batch.bytes <= room_for(*registry, entries, i as int),
        decreases entries.len() - i,
    {
        proof {
            let entry = entries[i as int];
            room_grows(*registry, entries, i + 1, entries.len() as int);
            assert(loads.take(i + 1) =~= loads.take(i as int).push(loads[i as int]));
            assert(loads.take(i + 1).drop_last() =~= loads.take(i as int));
        }
        let entry = &predicted.history.entries[i];
        let comp_id: ComponentId = entry.0;
        if !has_component(archetype, comp_id) {
            if let TickData::Value(source) = entry.1.get(t) {
                let component = match registry.get(&comp_id) {
                    Some(component) => component,
                    None => vstd::pervasive::unreached(),
                };
                let value = component.load_to_uninit(None, Some(source));
                push_insert(
                    &mut insert_batch,
                    registry,
                    comp_id,
                    component,
                    value,
                    Ghost(loads.take(i as int)),
                    Ghost(*source),
                    Ghost(room_for(*registry, entries, i as int)),
                );
            }
        }
        i = i + 1;
    }
    proof {
        assert(loads.take(entries.len() as int) =~= loads);
    }
    insert_batch
}

/// `r` is an answer to whether the authority and the prediction of a component differ at a tick.
/// What the authority says nothing of does not differ.
pub open spec fn differs<T: PartialEq, W: Fn(&T, &T) -> bool>(
    component: HistoryComponent<W>,
    auth: TickData<T>,
    pred: TickData<T>,
    r: bool,
) -> bool {
    match auth {
        TickData::Missing => !r,
        TickData::Removed => r == (pred is Value),
        TickData::Value(a) => match pred {
            TickData::Value(b) => component.judged(a, b, !r),
            _ => r,
        },
    }
}

/// What was predicted of a component at a tick.
pub open spec fn predicted_at<T>(pred: PredictedHistory<T>, id: ComponentId, t: u32) -> TickData<
    T,
> {
    if pred.history@.contains_key(id) {
        pred.history@[id]@.latest(t as int)
    } else {
        TickData::Missing
    }
}

/// A scan for ticks at which the authority and the prediction differ.
pub struct DivergenceScan<'a, W> {
    pub registry: &'a RollbackRegistry<W>,
    pub global_confirm: &'a ServerMutateTicks,
    /// The first tick that is scanned
    pub lo: u32,
    /// The last tick that is scanned
    pub hi: u32,
}

impl<'a, W> DivergenceScan<'a, W> {
    /// `r` is an answer to whether the authority and the prediction of the component in entry `i`
    /// differ at tick `t`.
    pub open spec fn answers<T: PartialEq>(
        &self,
        pred: PredictedHistory<T>,
        auth: AuthoritativeHistory<T>,
        confirm: ConfirmHistory,
        horizon: Option<&ConfirmedInputHorizon>,
        i: int,
        t: u32,
        r: bool,
    ) -> bool where W: Fn(&T, &T) -> bool {
        let entry = auth.components.entries@[i];
        differs(
            self.registry.component(entry.0),
            if beyond(horizon, t) {
                TickData::Missing
            } else {
                authority(entry.1@, confirm, *self.global_confirm, t)
            },
            predicted_at(pred, entry.0, t),
            r,
        )
    }

    /// The scan can be made: the components are registered, tolerances can be asked, and ticks
    /// can be counted.
    pub open spec fn can_scan<T: PartialEq>(
        &self,
        pred: PredictedHistory<T>,
        auth: AuthoritativeHistory<T>,
        horizon: Option<&ConfirmedInputHorizon>,
    ) -> bool where W: Fn(&T, &T) -> bool {
        &&& pred.wf()
        &&& auth.wf()
        &&& self.registry.wf()
        &&& forall|i: int|
            0 <= i < auth.components.entries@.len() ==> {
                let id = (#[trigger] auth.components.entries@[i]).0;
                &&& self.registry.ids@.contains_key(id)
                &&& self.registry.component(id).wf::<T>()
            }
        &&& forall|i: int, t: u32|
            0 <= i < auth.components.entries@.len() && self.lo <= t <= self.hi && !beyond(
                horizon,
                t,
            ) ==> t + #[trigger] auth.components.entries@[i].1@.empty_after(t as int) <= u32::MAX
    }

    /// `r` is an answer to whether the authority and the prediction of an entity differ anywhere in
    /// the scanned ticks.
    pub open spec fn entity_answers<T: PartialEq>(
        &self,
        pred: PredictedHistory<T>,
        auth: AuthoritativeHistory<T>,
        confirm: ConfirmHistory,
        horizon: Option<&ConfirmedInputHorizon>,
        r: bool,
    ) -> bool where W: Fn(&T, &T) -> bool {
        if r {
            exists|i: int, t: u32|
                0 <= i < auth.components.entries@.len() && self.lo <= t <= self.hi
                    && #[trigger] self.answers(pred, auth, confirm, horizon, i, t, true)
        } else {
            forall|i: int, t: u32|
                0 <= i < auth.components.entries@.len() && self.lo <= t <= self.hi
                    ==> #[trigger] self.answers(pred, auth, confirm, horizon, i, t, false)
        }
    }

    /// Whether the authority and the prediction of an entity differ anywhere in the scanned ticks.
    pub fn entity_diverged<T: PartialEq>(
        &self,
        pred: &PredictedHistory<T>,
        auth: &AuthoritativeHistory<T>,
        confirm: &ConfirmHistory,
        horizon: Option<&ConfirmedInputHorizon>,
    ) -> (r: bool) where W: Fn(&T, &T) -> bool
        requires
            self.can_scan(*pred, *auth, horizon),
        ensures
            self.entity_answers(*pred, *auth, *confirm, horizon, r),
    {
        let mut i: usize = 0;
        while i < auth.components.entries.len()
            invariant
                i <= auth.components.entries@.len(),
                self.can_scan(*pred, *auth, horizon),
                forall|j: int, t: u32|
                    0 <= j < i && self.lo <= t <= self.hi ==> #[trigger] self.answers(
                        *pred,
                        *auth,
                        *confirm,
                        horizon,
                        j,
                        t,
                        false,
                    ),
            decreases auth.components.entries@.len() - i,
        {
            let mut p: u64 = self.lo as u64;
            while p <= self.hi as u64
                invariant
                    i < auth.components.entries@.len(),
                    self.lo <= p,
                    p <= self.hi + 1 || p == self.lo,
                    self.can_scan(*pred, *auth, horizon),
                    forall|t: u32|
                        self.lo <= t <= self.hi && t < p ==> #[trigger] self.answers(
                            *pred,
                            *auth,
                            *confirm,
                            horizon,
                            i as int,
                            t,
                            false,
                        ),
                decreases self.hi + 1 - p,
            {
                if self.component_diverged(pred, auth, confirm, horizon, i, p as u32) {
                    return true;
                }
                p = p + 1;
            }
            i = i + 1;
        }
        false
    }

    /// Whether the authority and the prediction of one component differ at a tick.
    fn component_diverged<T: PartialEq>(
        &self,
        pred: &PredictedHistory<T>,
        auth: &AuthoritativeHistory<T>,
        confirm: &ConfirmHistory,
        horizon: Option<&ConfirmedInputHorizon>,
        i: usize,
        p: u32,
    ) -> (r: bool) where W: Fn(&T, &T) -> bool
        requires
            self.can_scan(*pred, *auth, horizon),
            i < auth.components.entries@.len(),
            self.lo <= p <= self.hi,
        ensures
            self.answers(*pred, *auth, *confirm, horizon, i as int, p, r),
    {
        let entry = &auth.components.entries[i];
        let comp_id: ComponentId = entry.0;
        let component = match self.registry.get(&comp_id) {
            Some(component) => component,
            None => vstd::pervasive::unreached(),
        };
        // Past the input horizon the authority is a guess, not a misprediction.
        if let Some(h) = horizon {
            if p > h.0 {
                return false;
            }
        }
        let auth_data = authority_at(&entry.1, confirm, self.global_confirm, p);
        let pred_data = match pred.get(&comp_id) {
            Some(pred_hist) => pred_hist.get_latest(p),
            None => TickData::Missing,
        };
        match auth_data {
            TickData::Missing => false,
            TickData::Removed => matches!(pred_data, TickData::Value(_)),
            TickData::Value(auth_value) => match pred_data {
                TickData::Value(pred_value) => !component.within_tolerance(auth_value, pred_value),
                _ => true,
            },
        }
    }
}

/// A predicted entity that the server speaks of.
pub struct DivergenceEntity<'a, T> {
    pub predicted: &'a PredictedHistory<T>,
    pub authoritative: &'a AuthoritativeHistory<T>,
    pub confirmed: &'a ConfirmHistory,
    pub horizon: Option<&'a ConfirmedInputHorizon>,
}

/// The tick before another; the first tick has none and stands for itself.
pub open spec fn tick_before(t: u32) -> u32 {
    if t == 0 {
        0
    } else {
        (t - 1) as u32
    }
}

/// The scan of the ticks from which a rollback to `start` loads.
pub open spec fn scan_of<'a, W>(
    registry: &'a RollbackRegistry<W>,
    global_confirm: &'a ServerMutateTicks,
    start: RepliconTick,
    real_tick: RepliconTick,
) -> DivergenceScan<'a, W> {
    DivergenceScan {
        registry,
        global_confirm,
        lo: tick_before(start.0),
        hi: tick_before(real_tick.0),
    }
}

/// All entities can be scanned.
pub open spec fn can_scan_all<'a, T: PartialEq, W: Fn(&T, &T) -> bool>(
    entities: Seq<DivergenceEntity<'a, T>>,
    scan: DivergenceScan<'a, W>,
) -> bool {
    forall|e: int|
        0 <= e < entities.len() ==> {
            let entity = #[trigger] entities[e];
            scan.can_scan(*entity.predicted, *entity.authoritative, entity.horizon)
        }
}

/// `r` is an answer to whether the scan of an entity finds a difference.
pub open spec fn entity_scanned<'a, T: PartialEq, W: Fn(&T, &T) -> bool>(
    entity: DivergenceEntity<'a, T>,
    scan: DivergenceScan<'a, W>,
    r: bool,
) -> bool {
    scan.entity_answers(
        *entity.predicted,
        *entity.authoritative,
        *entity.confirmed,
        entity.horizon,
        r,
    )
}

/// `r` is an answer to whether the scan of any entity finds a difference.
pub open spec fn scan_answers<'a, T: PartialEq, W: Fn(&T, &T) -> bool>(
    entities: Seq<DivergenceEntity<'a, T>>,
    scan: DivergenceScan<'a, W>,
    r: bool,
) -> bool {
    if r {
        exists|e: int| 0 <= e < entities.len() && #[trigger] entity_scanned(entities[e], scan, true)
    } else {
        forall|e: int|
            0 <= e < entities.len() ==> #[trigger] entity_scanned(entities[e], scan, false)
    }
}

/// Whether the authority and the prediction of a component differ at a tick has one answer: its
/// tolerance and its comparison always say the same of the same values.
pub open spec fn decided<'a, T: PartialEq, W: Fn(&T, &T) -> bool>(
    entity: DivergenceEntity<'a, T>,
    scan: DivergenceScan<'a, W>,
) -> bool {
    forall|i: int, t: u32|
        !(#[trigger] scan.answers(
            *entity.predicted,
            *entity.authoritative,
            *entity.confirmed,
            entity.horizon,
            i,
            t,
            true,
        ) && scan.answers(
            *entity.predicted,
            *entity.authoritative,
            *entity.confirmed,
            entity.horizon,
            i,
            t,
            false,
        ))
}

/// Rolling back would change the state exactly where the scan of some entity finds a difference;
/// without entities it would not.
pub proof fn changes_where_any_diverged<'a, T: PartialEq, W: Fn(&T, &T) -> bool>(
    entities: Seq<DivergenceEntity<'a, T>>,
    scan: DivergenceScan<'a, W>,
    diverged: Seq<bool>,
    r: bool,
)
    requires
        diverged.len() == entities.len(),
        forall|e: int|
            0 <= e < entities.len() ==> decided(#[trigger] entities[e], scan) && entity_scanned(
                entities[e],
                scan,
                diverged[e],
            ),
        scan_answers(entities, scan, r),
    ensures
        r <==> diverged.contains(true),
        entities.len() == 0 ==> !r,
{
    if r {
        let e = choose|e: int|
            0 <= e < entities.len() && #[trigger] entity_scanned(entities[e], scan, true);
        assert(decided(entities[e], scan));
        assert(diverged[e]);
    } else if diverged.contains(true) {
        let e = choose|e: int| 0 <= e < diverged.len() && diverged[e] == true;
        assert(decided(entities[e], scan));
        assert(entity_scanned(entities[e], scan, false));
        assert(false);
    }
}

/// Whether rolling back to `start` would change the state of any entity.
///
/// Resim of tick `t` loads at `t - 1`, so the load points span the closed range
/// `[start - 1, real_tick - 1]`.
pub fn rollback_would_change_state<'a, T: PartialEq, W: Fn(&T, &T) -> bool>(
    entities: &[DivergenceEntity<'a, T>],
    registry: &RollbackRegistry<W>,
    global_confirm: &ServerMutateTicks,
    start: RepliconTick,
    real_tick: RepliconTick,
) -> (r: bool)
    requires
        can_scan_all(entities@, scan_of(registry, global_confirm, start, real_tick)),
    ensures
        scan_answers(entities@, scan_of(registry, global_confirm, start, real_tick), r),
{
    let scan = DivergenceScan {
        registry,
        global_confirm,
        lo: start.get().saturating_sub(1),
        hi: real_tick.get().saturating_sub(1),
    };
    let mut e: usize = 0;
    while e < entities.len()
        invariant
            e <= entities@.len(),
            scan.lo == tick_before(start.0),
            scan.hi == tick_before(real_tick.0),
            scan.registry == registry,
            scan.global_confirm == global_confirm,
            forall|k: int|
                0 <= k < entities@.len() ==> {
                    let entity = #[trigger] entities@[k];
                    scan.can_scan(*entity.predicted, *entity.authoritative, entity.horizon)
                },
            forall|k: int| 0 <= k < e ==> #[trigger] entity_scanned(entities@[k], scan, false),
        decreases entities@.len() - e,
    {
        let entity = &entities[e];
        proof {
            assert(entities@[e as int] == *entity);
        }
        if scan.entity_diverged(
            entity.predicted,
            entity.authoritative,
            entity.confirmed,
            entity.horizon,
        ) {
            assert(entity_scanned(entities@[e as int], scan, true));
            return true;
        }
        e = e + 1;
    }
    false
}

/// What was stored of a component is loaded again: where nothing was recorded at the tick or after
/// it, and no authority is known, loading the tick gives a clone of the stored value, or the
/// earlier value that it was equal to.
pub proof fn stored_is_loaded<T: Clone + PartialEq>(
    before: Records<T>,
    after: Records<T>,
    value: T,
    keeps: spec_fn(T) -> T,
    t: u32,
    disabled: bool,
)
    requires
        before.valid(),
        before.capacity == 1 ==> before.slots.len() == 0,
        before.slots.len() > 0 ==> 0 <= before.last < t,
        predicted::stores(before, after, Some(&value), keeps, t),
    ensures
        rewound(TickData::Missing, after.latest(t as int), disabled) matches Load::Insert(loaded) && {
            ||| exists|copy: T| cloned(value, copy) && loaded == #[trigger] keeps(copy)
            ||| <T as PartialEqSpec>::obeys_eq_spec() ==> PartialEqSpec::eq_spec(&loaded, &value)
        },
{
    let last = before.latest(tick_before(t) as int);
    if after == before && last is Value {
        assert(after.latest(t as int) == last);
    } else {
        let copy = choose|copy: T|
            cloned(value, copy) && after == before.written(t as int, #[trigger] keeps(copy));
        laws::written_is_read(before, t as int, keeps(copy));
        assert(after.last == t);
        records::first_from_spec(after.items(), 0);
        records::first_from_spec(after.removed, 0);
        assert(after.items().contains(0));
        assert(after.latest(t as int) == TickData::Value(keeps(copy)));
    }
}

/// A scan that finds no difference lets nothing slip: whatever tick of it is loaded, a component
/// that was predicted gets the predicted value or one within tolerance of it, and a component that
/// was predicted to be absent is removed.
pub proof fn no_difference_no_change<'a, T: PartialEq, W: Fn(&T, &T) -> bool>(
    entities: Seq<DivergenceEntity<'a, T>>,
    scan: DivergenceScan<'a, W>,
    e: int,
    i: int,
    t: u32,
)
    requires
        can_scan_all(entities, scan),
        scan_answers(entities, scan, false),
        0 <= e < entities.len(),
        0 <= i < entities[e].authoritative.components.entries@.len(),
        scan.lo <= t <= scan.hi,
    ensures
        ({
            let entity = entities[e];
            let id = entity.authoritative.components.entries@[i].0;
            let auth = authority_on(
                Some((entity.authoritative, entity.confirmed)),
                entity.horizon,
                *scan.global_confirm,
                t,
                id,
            );
            let pred = predicted_at(*entity.predicted, id, t);
            match pred {
                TickData::Value(p) => rewound(auth, pred, false) matches Load::Insert(loaded) && {
                    loaded == p || scan.registry.component(id).judged(loaded, p, true)
                },
                _ => rewound(auth, pred, false) is Remove,
            }
        }),
{
    let entity = entities[e];
    let auth = entity.authoritative.components;
    let entry = auth.entries@[i];
    assert(scan.can_scan(*entity.predicted, *entity.authoritative, entity.horizon));
    assert(entity_scanned(entity, scan, false));
    assert(scan.answers(
        *entity.predicted,
        *entity.authoritative,
        *entity.confirmed,
        entity.horizon,
        i,
        t,
        false,
    ));
    auth.entry_of(entry.0);
    assert(auth@.contains_key(entry.0) && auth@[entry.0] == entry.1);
}

/// What the authority says of a component at a tick is its latest record there exactly where that is
/// confirmed: where any tick from there up to before its next record was received, for the entity or
/// for all entities. Otherwise it says nothing. These ticks do not reach over the one that is half of
/// all ticks after the last that was received.
pub proof fn authority_is_confirmed<T>(
    r: Records<T>,
    confirm: ConfirmHistory,
    global: ServerMutateTicks,
    t: u32,
)
    requires
        r.valid(),
        t + r.empty_after(t as int) <= u32::MAX,
        ({
            let end = (t + r.empty_after(t as int)) as u32;
            let last = confirmations::confirmed_last(confirm);
            let all_last = confirmations::mutated_last(global);
            &&& tick::after(t, last) ==> tick::after(end, last)
            &&& tick::after(t, all_last) ==> tick::after(end, all_last)
        }),
    ensures
        ({
            let end = t + r.empty_after(t as int);
            let known = exists|x: u32|
                t <= x <= end && #[trigger] heard_of(confirm, global, x);
            authority(r, confirm, global, t) == if known {
                r.latest(t as int)
            } else {
                TickData::Missing
            }
        }),
{
    let end = (t + r.empty_after(t as int)) as u32;
    empty_after_bounds(r, t as int);
    let (last, mask) = (
        confirmations::confirmed_last(confirm),
        confirmations::confirmed_mask(confirm),
    );
    let (all_last, all_mask) = (
        confirmations::mutated_last(global),
        confirmations::mutated_mask(global),
    );
    confirmations::some_tick_was_received(last, mask, t, end);
    confirmations::some_tick_was_received(all_last, all_mask, t, end);
    if confirmations::any_received(last, mask, t, end) {
        let x = choose|x: u32|
            tick::elapsed(x, t) <= tick::elapsed(end, t) && #[trigger] confirmations::received(
                last,
                mask,
                x,
            );
        assert(t <= x <= end && heard_of(confirm, global, x));
    }
    if confirmations::any_received(all_last, all_mask, t, end) {
        let x = choose|x: u32|
            tick::elapsed(x, t) <= tick::elapsed(end, t) && #[trigger] confirmations::received(
                all_last,
                all_mask,
                x,
            );
        assert(t <= x <= end && heard_of(confirm, global, x));
    }
    if exists|x: u32| t <= x <= end && #[trigger] heard_of(confirm, global, x) {
        let x = choose|x: u32| t <= x <= end && #[trigger] heard_of(confirm, global, x);
        assert(tick::elapsed(x, t) <= tick::elapsed(end, t));
    }
}

/// A tick was received for an entity or for all entities.
pub open spec fn heard_of(confirm: ConfirmHistory, global: ServerMutateTicks, x: u32) -> bool {
    ||| confirmations::received(
        confirmations::confirmed_last(confirm),
        confirmations::confirmed_mask(confirm),
        x,
    )
    ||| confirmations::received(
        confirmations::mutated_last(global),
        confirmations::mutated_mask(global),
        x,
    )
}

/// Past the input horizon, and for what has no authoritative history, the authority says nothing;
/// without a horizon nothing is past it.
pub proof fn authority_ends_at_the_horizon<T>(
    auth: &AuthoritativeHistory<T>,
    confirm: &ConfirmHistory,
    horizon: Option<&ConfirmedInputHorizon>,
    global: ServerMutateTicks,
    t: u32,
    id: ComponentId,
)
    ensures
        authority_on::<T>(None, horizon, global, t, id) is Missing,
        horizon is Some && t > (horizon->0).0 ==> authority_on(
            Some((auth, confirm)),
            horizon,
            global,
            t,
            id,
        ) is Missing,
        !auth.components@.contains_key(id) ==> authority_on(
            Some((auth, confirm)),
            horizon,
            global,
            t,
            id,
        ) is Missing,
        auth.components@.contains_key(id) && (horizon is None || t <= (horizon->0).0)
            ==> authority_on(Some((auth, confirm)), horizon, global, t, id) == authority(
            auth.components@[id]@,
            *confirm,
            global,
            t,
        ),
{
}

/// A predicted component is loaded as the authority says. Where it says nothing, it is loaded as
/// predicted; and where that is nothing either, or the component was removed, it is removed. Entities
/// that take no part keep their components.
pub proof fn loaded_by_authority<T>(auth: TickData<T>, pred: TickData<T>, disabled: bool)
    ensures
        auth matches TickData::Value(v) ==> rewound(auth, pred, disabled) == Load::Insert(v),
        auth is Missing ==> (pred matches TickData::Value(v) ==> rewound(auth, pred, disabled)
            == Load::Insert(v)),
        auth is Removed || (auth is Missing && pred !is Value) ==> rewound(auth, pred, disabled)
            == if disabled {
            Load::<T>::Keep
        } else {
            Load::Remove
        },
        auth matches TickData::Value(v) ==> corrected(auth) == Load::Insert(v),
        auth is Removed ==> corrected(auth) is Remove,
        auth is Missing ==> corrected(auth) is Keep,
{
}

/// Loading drops what was predicted for later ticks and leaves what was recorded up to the tick. A
/// component of which nothing is known there, neither from the authority nor predicted, keeps its
/// first value at its tick instead, unless the entity takes no part.
pub proof fn loading_drops_later_ticks<T>(
    r: Records<T>,
    auth: TickData<T>,
    disabled: bool,
    t: u32,
    x: int,
)
    requires
        r.valid(),
        r.disjoint(),
    ensures
        ({
            let after = rewound_history(r, auth, disabled, t);
            let unknown = auth is Missing && r.latest(t as int) is Missing && !disabled;
            let first = records::last_below(r.items(), 64);
            &&& !unknown && t < r.last && x <= t ==> after.at(x) == r.at(x)
            &&& !unknown && t < r.last && x > t ==> after.at(x) is Missing
            &&& !unknown && t >= r.last ==> after == r
            &&& unknown && 0 <= first <= r.last ==> {
                &&& after.last == r.last - first
                &&& after.at(r.last - first) == TickData::Value(r.slot(first)->0)
            }
        }),
{
    if t < r.last {
        laws::clean_keeps_up_to(r, t as int, x);
    }
    let first = records::last_below(r.items(), 64);
    if 0 <= first <= r.last {
        laws::first_value_is_kept(r);
    }
}

/// A batch inserts the components that are to be inserted, with their values where these have bytes,
/// and removes those that are to be removed.
pub proof fn batched_is_loaded<T, W>(
    registry: RollbackRegistry<W>,
    loads: Seq<(ComponentId, Load<T>)>,
    id: ComponentId,
    layout: Layout,
    value: T,
)
    ensures
        insert_ids(loads).contains(id) <==> exists|i: int|
            0 <= i < loads.len() && (#[trigger] loads[i]).0 == id && loads[i].1 is Insert,
        remove_ids(loads).contains(id) <==> exists|i: int|
            0 <= i < loads.len() && (#[trigger] loads[i]).0 == id && loads[i].1 is Remove,
        insert_values(registry, loads).contains((layout, value)) <==> exists|i: int|
            0 <= i < loads.len() && (#[trigger] loads[i]).1 == Load::Insert(value)
                && registry.layout(loads[i].0) == layout && layout.size > 0,
    decreases loads.len(),
{
    if loads.len() > 0 {
        let front = loads.drop_last();
        let last = loads[loads.len() - 1];
        batched_is_loaded(registry, front, id, layout, value);
        grown_contains(insert_ids(front), last.0, id);
        grown_contains(remove_ids(front), last.0, id);
        match last.1 {
            Load::Insert(v) => {
                grown_contains(
                    insert_values(registry, front),
                    (registry.layout(last.0), v),
                    (layout, value),
                );
            },
            _ => {},
        }
        assert forall|i: int| 0 <= i < front.len() implies #[trigger] loads[i] == front[i] by {}
        if exists|i: int|
            0 <= i < front.len() && (#[trigger] front[i]).0 == id && front[i].1 is Insert {
            let i = choose|i: int|
                0 <= i < front.len() && (#[trigger] front[i]).0 == id && front[i].1 is Insert;
            assert(loads[i].0 == id && loads[i].1 is Insert);
        }
        if exists|i: int|
            0 <= i < front.len() && (#[trigger] front[i]).0 == id && front[i].1 is Remove {
            let i = choose|i: int|
                0 <= i < front.len() && (#[trigger] front[i]).0 == id && front[i].1 is Remove;
            assert(loads[i].0 == id && loads[i].1 is Remove);
        }
        if exists|i: int|
            0 <= i < front.len() && (#[trigger] front[i]).1 == Load::Insert(value)
                && registry.layout(front[i].0) == layout && layout.size > 0 {
            let i = choose|i: int|
                0 <= i < front.len() && (#[trigger] front[i]).1 == Load::Insert(value)
                    && registry.layout(front[i].0) == layout && layout.size > 0;
            assert(loads[i].1 == Load::Insert(value));
        }
    }
}

proof fn grown_contains<A>(list: Seq<A>, item: A, x: A)
    ensures
        list.push(item).contains(x) <==> list.contains(x) || item == x,
{
    let all = list.push(item);
    if list.contains(x) {
        let i = choose|i: int| 0 <= i < list.len() && list[i] == x;
        assert(all[i] == x);
    }
    if item == x {
        assert(all[list.len() as int] == x);
    }
    if all.contains(x) {
        let i = choose|i: int| 0 <= i < all.len() && all[i] == x;
        if i < list.len() {
            assert(list[i] == x);
        }
    }
}

/// Each component with a history is loaded under its own id: a predicted one by the authority and its
/// latest prediction at the tick, one that the authority speaks of by the authority, and one that the
/// entity lacks with what was predicted at exactly that tick.
pub proof fn each_component_is_loaded<T>(
    entries: Seq<(ComponentId, ComponentHistory<T>)>,
    says: spec_fn(ComponentId) -> TickData<T>,
    disabled: bool,
    confirm: ConfirmHistory,
    horizon: Option<&ConfirmedInputHorizon>,
    global: ServerMutateTicks,
    present: Seq<ComponentId>,
    t: u32,
    i: int,
)
    requires
        0 <= i < entries.len(),
    ensures
        ({
            let (id, history) = entries[i];
            let back = rewinds(entries, says, disabled, t);
            let fixes = corrections(entries, confirm, horizon, global, t);
            let again = reinsertions(entries, present, t);
            &&& back.len() == entries.len() && fixes.len() == entries.len() && again.len()
                == entries.len()
            &&& back[i] == (id, rewound(says(id), history@.latest(t as int), disabled))
            &&& (horizon is Some && t > (horizon->0).0) ==> fixes[i] == (id, Load::<T>::Keep)
            &&& (horizon is None || t <= (horizon->0).0) ==> fixes[i] == (
                id,
                corrected(authority(history@, confirm, global, t)),
            )
            &&& present.contains(id) || history@.at(t as int) !is Value ==> again[i] == (
                id,
                Load::<T>::Keep,
            )
            &&& (!present.contains(id) && history@.at(t as int) is Value) ==> again[i] == (
                id,
                Load::Insert(history@.at(t as int)->Value_0),
            )
        }),
{
}

/// A difference that is found is one: the authority speaks of the component, and one of the two has it
/// while the other has not, or their values are not within tolerance of each other.
pub proof fn differences_are_real<T: PartialEq, W: Fn(&T, &T) -> bool>(
    component: HistoryComponent<W>,
    auth: TickData<T>,
    pred: TickData<T>,
    r: bool,
)
    requires
        differs(component, auth, pred, r),
    ensures
        auth is Missing ==> !r,
        auth is Removed ==> (r <==> pred is Value),
        auth is Value && pred !is Value ==> r,
        auth matches TickData::Value(a) ==> (pred matches TickData::Value(b) ==> component.judged(
            a,
            b,
            !r,
        )),
{
}

/// What was predicted of a component is its latest record, or nothing without a history.
pub proof fn predicted_is_latest<T>(pred: PredictedHistory<T>, id: ComponentId, t: u32)
    ensures
        pred.history@.contains_key(id) ==> predicted_at(pred, id, t) == pred.history@[id]@.latest(
            t as int,
        ),
        !pred.history@.contains_key(id) ==> predicted_at(pred, id, t) is Missing,
{
}

/// Every tick that a rollback loads from is scanned, and no other: for each tick from the start to
/// the present, the one before it.
pub proof fn loaded_ticks_are_scanned<'a, W>(
    registry: &'a RollbackRegistry<W>,
    global_confirm: &'a ServerMutateTicks,
    start: RepliconTick,
    real_tick: RepliconTick,
    x: u32,
)
    requires
        start.0 > 0,
        real_tick.0 > 0,
    ensures
        ({
            let scan = scan_of(registry, global_confirm, start, real_tick);
            &&& scan.lo <= x <= scan.hi <==> start.0 <= x + 1 <= real_tick.0
            &&& scan.registry == registry
            &&& scan.global_confirm == global_confirm
        }),
{
}

/// Where a scan finds a difference there is one: at a tick that is scanned and not past the input
/// horizon, the authority differs from the prediction of a component that it speaks of.
pub proof fn a_difference_is_found<'a, T: PartialEq, W: Fn(&T, &T) -> bool>(
    entities: Seq<DivergenceEntity<'a, T>>,
    scan: DivergenceScan<'a, W>,
)
    requires
        scan_answers(entities, scan, true),
    ensures
        exists|e: int, i: int, t: u32|
            {
                &&& 0 <= e < entities.len()
                &&& 0 <= i < entities[e].authoritative.components.entries@.len()
                &&& scan.lo <= t <= scan.hi
                &&& entities[e].horizon is None || t <= (entities[e].horizon->0).0
                &&& #[trigger] differs_at(entities[e], scan, i, t)
            },
{
    let e = choose|e: int|
        0 <= e < entities.len() && #[trigger] entity_scanned(entities[e], scan, true);
    let entity = entities[e];
    let (i, t) = choose|i: int, t: u32|
        0 <= i < entity.authoritative.components.entries@.len() && scan.lo <= t <= scan.hi
            && #[trigger] scan.answers(
            *entity.predicted,
            *entity.authoritative,
            *entity.confirmed,
            entity.horizon,
            i,
            t,
            true,
        );
    assert(differs_at(entities[e], scan, i, t));
}

/// What the authority says of the component in entry `i` is another thing than what was predicted of
/// it at a tick.
pub open spec fn differs_at<'a, T: PartialEq, W: Fn(&T, &T) -> bool>(
    entity: DivergenceEntity<'a, T>,
    scan: DivergenceScan<'a, W>,
    i: int,
    t: u32,
) -> bool {
    let (id, history) = entity.authoritative.components.entries@[i];
    let auth = authority(history@, *entity.confirmed, *scan.global_confirm, t);
    let pred = predicted_at(*entity.predicted, id, t);
    &&& auth !is Missing
    &&& auth is Removed ==> pred is Value
    &&& auth is Value && pred is Value ==> scan.registry.component(id).judged(
        auth->Value_0,
        pred->Value_0,
        false,
    )
}

/// A batch keeps the order of what is to be loaded: the ids, and the values with bytes beside them, come
/// in the order in which the components were looked at.
pub proof fn batched_in_order<T, W>(
    registry: RollbackRegistry<W>,
    loads: Seq<(ComponentId, Load<T>)>,
)
    ensures
        insert_ids(loads) =~= loads.filter(|l: (ComponentId, Load<T>)| l.1 is Insert).map_values(
            |l: (ComponentId, Load<T>)| l.0,
        ),
        remove_ids(loads) =~= loads.filter(|l: (ComponentId, Load<T>)| l.1 is Remove).map_values(
            |l: (ComponentId, Load<T>)| l.0,
        ),
        insert_values(registry, loads) =~= loads.filter(
            |l: (ComponentId, Load<T>)| l.1 is Insert && registry.layout(l.0).size > 0,
        ).map_values(|l: (ComponentId, Load<T>)| (registry.layout(l.0), l.1->Insert_0)),
    decreases loads.len(),
{
    reveal(Seq::filter);
    if loads.len() > 0 {
        batched_in_order(registry, loads.drop_last());
    }
}

/// A batch has the id of every component that is to be inserted, and for each value with bytes a clone of
/// it, in their order, at a multiple of its alignment.
pub proof fn inserted_are_clones<T: Clone, W>(
    insert_batch: InsertBatch<T>,
    registry: RollbackRegistry<W>,
    loads: Seq<(ComponentId, Load<T>)>,
    j: int,
)
    requires
        inserts(insert_batch, registry, loads),
        forall|i: int|
            0 <= i < loads.len() ==> registry.layout((#[trigger] loads[i]).0).align > 0,
        0 <= j < insert_values(registry, loads).len(),
    ensures
        insert_batch.ids@ == insert_ids(loads),
        insert_batch.values@.len() == insert_values(registry, loads).len(),
        insert_batch.offsets@.len() == insert_batch.values@.len(),
        ({
            let (layout, value) = insert_values(registry, loads)[j];
            &&& cloned(value, insert_batch.values@[j])
            &&& insert_batch.offsets@[j] % layout.align == 0
            &&& insert_batch.offsets@[j] + layout.size <= insert_batch.bytes
        }),
{
    let values = insert_values(registry, loads);
    let all = layouts(values);
    assert(cloned(values[j].1, insert_batch.values@[j]));
    assert(insert_batch.offsets@[j] == batch::offsets_of(all)[j]);
    assert forall|k: int| 0 <= k < all.len() implies (#[trigger] all[k]).align > 0 by {
        let (layout, value) = values[k];
        assert(values.contains((layout, value)));
        batched_is_loaded(registry, loads, 0, layout, value);
        let i = choose|i: int|
            0 <= i < loads.len() && (#[trigger] loads[i]).1 == Load::Insert(value)
                && registry.layout(loads[i].0) == layout && layout.size > 0;
        assert(registry.layout(loads[i].0).align > 0);
    }
    batch::ends_before(all, j);
    assert(all[j] == values[j].0);
}

} // verus!
