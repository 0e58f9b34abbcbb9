//! Entities that are spawned again while ticks are simulated again.
use crate::tick;
use crate::tick::RepliconTick;

use vstd::prelude::*;

verus! {

/// An entity that was spawned for a reason.
#[derive(Clone, Copy, Debug, PartialEq, Eq, Structural)]
pub struct ReuseEntry {
    /// The reason
    pub reason: u64,
    /// The bits of the entity's id
    pub entity: u64,
    /// The last tick at which it was spawned for the reason
    pub last_spawned: RepliconTick,
}

/// The entities that were spawned for reasons, to be found again when the reasons come up again.
pub struct ReuseMap {
    pub entries: Vec<ReuseEntry>,
    /// The entities that are gone
    pub to_remove: Vec<u64>,
}

/// How an entity is spawned for a reason.
#[derive(Clone, Copy, Debug, PartialEq, Eq, Structural)]
pub enum ReuseSpawn {
    /// A plain entity is spawned
    Plain,
    /// An entity is spawned with a signature of the reason
    Fresh,
    /// This entity is used again
    Reuse(u64),
}

/// What is done to an entity that is to go.
#[derive(Clone, Copy, Debug, PartialEq, Eq, Structural)]
pub enum Removal {
    /// It is despawned
    Despawn,
    /// It counts as despawned
    Disable,
    /// There is nothing to do
    Nothing,
}

/// The later of two ticks.
pub open spec fn latest(a: RepliconTick, b: RepliconTick) -> RepliconTick {
    if tick::after(b.0, a.0) {
        b
    } else {
        a
    }
}

/// An entry is dropped: its entity is gone, or it was last spawned `history` ticks ago or longer.
pub open spec fn is_stale(
    entry: ReuseEntry,
    to_remove: Seq<u64>,
    t: RepliconTick,
    history: u32,
) -> bool {
    to_remove.contains(entry.entity) || !tick::after(
        tick::advanced(entry.last_spawned.0, history),
        t.0,
    )
}

impl ReuseMap {
    /// No reason has two entries.
    pub open spec fn wf(&self) -> bool {
        forall|i: int, j: int|
            0 <= i < j < self.entries@.len() ==> (#[trigger] self.entries@[i]).reason != (
            #[trigger] self.entries@[j]).reason
    }

    /// There is an entry for a reason.
    pub open spec fn has(&self, reason: u64) -> bool {
        exists|i: int| 0 <= i < self.entries@.len() && (#[trigger] self.entries@[i]).reason == reason
    }

    /// The place of the entry for a reason.
    pub open spec fn place(&self, reason: u64) -> int {
        choose|i: int|
            0 <= i < self.entries@.len() && (#[trigger] self.entries@[i]).reason == reason
    }

    pub fn new() -> (r: Self)
        ensures
            r.wf(),
            r.entries@.len() == 0,
            r.to_remove@.len() == 0,
    {
        ReuseMap { entries: Vec::new(), to_remove: Vec::new() }
    }

    fn find(&self, reason: u64) -> (r: Option<usize>)
        requires
            self.wf(),
        ensures
            match r {
                Some(i) => i < self.entries@.len() && self.entries@[i as int].reason == reason
                    && self.has(reason) && self.place(reason) == i,
                None => !self.has(reason),
            },
    {
        let mut i: usize = 0;
        while i < self.entries.len()
            invariant
                self.wf(),
                i <= self.entries@.len(),
                forall|j: int| 0 <= j < i ==> (#[trigger] self.entries@[j]).reason != reason,
            decreases self.entries@.len() - i,
        {
            if self.entries[i].reason == reason {
                proof {
                    let p = self.place(reason);
                    assert(self.entries@[i as int].reason == reason);
                    assert(self.entries@[p].reason == reason);
                }
                return Some(i);
            }
            i = i + 1;
        }
        None
    }

    fn is_removed(&self, entity: u64) -> (r: bool)
        ensures
            r == self.to_remove@.contains(entity),
    {
        let mut i: usize = 0;
        while i < self.to_remove.len()
            invariant
                i <= self.to_remove@.len(),
                forall|j: int| 0 <= j < i ==> self.to_remove@[j] != entity,
            decreases self.to_remove@.len() - i,
        {
            if self.to_remove[i] == entity {
                return true;
            }
            i = i + 1;
        }
        false
    }

    /// The entity that is registered for a reason, unless it is gone.
    pub fn candidate(&self, reason: u64) -> (r: Option<u64>)
        requires
            self.wf(),
        ensures
            r == if self.has(reason) && !self.to_remove@.contains(
                self.entries@[self.place(reason)].entity,
            ) {
                Some(self.entries@[self.place(reason)].entity)
            } else {
                None
            },
    {
        match self.find(reason) {
            Some(i) => if self.is_removed(self.entries[i].entity) {
                None
            } else {
                Some(self.entries[i].entity)
            },
            None => None,
        }
    }

    /// How an entity is spawned for a reason, given whether the registered one is still alive. The
    /// authority spawns plain entities. An entity that is used again is noted to be spawned at
    /// this tick, unless it was spawned at a later one.
    pub fn reuse_spawn(
        &mut self,
        reason: u64,
        authority: bool,
        candidate_lives: bool,
        tick: RepliconTick,
    ) -> (r: ReuseSpawn)
        requires
            old(self).wf(),
        ensures
            final(self).wf(),
            final(self).to_remove@ == old(self).to_remove@,
            ({
                let place = old(self).place(reason);
                let entry = old(self).entries@[place];
                if authority {
                    r == ReuseSpawn::Plain && final(self).entries@ == old(self).entries@
                } else if old(self).has(reason) && candidate_lives && !old(
                    self,
                ).to_remove@.contains(entry.entity) {
                    &&& r == ReuseSpawn::Reuse(entry.entity)
                    &&& final(self).entries@ == old(self).entries@.update(
                        place,
                        ReuseEntry { last_spawned: latest(entry.last_spawned, tick), ..entry },
                    )
                } else {
                    r == ReuseSpawn::Fresh && final(self).entries@ == old(self).entries@
                }
            }),
    {
        if authority {
            return ReuseSpawn::Plain;
        }
        if !candidate_lives || self.candidate(reason).is_none() {
            return ReuseSpawn::Fresh;
        }
        match self.find(reason) {
            Some(i) => {
                let entity: u64 = self.entries[i].entity;
                self.touch(reason, tick);
                ReuseSpawn::Reuse(entity)
            },
            None => ReuseSpawn::Fresh,
        }
    }

    /// Note that the entity that is registered for a reason was spawned at a tick, unless it was
    /// spawned at a later one. Where none is registered, nothing is noted.
    pub fn touch(&mut self, reason: u64, tick: RepliconTick)
        requires
            old(self).wf(),
        ensures
            final(self).wf(),
            final(self).to_remove@ == old(self).to_remove@,
            final(self).entries@ == if old(self).has(reason) {
                let place = old(self).place(reason);
                let entry = old(self).entries@[place];
                old(self).entries@.update(
                    place,
                    ReuseEntry { last_spawned: latest(entry.last_spawned, tick), ..entry },
                )
            } else {
                old(self).entries@
            },
    {
        if let Some(i) = self.find(reason) {
            let entry = self.entries[i];
            let last = if tick::is_after(tick.get(), entry.last_spawned.get()) {
                tick
            } else {
                entry.last_spawned
            };
            self.entries[i] = ReuseEntry {
                reason: entry.reason,
                entity: entry.entity,
                last_spawned: last,
            };
        }
    }

    /// Register an entity for a reason, in place of the one that was registered. The authority
    /// registers none.
    pub fn register_reuse(
        &mut self,
        reason: u64,
        entity: u64,
        authority: bool,
        tick: RepliconTick,
    )
        requires
            old(self).wf(),
        ensures
            final(self).wf(),
            final(self).to_remove@ == old(self).to_remove@,
            final(self).entries@ == if authority {
                old(self).entries@
            } else if old(self).has(reason) {
                old(self).entries@.update(
                    old(self).place(reason),
                    ReuseEntry { reason, entity, last_spawned: tick },
                )
            } else {
                old(self).entries@.push(ReuseEntry { reason, entity, last_spawned: tick })
            },
    {
        if authority {
            return;
        }
        let entry = ReuseEntry { reason, entity, last_spawned: tick };
        match self.find(reason) {
            Some(i) => {
                self.entries[i] = entry;
            },
            None => {
                self.entries.push(entry);
            },
        }
    }

    /// Note that an entity is gone.
    pub fn mark_removed(&mut self, entity: u64)
        requires
            old(self).wf(),
        ensures
            final(self).wf(),
            final(self).entries@ == old(self).entries@,
            final(self).to_remove@ == old(self).to_remove@.push(entity),
    {
        self.to_remove.push(entity);
    }

    /// Drop the stale entries.
    pub fn clean(&mut self, tick: RepliconTick, history: u32)
        requires
            old(self).wf(),
        ensures
            final(self).wf(),
            final(self).to_remove@.len() == 0,
            final(self).entries@ == old(self).entries@.filter(
                |e: ReuseEntry| !is_stale(e, old(self).to_remove@, tick, history),
            ),
    {
        let ghost all = self.entries@;
        let ghost keeps = |e: ReuseEntry| !is_stale(e, old(self).to_remove@, tick, history);
        let mut kept: Vec<ReuseEntry> = Vec::new();
        let mut i: usize = 0;
        proof {
            reveal(Seq::filter);
            assert(all.take(0) =~= Seq::empty());
        }
        while i < self.entries.len()
            invariant
                self.entries@ == all,
                self.to_remove@ == old(self).to_remove@,
                i <= all.len(),
                keeps == (|e: ReuseEntry|
                    !is_stale(e, old(self).to_remove@, tick, history)),
                kept@ == all.take(i as int).filter(keeps),
            decreases all.len() - i,
        {
            let entry = self.entries[i];
            proof {
                reveal(Seq::filter);
                assert(all.take(i + 1).drop_last() =~= all.take(i as int));
            }
            if !self.is_removed(entry.entity) && tick::is_after(
                entry.last_spawned.get().wrapping_add(history),
                tick.get(),
            ) {
                kept.push(entry);
            }
            i = i + 1;
        }
        proof {
            assert(all.take(all.len() as int) =~= all);
            filter_keeps_distinct(all, keeps);
        }
        self.entries = kept;
        self.to_remove.clear();
    }
}

proof fn filter_keeps_distinct(all: Seq<ReuseEntry>, keeps: spec_fn(ReuseEntry) -> bool)
    requires
        forall|i: int, j: int|
            0 <= i < j < all.len() ==> (#[trigger] all[i]).reason != (#[trigger] all[j]).reason,
    ensures
        ({
            let kept = all.filter(keeps);
            &&& forall|i: int, j: int|
                0 <= i < j < kept.len() ==> (#[trigger] kept[i]).reason != (
                #[trigger] kept[j]).reason
            &&& forall|i: int| 0 <= i < kept.len() ==> all.contains(#[trigger] kept[i])
        }),
    decreases all.len(),
{
    reveal(Seq::filter);
    if all.len() > 0 {
        let front = all.drop_last();
        assert forall|i: int, j: int| 0 <= i < j < front.len() implies (#[trigger] front[i]).reason
            != (#[trigger] front[j]).reason by {
            assert(all[i].reason != all[j].reason);
        }
        filter_keeps_distinct(front, keeps);
        let part = front.filter(keeps);
        let kept = all.filter(keeps);
        assert forall|i: int| 0 <= i < part.len() implies all.contains(#[trigger] part[i])
            && part[i].reason != all.last().reason by {
            assert(front.contains(part[i]));
            let k = choose|k: int| 0 <= k < front.len() && front[k] == part[i];
            assert(all[k] == part[i]);
            assert(all[k].reason != all[all.len() - 1].reason);
        }
        assert(all.contains(all.last())) by {
            assert(all[all.len() - 1] == all.last());
        }
        assert forall|i: int| 0 <= i < kept.len() implies all.contains(#[trigger] kept[i]) by {
            if i < part.len() {
                assert(kept[i] == part[i]);
            }
        }
        assert forall|i: int, j: int| 0 <= i < j < kept.len() implies (#[trigger] kept[i]).reason
            != (#[trigger] kept[j]).reason by {
            assert(kept[i] == part[i]);
            if j < part.len() {
                assert(kept[j] == part[j]);
            }
        }
    }
}

/// What is done to an entity that is to go: the authority despawns it, a client may still need it.
pub fn disable_or_despawn(is_there: bool, authority: bool) -> (r: Removal)
    ensures
        r == if !is_there {
            Removal::Nothing
        } else if authority {
            Removal::Despawn
        } else {
            Removal::Disable
        },
{
    if !is_there {
        Removal::Nothing
    } else if authority {
        Removal::Despawn
    } else {
        Removal::Disable
    }
}

/// A registration lives for `history` ticks past the last tick at which the entity was spawned, as
/// long as the ticks lie within the lower half of all ticks.
pub proof fn registration_lives(entry: ReuseEntry, touched: RepliconTick, t: RepliconTick, history: u32)
    requires
        entry.last_spawned.0 + history <= u32::MAX / 2,
        touched.0 + history <= u32::MAX / 2,
        t.0 <= u32::MAX / 2,
    ensures
        ({
            let last = if entry.last_spawned.0 >= touched.0 {
                entry.last_spawned.0
            } else {
                touched.0
            };
            let again = ReuseEntry { last_spawned: latest(entry.last_spawned, touched), ..entry };
            is_stale(again, Seq::empty(), t, history) <==> t.0 >= last + history
        }),
{
}

/// The later of two ticks is one of them, and neither comes after it.
pub proof fn latest_is_greatest(a: RepliconTick, b: RepliconTick)
    ensures
        latest(a, b) == a || latest(a, b) == b,
        !tick::after(a.0, latest(a, b).0),
        !tick::after(b.0, latest(a, b).0),
{
}

/// An entry is dropped where its entity is gone, and otherwise exactly where the tick `history` ticks
/// after it was last spawned is reached: from there on, within half of all ticks.
pub proof fn stale_once_the_history_is_over(
    entry: ReuseEntry,
    to_remove: Seq<u64>,
    history: u32,
    n: u32,
)
    ensures
        ({
            let t = RepliconTick(
                tick::advanced(tick::advanced(entry.last_spawned.0, history), n),
            );
            is_stale(entry, to_remove, t, history) <==> to_remove.contains(entry.entity) || n
                <= 0x8000_0000
        }),
{
}

/// The authority despawns an entity that is there, a client only disables it, and nothing is done to one
/// that is not there.
pub proof fn only_the_authority_despawns(authority: bool, there: Removal, gone: Removal)
    requires
        call_ensures(disable_or_despawn, (true, authority), there),
        call_ensures(disable_or_despawn, (false, authority), gone),
    ensures
        there is Despawn <==> authority,
        there is Disable <==> !authority,
        gone is Nothing,
{
}

/// Every entry is found by its reason, and nothing is found for a reason without an entry.
pub proof fn registered_is_found(reused: ReuseMap, entry: ReuseEntry, reason: u64)
    requires
        reused.wf(),
    ensures
        reused.entries@.contains(entry) ==> {
            &&& reused.has(entry.reason)
            &&& reused.entries@[reused.place(entry.reason)] == entry
        },
        reused.has(reason) ==> {
            let found = reused.entries@[reused.place(reason)];
            found.reason == reason && reused.entries@.contains(found)
        },
{
    if reused.entries@.contains(entry) {
        let i = choose|i: int| 0 <= i < reused.entries@.len() && reused.entries@[i] == entry;
        assert(reused.entries@[i].reason == entry.reason);
        let p = reused.place(entry.reason);
        assert(reused.entries@[p].reason == entry.reason);
    }
    if reused.has(reason) {
        let p = reused.place(reason);
        assert(reused.entries@[p].reason == reason);
    }
}

} // verus!
