//! Entities that are spawned or despawned within the ticks that can be rolled back.
use crate::history::load;
use crate::rollback::{RollbackFrames, RollbackTarget};
use crate::tick;
use crate::tick::RepliconTick;

use vstd::prelude::*;

verus! {

/// The tick at which an entity was spawned.
#[derive(Clone, Copy, Debug, PartialEq, Eq, Structural)]
pub struct SpawnedAt(pub RepliconTick);

/// The tick at which the server removed an entity.
#[derive(Clone, Copy, Debug, PartialEq, Eq, Structural)]
pub struct RemovedByServerAt(pub RepliconTick);

/// The tick since which an entity is not used.
#[derive(Clone, Copy, Debug, PartialEq, Eq, Structural)]
pub struct UnusedAt(pub RepliconTick);

/// A tick is later than `history` ticks after `stamped`.
pub open spec fn is_outside_window(stamped: u32, history: u32, t: u32) -> bool {
    tick::before(tick::advanced(stamped, history), t)
}

/// Whether a tick is later than `history` ticks after `stamped`.
pub fn outside_history_window(stamped: RepliconTick, history: u32, tick: RepliconTick) -> (r: bool)
    ensures
        r == is_outside_window(stamped.0, history, tick.0),
{
    tick::is_before(stamped.get().wrapping_add(history), tick.get())
}

/// A tick is outside the window exactly when the stamped tick plus the history is less than it,
/// as long as the ticks lie within the lower half of all ticks.
pub proof fn window_is_plain(stamped: u32, history: u32, t: u32)
    requires
        stamped + history <= u32::MAX / 2,
        t <= u32::MAX / 2,
    ensures
        is_outside_window(stamped, history, t) <==> stamped + history < t,
{
}

/// The stamp that a predicted entity gets when it is added. Entities that are added while ticks
/// are simulated again get none, and a stamp stays.
pub fn stamp_spawned_at(
    existing: Option<SpawnedAt>,
    tick: RepliconTick,
    in_resim: bool,
) -> (r: Option<SpawnedAt>)
    ensures
        r == if in_resim || existing is Some {
            None
        } else {
            Some(SpawnedAt(tick))
        },
{
    if in_resim || existing.is_some() {
        return None;
    }
    Some(SpawnedAt(tick))
}

/// An entity is not spawned yet when a rollback starts: it was spawned after the tick from which
/// the rollback loads.
pub open spec fn is_unspawned(spawned_at: u32, target: Option<RepliconTick>) -> bool {
    target matches Some(start) && spawned_at > load::tick_before(start.0)
}

/// Whether an entity is not spawned yet when a rollback starts.
pub fn disable_unspawned_during_rollback(
    spawned_at: SpawnedAt,
    target: &RollbackTarget,
) -> (r: bool)
    ensures
        r == is_unspawned(spawned_at.0.0, target.0),
{
    match target.0 {
        Some(start) => spawned_at.0.get() > start.get().saturating_sub(1),
        None => false,
    }
}

/// Whether an entity is spawned by now.
pub fn reenable_at_spawn_tick(spawned_at: SpawnedAt, tick: RepliconTick) -> (r: bool)
    ensures
        r == (spawned_at.0.0 <= tick.0),
{
    spawned_at.0.get() <= tick.get()
}

/// What is done to an entity that the server despawned.
#[derive(Clone, Copy, Debug, PartialEq, Eq, Structural)]
pub enum ServerDespawn {
    /// It is despawned
    Despawn,
    /// The tick is noted
    Note(RemovedByServerAt),
    /// The tick is noted, and the entity counts as despawned
    NoteAndDisable(RemovedByServerAt),
}

/// What is done to an entity that the server despawned. A predicted one may still be needed; it
/// counts as despawned once the present has reached the tick.
pub fn replicon_despawn(
    is_predicted: bool,
    message_tick: RepliconTick,
    tick: RepliconTick,
) -> (r: ServerDespawn)
    ensures
        r == if !is_predicted {
            ServerDespawn::Despawn
        } else if tick::before(message_tick.0, tick.0) {
            ServerDespawn::Note(RemovedByServerAt(message_tick))
        } else {
            ServerDespawn::NoteAndDisable(RemovedByServerAt(message_tick))
        },
{
    if is_predicted {
        if tick::is_before(message_tick.get(), tick.get()) {
            return ServerDespawn::Note(RemovedByServerAt(message_tick));
        }
        return ServerDespawn::NoteAndDisable(RemovedByServerAt(message_tick));
    }
    ServerDespawn::Despawn
}

/// What becomes of an entity that the server removed.
#[derive(Clone, Copy, Debug, PartialEq, Eq, Structural)]
pub enum ServerRemoved {
    /// It is despawned
    Despawn,
    /// It counts as despawned
    Disable,
    /// It stays as it is
    Keep,
}

/// What becomes of an entity that the server removed at a tick: it counts as despawned from that
/// tick on, and is despawned once that cannot be rolled back any more.
pub fn disable_server_despawned_entities(
    at: RemovedByServerAt,
    is_despawned: bool,
    tick: RepliconTick,
    frames: RollbackFrames,
) -> (r: ServerRemoved)
    ensures
        r == if is_despawned {
            if is_outside_window(at.0.0, (frames@ + 2) as u32, tick.0) {
                ServerRemoved::Despawn
            } else {
                ServerRemoved::Keep
            }
        } else if tick::after(at.0.0, tick.0) {
            ServerRemoved::Keep
        } else {
            ServerRemoved::Disable
        },
{
    if is_despawned && outside_history_window(at.0, frames.history_size() as u32, tick) {
        ServerRemoved::Despawn
    } else if !is_despawned && !tick::is_after(at.0.get(), tick.get()) {
        ServerRemoved::Disable
    } else {
        ServerRemoved::Keep
    }
}

/// Whether an entity that is not used is despawned: when that cannot be rolled back any more.
pub fn despawn_unused_entities(
    unused_at: UnusedAt,
    tick: RepliconTick,
    frames: RollbackFrames,
) -> (r: bool)
    ensures
        r == is_outside_window(unused_at.0.0, (frames@ + 2) as u32, tick.0),
{
    outside_history_window(unused_at.0, frames.history_size() as u32, tick)
}

/// Whether an entity takes part, and why not.
#[derive(Clone, Copy, Debug, PartialEq, Eq, Structural)]
pub struct Presence {
    /// The entity is despawned, but may be needed for a rollback
    pub despawned: bool,
    /// The entity is not spawned yet
    pub unspawned: bool,
    /// The entity takes no part
    pub disabled: bool,
    /// The tick since which a despawned entity is not used
    pub unused_at: Option<UnusedAt>,
}

impl Presence {
    /// An entity that is despawned or not spawned yet takes no part, and exactly a despawned one
    /// counts as unused.
    pub open spec fn wf(&self) -> bool {
        &&& self.despawned || self.unspawned ==> self.disabled
        &&& self.despawned == (self.unused_at is Some)
    }

    /// The entity counts as despawned from a tick on.
    pub open spec fn with_despawned(self, tick: RepliconTick) -> Presence {
        Presence { despawned: true, disabled: true, unused_at: Some(UnusedAt(tick)), ..self }
    }

    /// The entity is not despawned after all. It takes part again, unless it is not spawned yet.
    pub open spec fn without_despawned(self) -> Presence {
        Presence {
            despawned: false,
            disabled: self.disabled && self.unspawned,
            unused_at: None,
            ..self
        }
    }

    /// The entity is not spawned yet.
    pub open spec fn with_unspawned(self) -> Presence {
        Presence { unspawned: true, disabled: true, ..self }
    }

    /// The entity is spawned. It takes part again, unless it is despawned.
    pub open spec fn without_unspawned(self) -> Presence {
        Presence { unspawned: false, disabled: self.disabled && self.despawned, ..self }
    }

    /// The entity goes when the present is reached again: it was not spawned again.
    pub open spec fn is_left_out(self) -> bool {
        self.disabled && self.unspawned
    }

    /// An entity that takes part.
    pub fn new() -> (r: Self)
        ensures
            r.wf(),
            !r.despawned && !r.unspawned && !r.disabled,
    {
        Presence { despawned: false, unspawned: false, disabled: false, unused_at: None }
    }

    /// The entity counts as despawned from a tick on.
    pub fn insert_despawned(&mut self, tick: RepliconTick)
        requires
            old(self).wf(),
        ensures
            final(self).wf(),
            *final(self) == old(self).with_despawned(tick),
    {
        self.despawned = true;
        self.disabled = true;
        self.unused_at = Some(UnusedAt(tick));
    }

    /// The entity is not despawned after all. It takes part again, unless it is not spawned yet.
    pub fn remove_despawned(&mut self)
        requires
            old(self).wf(),
            old(self).despawned,
        ensures
            final(self).wf(),
            *final(self) == old(self).without_despawned(),
    {
        self.despawned = false;
        self.unused_at = None;
        self.reenable();
    }

    /// The entity is not spawned yet.
    pub fn insert_unspawned(&mut self)
        requires
            old(self).wf(),
        ensures
            final(self).wf(),
            *final(self) == old(self).with_unspawned(),
    {
        self.unspawned = true;
        self.disabled = true;
    }

    /// The entity is spawned. It takes part again, unless it is despawned.
    pub fn remove_unspawned(&mut self)
        requires
            old(self).wf(),
            old(self).unspawned,
        ensures
            final(self).wf(),
            *final(self) == old(self).without_unspawned(),
    {
        self.unspawned = false;
        self.reenable();
    }

    /// The entity takes part again where nothing speaks against it.
    fn reenable(&mut self)
        ensures
            *final(self) == (Presence {
                disabled: old(self).disabled && (old(self).despawned || old(self).unspawned),
                ..*old(self)
            }),
    {
        if self.despawned || self.unspawned {
            return;
        }
        self.disabled = false;
    }

    /// Whether the entity goes when the present is reached again: it was not spawned again.
    pub fn despawn_unspawned_entities(&self) -> (r: bool)
        ensures
            r == self.is_left_out(),
    {
        self.disabled && self.unspawned
    }
}

/// An entity that is neither despawned nor waiting for its spawn takes part once the last of the
/// two reasons is gone, in whatever order they go.
pub proof fn reasons_go_in_any_order(before: Presence)
    requires
        before.wf(),
        before.despawned && before.unspawned,
    ensures
        before.without_despawned().disabled,
        before.without_unspawned().disabled,
        before.without_despawned().without_unspawned()
            == before.without_unspawned().without_despawned(),
        !before.without_despawned().without_unspawned().disabled,
{
}

/// What becomes of an entity when a rollback starts.
pub open spec fn when_rolled_back(
    before: Presence,
    spawned_at: u32,
    target: Option<RepliconTick>,
) -> Presence {
    if is_unspawned(spawned_at, target) {
        before.with_unspawned()
    } else {
        before
    }
}

/// What becomes of an entity while the ticks from `first` to `last` are simulated again.
pub open spec fn when_resimulated(
    before: Presence,
    spawned_at: u32,
    first: int,
    last: int,
) -> Presence
    decreases last - first + 1,
{
    if first > last {
        before
    } else if before.unspawned && spawned_at <= first {
        when_resimulated(before.without_unspawned(), spawned_at, first + 1, last)
    } else {
        when_resimulated(before, spawned_at, first + 1, last)
    }
}

proof fn resimulated_to(before: Presence, spawned_at: u32, first: int, last: int)
    ensures
        when_resimulated(before, spawned_at, first, last) == if before.unspawned && first <= last
            && spawned_at <= last {
            before.without_unspawned()
        } else {
            before
        },
    decreases last - first + 1,
{
    if first <= last {
        if before.unspawned && spawned_at <= first {
            resimulated_to(before.without_unspawned(), spawned_at, first + 1, last);
        } else {
            resimulated_to(before, spawned_at, first + 1, last);
        }
    }
}

/// An entity that takes part comes through a rollback to a tick up to the present exactly when it
/// was spawned by the present, and then takes part as before.
pub proof fn spawned_by_present_survives(
    before: Presence,
    spawned_at: u32,
    start: RepliconTick,
    present: RepliconTick,
)
    requires
        before.wf(),
        !before.disabled,
        start.0 <= present.0,
    ensures
        ({
            let rolled_back = when_rolled_back(before, spawned_at, Some(start));
            let after = when_resimulated(rolled_back, spawned_at, start.0 as int, present.0 as int);
            &&& after.is_left_out() <==> spawned_at > present.0
            &&& !after.is_left_out() ==> after == before
        }),
{
    let rolled_back = when_rolled_back(before, spawned_at, Some(start));
    resimulated_to(rolled_back, spawned_at, start.0 as int, present.0 as int);
}

/// An entity that was spawned at the tick that a rollback leads to or later is not spawned yet when the
/// rollback starts; without a target none is.
pub proof fn spawned_from_the_target_on(spawned_at: u32, target: u32)
    ensures
        target > 0 ==> (is_unspawned(spawned_at, Some(RepliconTick(target))) <==> spawned_at
            >= target),
        is_unspawned(spawned_at, Some(RepliconTick(0))) <==> spawned_at > 0,
        !is_unspawned(spawned_at, None),
{
}

/// An entity takes no part while there is a reason for it, and is as before once the reason is gone. A
/// despawned entity is unused since the tick.
pub proof fn reasons_come_and_go(before: Presence, tick: RepliconTick)
    requires
        before.wf(),
    ensures
        before.with_despawned(tick).disabled && before.with_despawned(tick).despawned,
        before.with_despawned(tick).unused_at == Some(UnusedAt(tick)),
        before.with_despawned(tick).unspawned == before.unspawned,
        before.with_unspawned().disabled && before.with_unspawned().unspawned,
        before.with_unspawned().despawned == before.despawned,
        before.with_unspawned().unused_at == before.unused_at,
        !before.despawned && (before.disabled ==> before.unspawned) ==> before.with_despawned(
            tick,
        ).without_despawned() == before,
        !before.unspawned && (before.disabled ==> before.despawned)
            ==> before.with_unspawned().without_unspawned() == before,
        before.is_left_out() <==> before.unspawned,
{
}

/// Going round, a tick is outside the window exactly where it is another tick than the one `history`
/// ticks after the stamped one, and is not reached when going back from that one within half of all
/// ticks.
pub proof fn window_goes_round(stamped: u32, history: u32, n: u32)
    ensures
        ({
            let t = tick::advanced(tick::advanced(stamped, history), n);
            is_outside_window(stamped, history, t) <==> 0 < n <= 0x8000_0000
        }),
{
}

/// When a rollback starts, exactly the entities that were spawned at its first tick or later are left
/// out, and nothing else changes. While the ticks are simulated again, they are back from the tick on
/// at which they were spawned.
pub proof fn back_from_their_spawn_tick(
    before: Presence,
    spawned_at: u32,
    start: RepliconTick,
    t: u32,
)
    requires
        before.wf(),
        !before.disabled,
        0 < start.0 <= t,
    ensures
        ({
            let left_out = when_rolled_back(before, spawned_at, Some(start));
            let now = when_resimulated(left_out, spawned_at, start.0 as int, t as int);
            &&& spawned_at < start.0 ==> left_out == before
            &&& spawned_at >= start.0 ==> left_out.unspawned && left_out.disabled
            &&& now.unspawned <==> spawned_at > t
            &&& now.disabled <==> spawned_at > t
            &&& spawned_at <= t ==> now == before
            &&& now.despawned == before.despawned
            &&& now.unused_at == before.unused_at
        }),
{
    let left_out = when_rolled_back(before, spawned_at, Some(start));
    resimulated_to(left_out, spawned_at, start.0 as int, t as int);
}

/// What happens to a predicted entity that the server despawned, from the message on: the tick is noted,
/// and the entity counts as despawned at once unless that tick is past. Where it does not count as
/// despawned yet, it does from that tick on. It stays for as long as a rollback can reach back to the
/// tick, and then it goes. One that is not predicted goes at once.
pub proof fn despawned_when_out_of_reach(
    message_tick: RepliconTick,
    tick: RepliconTick,
    frames: RollbackFrames,
    told: ServerDespawn,
    plain: ServerDespawn,
    waiting: ServerRemoved,
    disabled: ServerRemoved,
    unused: bool,
)
    requires
        message_tick.0 <= u32::MAX / 4,
        tick.0 <= u32::MAX / 2,
        0 <= frames@ <= 60,
        call_ensures(replicon_despawn, (true, message_tick, tick), told),
        call_ensures(replicon_despawn, (false, message_tick, tick), plain),
        call_ensures(
            disable_server_despawned_entities,
            (RemovedByServerAt(message_tick), false, tick, frames),
            waiting,
        ),
        call_ensures(
            disable_server_despawned_entities,
            (RemovedByServerAt(message_tick), true, tick, frames),
            disabled,
        ),
        call_ensures(despawn_unused_entities, (UnusedAt(message_tick), tick, frames), unused),
    ensures
        plain is Despawn,
        tick.0 > message_tick.0 ==> told == ServerDespawn::Note(RemovedByServerAt(message_tick)),
        tick.0 <= message_tick.0 ==> told == ServerDespawn::NoteAndDisable(
            RemovedByServerAt(message_tick),
        ),
        waiting is Disable <==> tick.0 >= message_tick.0,
        waiting is Keep <==> tick.0 < message_tick.0,
        disabled is Despawn <==> tick.0 > message_tick.0 + frames@ + 2,
        disabled is Keep <==> tick.0 <= message_tick.0 + frames@ + 2,
        unused <==> tick.0 > message_tick.0 + frames@ + 2,
{
}

/// An entity is stamped once, with the tick at which it was added, and not while ticks are simulated again;
/// an entity that was left out is back exactly from its stamp on.
pub proof fn stamped_when_added(
    existing: Option<SpawnedAt>,
    tick: RepliconTick,
    later: RepliconTick,
    live: Option<SpawnedAt>,
    again: Option<SpawnedAt>,
    back: bool,
)
    requires
        call_ensures(stamp_spawned_at, (existing, tick, false), live),
        call_ensures(stamp_spawned_at, (existing, tick, true), again),
        call_ensures(reenable_at_spawn_tick, (SpawnedAt(tick), later), back),
    ensures
        again is None,
        existing is Some ==> live is None,
        existing is None ==> live == Some(SpawnedAt(tick)),
        back <==> later.0 >= tick.0,
{
}

} // verus!
