//! What holds of component histories over several operations.
use super::records;
use super::records::Records;
use super::tick_data::TickData;

use vstd::prelude::*;

verus! {

impl<T> Records<T> {
    /// The window is within its capacity, and removals lie within 64 ticks.
    pub open spec fn valid(self) -> bool {
        &&& 1 <= self.capacity <= 64
        &&& self.slots.len() <= self.capacity
        &&& forall|ago: int| #[trigger] self.removed.contains(ago) ==> 0 <= ago < 64
    }

    /// No tick has both a value and a removal.
    pub open spec fn disjoint(self) -> bool {
        forall|ago: int| !(#[trigger] self.items().contains(ago) && self.removed.contains(ago))
    }

    /// Every removal lies within the window.
    pub open spec fn tidy(self) -> bool {
        forall|ago: int| #[trigger] self.removed.contains(ago) ==> ago < self.slots.len()
    }

    /// How long before the last tick a tick lies; ticks after the last are taken for the last.
    pub open spec fn ago(self, tick: int) -> int {
        if tick >= self.last {
            0
        } else {
            self.last - tick
        }
    }

    /// There is no record at or before a tick, neither in the window nor before it.
    pub open spec fn bare(self, tick: int) -> bool {
        forall|ago: int| self.ago(tick) <= ago ==> !#[trigger] self.known().contains(ago)
    }

    /// There is a record at or before a tick.
    pub open spec fn reaches(self, tick: int) -> bool {
        records::first_from(self.known(), self.ago(tick)) < self.slots.len()
    }
}

/// A value that was written at a tick is read back there, unless the tick lies before what the
/// window can hold or is marked as removed.
pub proof fn written_is_read<T>(r: Records<T>, tick: int, item: T)
    requires
        r.valid(),
        r.capacity == 1 && r.slots.len() == 1 ==> tick <= r.last,
        r.slots.len() > 0 && tick <= r.last ==> r.last - tick < r.capacity && !r.removed.contains(
            r.last - tick,
        ),
    ensures
        r.written(tick, item).at(tick) == TickData::Value(item),
{
    let w = r.written(tick, item);
    if r.slots.len() > 0 && tick <= r.last {
        let open = r.opened(r.last - tick);
        assert(open.slots.len() > r.last - tick);
    } else {
        let f = r.filled(tick);
        filled_shape(r, tick);
        trimmed_shape(f);
        assert(w.slots.last() == Some(item));
        assert(!w.removed.contains(0));
    }
}

/// A tick that was marked as removed reads as removed, unless it lies before what the window can
/// hold.
pub proof fn marked_is_read<T>(r: Records<T>, tick: int)
    requires
        r.valid(),
        r.capacity == 1 && r.slots.len() == 1 ==> tick <= r.last,
        r.slots.len() > 0 && tick <= r.last ==> r.last - tick < r.capacity,
    ensures
        r.marked(tick).at(tick) == TickData::<T>::Removed,
{
    if r.slots.len() > 0 && tick <= r.last {
        let open = r.opened(r.last - tick);
        assert(open.slots.len() > r.last - tick);
    } else {
        filled_shape(r, tick);
        trimmed_shape(r.filled(tick));
    }
}

/// The window after it moved on: its length, its end and where its removals lie.
proof fn filled_shape<T>(r: Records<T>, tick: int)
    requires
        r.valid(),
    ensures
        r.filled(tick).valid(),
        r.filled(tick).slots.len() >= r.slots.len(),
        r.slots.len() == 0 ==> r.filled(tick) == r,
        r.slots.len() > 0 && tick > r.last ==> r.filled(tick).last == tick - 1,
{
    let gap = tick - 1 - r.last;
    if r.slots.len() > 0 && 0 < gap < r.capacity {
        let kept = r.capacity - gap;
        if r.slots.len() > kept {
            carried_shape(r, kept);
        }
    }
}

proof fn carried_shape<T>(r: Records<T>, kept: int)
    requires
        r.valid(),
        0 < kept < r.slots.len(),
    ensures
        r.carried(kept).valid(),
        r.carried(kept).slots.len() == r.slots.len(),
{
    records::first_from_spec(r.items(), kept);
    records::first_from_spec(r.removed, kept);
    let i = records::first_from(r.items(), kept);
    if i < 64 {
        assert(r.items().contains(i));
    }
}

proof fn trimmed_shape<T>(r: Records<T>)
    requires
        r.valid(),
    ensures
        r.slots.len() >= 2 ==> r.trimmed().valid() && r.trimmed().slots.len() == r.slots.len(),
{
    let front = r.slots.len() - 1;
    if r.items().contains(front) {
        assert(r.items().contains(front));
    }
}

/// Writing at a tick within the window leaves what is recorded at the other ticks.
pub proof fn write_leaves_others<T>(r: Records<T>, tick: int, item: T, t: int)
    requires
        r.valid(),
        r.tidy(),
        r.slots.len() > 0,
        tick <= r.last,
        t != tick,
    ensures
        r.written(tick, item).at(t) == r.at(t),
        r.written(tick, item).last == r.last,
{
    let ago = r.last - tick;
    if ago < r.capacity {
        let open = r.opened(ago);
        let a = r.last - t;
        if 0 <= a < open.slots.len() {
            if a >= r.slots.len() {
                assert(!r.removed.contains(a));
                assert(open.slots[open.slots.len() - 1 - a] is None);
            } else {
                assert(open.slots[open.slots.len() - 1 - a] == r.slots[r.slots.len() - 1 - a]);
            }
        }
    }
}

/// Marking a tick within the window as removed leaves what is recorded at the other ticks.
pub proof fn mark_leaves_others<T>(r: Records<T>, tick: int, t: int)
    requires
        r.valid(),
        r.tidy(),
        r.slots.len() > 0,
        tick <= r.last,
        t != tick,
    ensures
        r.marked(tick).at(t) == r.at(t),
        r.marked(tick).last == r.last,
{
    let ago = r.last - tick;
    if ago < r.capacity {
        let open = r.opened(ago);
        let a = r.last - t;
        if 0 <= a < open.slots.len() {
            if a >= r.slots.len() {
                assert(!r.removed.contains(a));
                assert(open.slots[open.slots.len() - 1 - a] is None);
            } else {
                assert(open.slots[open.slots.len() - 1 - a] == r.slots[r.slots.len() - 1 - a]);
            }
        }
    }
}

/// The latest record at a tick is the one at the nearest tick at or before it that has one.
pub proof fn latest_is_nearest<T>(r: Records<T>, tick: int)
    requires
        r.valid(),
        r.reaches(tick),
    ensures
        ({
            let ago = records::first_from(r.known(), r.ago(tick));
            &&& r.latest(tick) == r.at(r.last - ago)
            &&& r.at(r.last - ago) !is Missing
            &&& r.last - ago <= tick
            &&& forall|t: int|
                r.last - ago < t <= tick ==> (#[trigger] r.at(t)) is Missing
        }),
{
    let from = r.ago(tick);
    let ago = records::first_from(r.known(), from);
    nearest(r, from);
    assert(r.items().contains(ago) || r.removed.contains(ago));
    assert forall|t: int| r.last - ago < t <= tick implies (#[trigger] r.at(t)) is Missing by {
        let a = r.last - t;
        if 0 <= a < r.slots.len() {
            assert(!r.known().contains(a));
            assert(!r.items().contains(a));
        }
    }
}

/// The nearest record is the nearer of the nearest value and the nearest removal.
proof fn nearest<T>(r: Records<T>, from: int)
    requires
        r.valid(),
        0 <= from,
    ensures
        from <= 64 ==> ({
            let k = records::first_from(r.known(), from);
            let i = records::first_from(r.items(), from);
            let d = records::first_from(r.removed, from);
            &&& from <= k <= 64
            &&& k == if i < d {
                i
            } else {
                d
            }
            &&& k < 64 ==> r.known().contains(k)
            &&& i < 64 ==> r.items().contains(i) && i < r.slots.len()
            &&& d < 64 ==> r.removed.contains(d)
            &&& i <= 64
            &&& d <= 64
            &&& forall|a: int| from <= a < k ==> !#[trigger] r.known().contains(a)
            &&& forall|a: int| from <= a < d ==> !#[trigger] r.removed.contains(a)
        }),
        from > 64 ==> records::first_from(r.known(), from) == 64,
{
    if from <= 64 {
        records::first_from_spec(r.known(), from);
        records::first_from_spec(r.items(), from);
        records::first_from_spec(r.removed, from);
        let k = records::first_from(r.known(), from);
        let i = records::first_from(r.items(), from);
        let d = records::first_from(r.removed, from);
        if i < 64 {
            assert(r.known().contains(i));
        }
        if d < 64 {
            assert(r.known().contains(d));
        }
        if k < 64 {
            if r.items().contains(k) {
            } else {
                assert(r.removed.contains(k));
            }
        }
    }
}

/// The record at the nearest tick decides what is latest.
proof fn latest_at<T>(r: Records<T>, tick: int, ago: int)
    requires
        r.valid(),
        r.disjoint(),
        r.ago(tick) <= ago < r.slots.len(),
        r.known().contains(ago),
        forall|a: int| r.ago(tick) <= a < ago ==> !#[trigger] r.known().contains(a),
    ensures
        r.latest(tick) == r.at(r.last - ago),
        r.latest(tick) == if r.removed.contains(ago) {
            TickData::Removed
        } else {
            TickData::Value(r.slot(ago)->0)
        },
        r.reaches(tick),
{
    records::first_from_unique(r.known(), r.ago(tick), ago);
    nearest(r, r.ago(tick));
}

/// What was latest at a tick stays so when the window moves on, for as long as the tick lies in the
/// window: the newest record that leaves the window is kept at its oldest tick. Where no record is
/// held, the window does not grow to 64 ticks.
pub proof fn moving_on_keeps_latest<T>(
    r: Records<T>,
    tick: int,
    slot: Option<T>,
    removed: bool,
    t: int,
)
    requires
        r.valid(),
        r.disjoint(),
        r.capacity >= 2,
        r.slots.len() > 0,
        r.last < tick,
        tick - r.capacity < t < tick,
        r.reaches(t) || (r.tidy() && (r.slots.len() == 64 || r.filled(tick).pushed(
            tick,
            slot,
            removed,
        ).slots.len() < 64)),
        !(slot is Some && removed),
    ensures
        r.filled(tick).pushed(tick, slot, removed).latest(t) == r.latest(t),
{
    let f = r.filled(tick);
    if r.reaches(t) {
        filling_keeps_record(r, tick, t);
        pushing_keeps_latest(f, tick, slot, removed, t);
    } else {
        tidy_is_bare(r, t);
        filling_keeps_bare(r, tick, t);
        pushing_keeps_bare(f, tick, slot, removed, t);
        bare_latest(r, t);
        bare_latest(f.pushed(tick, slot, removed), t);
    }
}

/// Filling the ticks up to another one makes the window longer, as far as there is room.
pub proof fn filled_len<T>(r: Records<T>, tick: int)
    requires
        r.valid(),
        r.slots.len() > 0,
        r.last < tick,
    ensures
        r.filled(tick).last == tick - 1,
        r.filled(tick).slots.len() == if r.slots.len() + (tick - 1 - r.last) < r.capacity {
            r.slots.len() + (tick - 1 - r.last)
        } else {
            r.capacity
        },
{
    let gap = tick - 1 - r.last;
    if 0 < gap < r.capacity && r.slots.len() > r.capacity - gap {
        carried_shape(r, r.capacity - gap);
    }
}

/// Filling the ticks up to another one moves the window on to the tick before it, and keeps what was
/// latest at every tick of the window: the newest record that leaves the window is kept at its oldest
/// tick. Where no record is held, the window does not grow to 64 ticks.
pub proof fn filling_keeps_latest<T>(r: Records<T>, tick: int, t: int)
    requires
        r.valid(),
        r.disjoint(),
        r.capacity >= 2,
        r.slots.len() > 0,
        r.last < tick,
        r.filled(tick).last - r.filled(tick).slots.len() < t < tick,
        r.reaches(t) || (r.tidy() && (r.slots.len() == 64 || r.filled(tick).slots.len() < 64)),
    ensures
        r.filled(tick).last == tick - 1,
        r.filled(tick).slots.len() == if r.slots.len() + (tick - 1 - r.last) < r.capacity {
            r.slots.len() + (tick - 1 - r.last)
        } else {
            r.capacity
        },
        r.filled(tick).latest(t) == r.latest(t),
{
    let f = r.filled(tick);
    filled_len(r, tick);
    filled_shape(r, tick);
    if r.reaches(t) {
        filling_keeps_record(r, tick, t);
    } else {
        tidy_is_bare(r, t);
        filling_keeps_bare(r, tick, t);
        bare_latest(r, t);
        bare_latest(f, t);
    }
}

/// Where all removals lie within the window, there is a record at or before a tick, or there is none
/// at all.
proof fn tidy_is_bare<T>(r: Records<T>, t: int)
    requires
        r.valid(),
        r.tidy(),
        !r.reaches(t),
    ensures
        r.bare(t),
{
    nearest(r, r.ago(t));
    assert forall|ago: int| r.ago(t) <= ago implies !#[trigger] r.known().contains(ago) by {
        if r.known().contains(ago) {
            assert(r.items().contains(ago) || r.removed.contains(ago));
            assert(ago < r.slots.len());
        }
    }
}

/// What is latest where no record is held.
proof fn bare_latest<T>(r: Records<T>, t: int)
    requires
        r.valid(),
        r.bare(t),
    ensures
        r.latest(t) == if r.slots.len() == 64 && r.ago(t) < 64 {
            TickData::<T>::Removed
        } else {
            TickData::Missing
        },
{
    let from = r.ago(t);
    if from < r.slots.len() {
        nearest(r, from);
        assert(!r.known().contains(records::first_from(r.items(), from)));
        assert(!r.known().contains(records::first_from(r.removed, from)));
    }
}

/// Filling the ticks between brings no record to ticks that have none.
proof fn filling_keeps_bare<T>(r: Records<T>, tick: int, t: int)
    requires
        r.valid(),
        r.bare(t),
        r.capacity >= 2,
        r.slots.len() > 0,
        r.last < tick,
        tick - r.capacity <= t < tick,
    ensures
        r.filled(tick).bare(t),
        r.filled(tick).valid(),
        r.filled(tick).last == tick - 1,
        r.filled(tick).capacity == r.capacity,
        r.filled(tick).slots.len() >= r.slots.len(),
{
    let f = r.filled(tick);
    let gap = tick - 1 - r.last;
    filled_shape(r, tick);
    if gap >= r.capacity {
        nearest(r, 0);
        assert(!r.known().contains(records::first_from(r.items(), 0)));
        assert(!r.known().contains(records::first_from(r.removed, 0)));
        assert forall|ago: int| f.ago(t) <= ago implies !#[trigger] f.known().contains(ago) by {
            assert(!f.items().contains(ago));
            assert(!r.known().contains(ago));
        }
    } else if gap > 0 {
        let kept = r.capacity - gap;
        let over = r.slots.len() > kept;
        if over {
            nearest(r, kept);
            assert(!r.known().contains(records::first_from(r.items(), kept)));
            assert(!r.known().contains(records::first_from(r.removed, kept)));
            assert(r.carried(kept) == r);
        }
        assert forall|ago: int| f.ago(t) <= ago implies !#[trigger] f.known().contains(ago) by {
            assert(!r.known().contains(ago - gap));
            if f.items().contains(ago) {
                assert(f.slot(ago) == if ago >= gap {
                    r.slot(ago - gap)
                } else {
                    None
                });
                assert(r.items().contains(ago - gap));
            }
        }
    }
}

/// Moving on by one tick brings no record to ticks before that have none.
proof fn pushing_keeps_bare<T>(
    r: Records<T>,
    tick: int,
    slot: Option<T>,
    removed: bool,
    t: int,
)
    requires
        r.valid(),
        r.bare(t),
        r.capacity >= 2,
        r.slots.len() > 0,
        r.last == tick - 1,
        tick - r.capacity < t < tick,
    ensures
        r.pushed(tick, slot, removed).bare(t),
        r.pushed(tick, slot, removed).valid(),
        r.pushed(tick, slot, removed).slots.len() >= r.slots.len(),
{
    let p = r.pushed(tick, slot, removed);
    if r.slots.len() == r.capacity {
        assert(!r.known().contains(r.slots.len() - 1));
        assert(r.trimmed() == r);
    }
    assert forall|ago: int| p.ago(t) <= ago implies !#[trigger] p.known().contains(ago) by {
        assert(!r.known().contains(ago - 1));
        if p.items().contains(ago) {
            assert(p.slot(ago) == r.slot(ago - 1));
            assert(r.items().contains(ago - 1));
        }
    }
}

/// The first half of moving on: the ticks between get no record.
proof fn filling_keeps_record<T>(r: Records<T>, tick: int, t: int)
    requires
        r.valid(),
        r.disjoint(),
        r.capacity >= 2,
        r.slots.len() > 0,
        r.last < tick,
        tick - r.capacity <= t < tick,
        r.reaches(t),
    ensures
        r.filled(tick).latest(t) == r.latest(t),
        r.filled(tick).reaches(t),
        r.filled(tick).valid(),
        r.filled(tick).disjoint(),
        r.filled(tick).last == tick - 1,
        r.filled(tick).capacity == r.capacity,
        r.filled(tick).slots.len() > 0,
{
    filled_shape(r, tick);
    let gap = tick - 1 - r.last;
    let k = records::first_from(r.known(), r.ago(t));
    nearest(r, r.ago(t));
    latest_at(r, t, k);
    if gap >= r.capacity {
        far_keeps_latest(r, tick, t);
    } else if gap > 0 {
        near_keeps_latest(r, tick, t);
    }
}

proof fn far_keeps_latest<T>(r: Records<T>, tick: int, t: int)
    requires
        r.valid(),
        r.disjoint(),
        r.capacity >= 2,
        r.slots.len() > 0,
        tick - 1 - r.last >= r.capacity,
        tick - r.capacity <= t < tick,
        r.reaches(t),
    ensures
        r.filled(tick).latest(t) == r.latest(t),
        r.filled(tick).reaches(t),
        r.filled(tick).disjoint(),
{
    let f = r.filled(tick);
    let cap = r.capacity;
    nearest(r, 0);
    assert(r.ago(t) == 0);
    let i = records::first_from(r.items(), 0);
    let d = records::first_from(r.removed, 0);
    let k = records::first_from(r.known(), 0);
    latest_at(r, t, k);
    assert(f.slots.len() == cap);
    assert forall|a: int| #[trigger] f.items().contains(a) <==> a == cap - 1 && i < d by {
        if a == cap - 1 && i >= d {
            // the removal is the newer record
            if r.items().contains(0) {
                records::first_from_unique(r.items(), 0, 0);
            }
            assert(r.slots.last() == r.slot(0));
        }
    }
    assert(f.known().contains(cap - 1));
    latest_at(f, t, cap - 1);
}

proof fn near_keeps_latest<T>(r: Records<T>, tick: int, t: int)
    requires
        r.valid(),
        r.disjoint(),
        r.slots.len() > 0,
        0 < tick - 1 - r.last < r.capacity,
        tick - r.capacity <= t < tick,
        r.reaches(t),
    ensures
        r.filled(tick).latest(t) == r.latest(t),
        r.filled(tick).reaches(t),
        r.filled(tick).disjoint(),
{
    let f = r.filled(tick);
    let gap = tick - 1 - r.last;
    let kept = r.capacity - gap;
    let over = r.slots.len() > kept;
    let ready = if over {
        r.carried(kept)
    } else {
        r
    };
    if over {
        carrying_keeps_latest(r, kept, t);
    } else {
        latest_here(r, t);
    }
    // from here on, every record moves up by the gap
    let len = ready.slots.len();
    let held = if over {
        kept
    } else {
        len as int
    };
    assert(f.slots.len() == held + gap);
    assert forall|a: int| 0 <= a < f.slots.len() implies f.slot(a) == (if a >= gap {
        ready.slot(a - gap)
    } else {
        None
    }) by {}
    assert forall|a: int| #[trigger] f.items().contains(a) implies a >= gap
        && ready.items().contains(a - gap) && a < f.slots.len() by {}
    let k = records::first_from(ready.known(), ready.ago(t));
    nearest(ready, ready.ago(t));
    latest_at(ready, t, k);
    let a = k + gap;
    assert(f.known().contains(a)) by {
        if ready.items().contains(k) {
            assert(f.slot(a) == ready.slot(k));
            assert(f.items().contains(a));
        } else {
            assert(f.removed.contains(a));
        }
    }
    assert forall|x: int| f.ago(t) <= x < a implies !#[trigger] f.known().contains(x) by {
        if f.known().contains(x) {
            if f.items().contains(x) {
                assert(ready.known().contains(x - gap));
            } else {
                assert(ready.removed.contains(x - gap));
                assert(ready.known().contains(x - gap));
            }
        }
    }
    assert forall|x: int| !(#[trigger] f.items().contains(x) && f.removed.contains(x)) by {
        if f.items().contains(x) {
            assert(ready.items().contains(x - gap));
        }
    }
    latest_at(f, t, a);
}

/// Where something is known in the window, the latest is given by the nearest record.
proof fn latest_here<T>(r: Records<T>, t: int)
    requires
        r.valid(),
        r.disjoint(),
        r.reaches(t),
    ensures
        ({
            let k = records::first_from(r.known(), r.ago(t));
            &&& r.ago(t) <= k < r.slots.len()
            &&& r.known().contains(k)
            &&& r.latest(t) == r.at(r.last - k)
        }),
{
    nearest(r, r.ago(t));
    latest_at(r, t, records::first_from(r.known(), r.ago(t)));
}

/// Carrying the newest record over keeps what is latest at the ticks that stay, and leaves the
/// record that decides it among them.
proof fn carrying_keeps_latest<T>(r: Records<T>, kept: int, t: int)
    requires
        r.valid(),
        r.disjoint(),
        0 < kept < r.slots.len(),
        r.ago(t) < kept,
        r.reaches(t),
    ensures
        r.carried(kept).latest(t) == r.latest(t),
        r.carried(kept).reaches(t),
        r.carried(kept).valid(),
        r.carried(kept).disjoint(),
        records::first_from(r.carried(kept).known(), r.ago(t)) < kept,
        r.carried(kept).slots.len() == r.slots.len(),
        r.carried(kept).last == r.last,
{
    carried_shape(r, kept);
    let c = r.carried(kept);
    let k = records::first_from(r.known(), r.ago(t));
    nearest(r, r.ago(t));
    latest_at(r, t, k);
    nearest(r, kept);
    let i = records::first_from(r.items(), kept);
    let d = records::first_from(r.removed, kept);
    if r.known().contains(kept - 1) {
        assert(k <= kept - 1);
    } else if k >= kept {
        records::first_from_unique(r.known(), kept, k);
        assert(i < 64 || d < 64);
        if i < d {
            item_moved_sets(r, i, kept - 1);
            assert(c.known().contains(kept - 1));
            assert forall|x: int| c.ago(t) <= x < kept - 1 implies !#[trigger] c.known().contains(
                x,
            ) by {
                assert(!r.known().contains(x));
            }
            latest_at(c, t, kept - 1);
            records::first_from_unique(c.known(), c.ago(t), kept - 1);
        } else {
            assert(c.items() =~= r.items());
            assert(c.known().contains(kept - 1));
            assert forall|x: int| c.ago(t) <= x < kept - 1 implies !#[trigger] c.known().contains(
                x,
            ) by {
                assert(!r.known().contains(x));
            }
            latest_at(c, t, kept - 1);
            records::first_from_unique(c.known(), c.ago(t), kept - 1);
        }
    } else {
        // the deciding record stays where it is
        if i >= 64 && d >= 64 {
        } else if i < d {
            item_moved_sets(r, i, kept - 1);
        } else {
            assert(c.items() =~= r.items());
        }
        assert(c.known().contains(k));
        assert(c.removed.contains(k) == r.removed.contains(k));
        assert(c.slot(k) == r.slot(k));
        assert forall|x: int| c.ago(t) <= x < k implies !#[trigger] c.known().contains(x) by {
            assert(!r.known().contains(x));
        }
        latest_at(c, t, k);
        records::first_from_unique(c.known(), c.ago(t), k);
    }
}

/// The values after one was moved to a free slot.
proof fn item_moved_sets<T>(r: Records<T>, from: int, to: int)
    requires
        0 <= to < from < r.slots.len(),
        r.items().contains(from),
        !r.known().contains(to),
    ensures
        r.item_moved(from, to).items() == r.items().remove(from).insert(to),
        r.item_moved(from, to).slot(to) == r.slot(from),
        r.item_moved(from, to).slots.len() == r.slots.len(),
        forall|a: int|
            0 <= a < r.slots.len() && a != from && a != to ==> #[trigger] r.item_moved(
                from,
                to,
            ).slot(a) == r.slot(a),
{
    let m = r.item_moved(from, to);
    assert(m.items() =~= r.items().remove(from).insert(to));
}

/// The second half of moving on: one tick further.
proof fn pushing_keeps_latest<T>(
    r: Records<T>,
    tick: int,
    slot: Option<T>,
    removed: bool,
    t: int,
)
    requires
        r.valid(),
        r.disjoint(),
        r.capacity >= 2,
        r.slots.len() > 0,
        r.last == tick - 1,
        tick - r.capacity < t < tick,
        r.reaches(t),
        !(slot is Some && removed),
    ensures
        r.pushed(tick, slot, removed).latest(t) == r.latest(t),
{
    let p = r.pushed(tick, slot, removed);
    let full = r.slots.len() == r.capacity;
    let ready = if full {
        r.trimmed()
    } else {
        r
    };
    latest_here(r, t);
    if full {
        trimming_keeps_latest(r, t);
    }
    let k = records::first_from(ready.known(), ready.ago(t));
    nearest(ready, ready.ago(t));
    latest_at(ready, t, k);
    let held = if full {
        r.slots.len() - 1
    } else {
        r.slots.len() as int
    };
    assert(ready.slots.len() == r.slots.len());
    assert(p.slots.len() == held + 1);
    assert forall|a: int| 1 <= a < p.slots.len() implies p.slot(a) == ready.slot(a - 1) by {}
    assert(p.slot(0) == slot);
    assert(p.known().contains(k + 1)) by {
        if ready.items().contains(k) {
            assert(p.slot(k + 1) == ready.slot(k));
            assert(p.items().contains(k + 1));
        } else {
            assert(p.removed.contains(k + 1));
        }
    }
    assert forall|x: int| p.ago(t) <= x < k + 1 implies !#[trigger] p.known().contains(x) by {
        if p.known().contains(x) {
            if p.items().contains(x) {
                assert(p.slot(x) == ready.slot(x - 1));
                assert(ready.items().contains(x - 1));
            } else {
                assert(ready.removed.contains(x - 1));
            }
            assert(ready.known().contains(x - 1));
        }
    }
    assert forall|x: int| !(#[trigger] p.items().contains(x) && p.removed.contains(x)) by {
        if p.items().contains(x) && x > 0 {
            assert(p.slot(x) == ready.slot(x - 1));
            assert(ready.items().contains(x - 1));
        }
    }
    assert forall|x: int| #[trigger] p.removed.contains(x) implies 0 <= x < 64 by {}
    latest_at(p, t, k + 1);
}

proof fn trimming_keeps_latest<T>(r: Records<T>, t: int)
    requires
        r.valid(),
        r.disjoint(),
        r.slots.len() >= 2,
        r.ago(t) < r.slots.len() - 1,
        r.reaches(t),
    ensures
        r.trimmed().latest(t) == r.latest(t),
        r.trimmed().reaches(t),
        r.trimmed().valid(),
        r.trimmed().disjoint(),
        records::first_from(r.trimmed().known(), r.ago(t)) < r.slots.len() - 1,
        r.trimmed().slots.len() == r.slots.len(),
        r.trimmed().last == r.last,
{
    let front = r.slots.len() - 1;
    let c = r.trimmed();
    trimmed_shape(r);
    let k = records::first_from(r.known(), r.ago(t));
    nearest(r, r.ago(t));
    latest_at(r, t, k);
    if r.known().contains(front - 1) {
        assert(k <= front - 1);
    } else if r.items().contains(front) {
        item_moved_sets(r, front, front - 1);
        let n = if k < front {
            k
        } else {
            front - 1
        };
        assert(c.known().contains(n));
        assert forall|x: int| c.ago(t) <= x < n implies !#[trigger] c.known().contains(x) by {
            assert(!r.known().contains(x));
        }
        latest_at(c, t, n);
        records::first_from_unique(c.known(), c.ago(t), n);
    } else if r.removed.contains(front) {
        assert(c.items() =~= r.items());
        let n = if k < front {
            k
        } else {
            front - 1
        };
        assert(c.known().contains(n));
        assert forall|x: int| c.ago(t) <= x < n implies !#[trigger] c.known().contains(x) by {
            assert(!r.known().contains(x));
        }
        latest_at(c, t, n);
        records::first_from_unique(c.known(), c.ago(t), n);
    } else {
        assert(k < front);
    }
}

/// Dropping the ticks after `until` leaves what is recorded up to it, and nothing after it.
pub proof fn clean_keeps_up_to<T>(r: Records<T>, until: int, t: int)
    requires
        r.valid(),
        until < r.last,
    ensures
        r.cleaned(until).last == until,
        t <= until ==> r.cleaned(until).at(t) == r.at(t),
        t > until ==> r.cleaned(until).at(t) is Missing,
{
    let c = r.cleaned(until);
    let to_drop = r.last - until;
    if to_drop < r.slots.len() && t <= until {
        let a = until - t;
        if a < c.slots.len() {
            assert(c.slot(a) == r.slot(a + to_drop));
            assert(c.removed.contains(a) == r.removed.contains(a + to_drop));
        }
    }
}

/// Dropping the ticks after `until` keeps what is latest up to it. Where no record is held at or before
/// the tick, the window has fewer than 64 ticks.
pub proof fn clean_keeps_latest<T>(r: Records<T>, until: int, t: int)
    requires
        r.valid(),
        r.disjoint(),
        t <= until < r.last,
        r.reaches(t) || (r.tidy() && r.slots.len() < 64),
    ensures
        r.cleaned(until).latest(t) == r.latest(t),
{
    if r.reaches(t) {
        cleaning_keeps_record(r, until, t);
    } else {
        tidy_is_bare(r, t);
        bare_latest(r, t);
        let c = r.cleaned(until);
        let to_drop = r.last - until;
        if to_drop < r.slots.len() {
            assert forall|ago: int| c.ago(t) <= ago implies !#[trigger] c.known().contains(ago) by {
                assert(!r.known().contains(ago + to_drop));
                if c.items().contains(ago) {
                    assert(c.slot(ago) == r.slot(ago + to_drop));
                    assert(r.items().contains(ago + to_drop));
                }
            }
            bare_latest(c, t);
        }
    }
}

proof fn cleaning_keeps_record<T>(r: Records<T>, until: int, t: int)
    requires
        r.valid(),
        r.disjoint(),
        t <= until < r.last,
        r.reaches(t),
    ensures
        r.cleaned(until).latest(t) == r.latest(t),
{
    let c = r.cleaned(until);
    let to_drop = r.last - until;
    latest_here(r, t);
    nearest(r, r.ago(t));
    let k = records::first_from(r.known(), r.ago(t));
    latest_at(r, t, k);
    assert(to_drop < r.slots.len());
    assert forall|a: int| 0 <= a < c.slots.len() implies #[trigger] c.slot(a) == r.slot(
        a + to_drop,
    ) by {}
    assert forall|a: int| #[trigger] c.items().contains(a) <==> 0 <= a && r.items().contains(
        a + to_drop,
    ) by {
        if 0 <= a < c.slots.len() {
            assert(c.slot(a) == r.slot(a + to_drop));
        }
    }
    assert(c.known().contains(k - to_drop)) by {
        if r.items().contains(k) {
            assert(c.items().contains(k - to_drop));
        } else {
            assert(c.removed.contains(k - to_drop));
        }
    }
    assert forall|x: int| c.ago(t) <= x < k - to_drop implies !#[trigger] c.known().contains(x) by {
        assert(!r.known().contains(x + to_drop));
    }
    assert(c.slot(k - to_drop) == r.slot(k));
    latest_at(c, t, k - to_drop);
}

/// Nothing is recorded before the first tick.
pub proof fn nothing_before_first<T>(r: Records<T>, t: int)
    requires
        r.valid(),
        0 <= t < r.first(),
    ensures
        r.at(t) is Missing,
{
    records::last_below_spec(r.known(), 64);
    let a = r.last - t;
    if 0 <= a < r.slots.len() {
        assert(!r.known().contains(a));
        assert(!r.items().contains(a));
    }
}

/// The ticks that count as empty after a tick have no record.
pub proof fn empty_after_is_empty<T>(r: Records<T>, tick: int, t: int)
    requires
        r.valid(),
        tick < t <= tick + r.empty_after(tick),
        r.last - tick < r.slots.len(),
        tick < r.last,
    ensures
        r.at(t) is Missing,
{
    let ago = r.last - tick;
    records::last_below_spec(r.known(), ago);
    let a = r.last - t;
    assert(!r.known().contains(a));
    assert(!r.items().contains(a));
}

/// After the first value was kept, the last tick is that of the first value, and it is still
/// held there.
pub proof fn first_value_is_kept<T>(r: Records<T>)
    requires
        r.valid(),
        r.disjoint(),
        0 <= records::last_below(r.items(), 64) <= r.last,
    ensures
        ({
            let ago = records::last_below(r.items(), 64);
            &&& r.first_kept().last == r.last - ago
            &&& r.first_kept().at(r.last - ago) == TickData::Value(r.slot(ago)->0)
        }),
{
    let ago = records::last_below(r.items(), 64);
    records::last_below_spec(r.items(), 64);
    assert(r.items().contains(ago));
    if ago > 0 {
        clean_keeps_up_to(r, r.last - ago, r.last - ago);
    }
}

/// The first tick has a record, where anything is recorded.
pub proof fn first_is_recorded<T>(r: Records<T>, t: int)
    requires
        r.valid(),
        r.tidy(),
        r.slots.len() <= r.last + 1,
        r.at(t) !is Missing,
    ensures
        r.at(r.first()) !is Missing,
        r.first() <= t,
{
    records::last_below_spec(r.known(), 64);
    let a = r.last - t;
    assert(r.known().contains(a)) by {
        if !r.removed.contains(a) {
            assert(r.items().contains(a));
        }
    }
    let ago = records::last_below(r.known(), 64);
    assert(r.known().contains(ago));
    assert(r.items().contains(ago) || r.removed.contains(ago));
}

/// The ticks that count as empty after a tick end at the next record or at the last tick.
pub proof fn empty_after_ends<T>(r: Records<T>, tick: int)
    requires
        r.valid(),
        r.tidy(),
        0 < r.last - tick < r.slots.len(),
    ensures
        0 <= r.empty_after(tick) < r.last - tick + 1,
        r.empty_after(tick) < r.last - tick ==> r.at(tick + r.empty_after(tick) + 1) !is Missing,
{
    let ago = r.last - tick;
    records::last_below_spec(r.known(), ago);
    let k = records::last_below(r.known(), ago);
    if k >= 0 {
        assert(r.items().contains(k) || r.removed.contains(k));
    }
}

/// The window grows with what is recorded, up to what it can hold: after a record at a later tick it
/// ends there, and reaches back to where it began, or as far as it can.
pub proof fn recorded_len<T>(r: Records<T>, tick: int, slot: Option<T>, removed: bool)
    requires
        r.valid(),
        r.capacity >= 2,
        r.slots.len() > 0,
        r.last < tick,
    ensures
        ({
            let after = r.filled(tick).pushed(tick, slot, removed);
            &&& after.last == tick
            &&& after.capacity == r.capacity
            &&& after.slots.len() == if r.slots.len() + (tick - r.last) < r.capacity {
                r.slots.len() + (tick - r.last)
            } else {
                r.capacity
            }
        }),
{
    filled_len(r, tick);
    filled_shape(r, tick);
    trimmed_shape(r.filled(tick));
}

/// From the last tick on no record follows for as many ticks as a window can hold at most; where there is
/// no window, nothing is known to follow.
pub proof fn nothing_follows_the_last<T>(r: Records<T>, tick: int)
    requires
        r.valid(),
    ensures
        r.slots.len() > 0 && tick >= r.last ==> r.empty_after(tick) == 64,
        r.slots.len() == 0 ==> r.empty_after(tick) == 0,
        r.slots.len() > 0 && tick < r.last ==> r.empty_after(tick) < r.slots.len(),
{
    if r.slots.len() > 0 && tick < r.last {
        let ago = if r.last - tick < r.slots.len() {
            r.last - tick
        } else {
            r.slots.len() - 1
        };
        records::last_below_spec(r.known(), ago);
    }
}

proof fn filling_leaves_records<T>(r: Records<T>, tick: int, t: int)
    requires
        r.valid(),
        r.tidy(),
        r.slots.len() > 0,
        r.last < tick,
        tick - r.capacity < t < tick,
    ensures
        r.filled(tick).at(t) == r.at(t),
{
    let f = r.filled(tick);
    let gap = tick - 1 - r.last;
    records::first_from_spec(r.items(), 0);
    records::first_from_spec(r.removed, 0);
    if gap <= 0 {
    } else if gap >= r.capacity {
        let a = tick - 1 - t;
        if a < f.slots.len() {
            assert(f.slot(a) is None);
        }
        assert(!f.removed.contains(a));
    } else {
        let kept = r.capacity - gap;
        let ready = if r.slots.len() > kept {
            r.carried(kept)
        } else {
            r
        };
        records::first_from_spec(r.items(), kept);
        records::first_from_spec(r.removed, kept);
        let a = r.last - t;
        if a < 0 {
            if a + gap < f.slots.len() {
                assert(f.slot(a + gap) is None);
            }
            assert(!f.removed.contains(a + gap));
        } else if a < r.slots.len() {
            assert(a < kept - 1);
            assert(f.slot(a + gap) == ready.slot(a));
            assert(ready.slot(a) == r.slot(a));
            assert(f.removed.contains(a + gap) == ready.removed.contains(a));
            assert(ready.removed.contains(a) == r.removed.contains(a));
        } else {
            assert(!(r.slots.len() > kept));
        }
    }
}

proof fn pushing_leaves_records<T>(
    r: Records<T>,
    tick: int,
    slot: Option<T>,
    removed: bool,
    t: int,
)
    requires
        r.valid(),
        r.capacity >= 2,
        r.last == tick - 1,
        tick - r.capacity + 1 < t < tick,
    ensures
        r.pushed(tick, slot, removed).at(t) == r.at(t),
{
    let p = r.pushed(tick, slot, removed);
    let a = r.last - t;
    let ready = if r.slots.len() == r.capacity {
        r.trimmed()
    } else {
        r
    };
    if a < r.slots.len() {
        assert(a < r.capacity - 2);
        assert(p.slot(a + 1) == ready.slot(a));
        assert(ready.slot(a) == r.slot(a));
        assert(p.removed.contains(a + 1) == ready.removed.contains(a));
        assert(ready.removed.contains(a) == r.removed.contains(a));
    } else {
        assert(!(a + 1 < p.slots.len()));
    }
}

/// Moving on leaves what is recorded at the ticks that stay in the window, and records nothing at the ticks
/// between; only at the oldest tick that stays, the newest record that leaves is kept.
pub proof fn moving_on_leaves_records<T>(
    r: Records<T>,
    tick: int,
    item: T,
    t: int,
)
    requires
        r.valid(),
        r.tidy(),
        r.capacity >= 2,
        r.slots.len() > 0,
        r.last < tick,
        tick - r.capacity + 1 < t < tick,
    ensures
        r.written(tick, item).at(t) == r.at(t),
        r.marked(tick).at(t) == r.at(t),
        r.written(tick, item).last == tick,
        r.marked(tick).last == tick,
        t > r.last ==> r.written(tick, item).at(t) is Missing && r.marked(tick).at(t) is Missing,
{
    filling_leaves_records(r, tick, t);
    filled_len(r, tick);
    filled_shape(r, tick);
    let f = r.filled(tick);
    pushing_leaves_records(f, tick, Some(item), false, t);
    pushing_leaves_records(f, tick, None, true, t);
}

/// What was latest at a tick stays so when a later tick is written or marked as removed, for as long as
/// the tick lies in the window.
pub proof fn later_ticks_keep_latest<T>(r: Records<T>, tick: int, item: T, t: int)
    requires
        r.valid(),
        r.disjoint(),
        r.capacity >= 2,
        r.slots.len() > 0,
        r.last < tick,
        tick - r.capacity < t < tick,
        r.reaches(t) || (r.tidy() && (r.slots.len() == 64 || r.capacity < 64)),
    ensures
        r.written(tick, item).latest(t) == r.latest(t),
        r.marked(tick).latest(t) == r.latest(t),
{
    if !r.reaches(t) && r.slots.len() < 64 {
        filled_len(r, tick);
        filled_shape(r, tick);
    }
    moving_on_keeps_latest(r, tick, Some(item), false, t);
    moving_on_keeps_latest(r, tick, None, true, t);
}

} // verus!
