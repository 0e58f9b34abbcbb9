//! What a component history holds, and what its operations make of it.
use super::blob_deque::Ring;
use super::sparse_blob_deque;
use super::tick_data::TickData;
use crate::bits;

use vstd::prelude::*;

verus! {

/// The first element of `s` at or after `from`; 64 when there is none below 64.
pub open spec fn first_from(s: Set<int>, from: int) -> int
    decreases 64 - from,
{
    if from >= 64 {
        64
    } else if s.contains(from) {
        from
    } else {
        first_from(s, from + 1)
    }
}

/// The last element of `s` below `n`; -1 when there is none from 0.
pub open spec fn last_below(s: Set<int>, n: int) -> int
    decreases n,
{
    if n <= 0 {
        -1
    } else if s.contains(n - 1) {
        n - 1
    } else {
        last_below(s, n - 1)
    }
}

/// Every element of `s` moved up by `n`; what passes 64 is lost.
pub open spec fn later(s: Set<int>, n: int) -> Set<int> {
    Set::new(|i: int| 0 <= i < 64 && s.contains(i - n))
}

/// Every element of `s` moved down by `n`; what passes 0 is lost.
pub open spec fn earlier(s: Set<int>, n: int) -> Set<int> {
    Set::new(|i: int| 0 <= i && s.contains(i + n))
}

/// The positions of the set bits of a mask.
pub open spec fn positions(m: u64) -> Set<int> {
    Set::new(|i: int| bits::bit(m, i))
}

pub proof fn first_from_spec(s: Set<int>, from: int)
    requires
        0 <= from <= 64,
    ensures
        from <= first_from(s, from) <= 64,
        first_from(s, from) < 64 ==> s.contains(first_from(s, from)),
        forall|i: int| from <= i < first_from(s, from) ==> !#[trigger] s.contains(i),
    decreases 64 - from,
{
    if from < 64 && !s.contains(from) {
        first_from_spec(s, from + 1);
    }
}

pub proof fn first_from_unique(s: Set<int>, from: int, p: int)
    requires
        0 <= from <= p <= 64,
        p < 64 ==> s.contains(p),
        forall|i: int| from <= i < p ==> !#[trigger] s.contains(i),
    ensures
        first_from(s, from) == p,
    decreases p - from,
{
    if from < p {
        first_from_unique(s, from + 1, p);
    }
}

pub proof fn last_below_spec(s: Set<int>, n: int)
    requires
        0 <= n,
    ensures
        -1 <= last_below(s, n) < n,
        last_below(s, n) >= 0 ==> s.contains(last_below(s, n)),
        forall|i: int| last_below(s, n) < i < n ==> !#[trigger] s.contains(i),
    decreases n,
{
    if n > 0 && !s.contains(n - 1) {
        last_below_spec(s, n - 1);
    }
}

/// The lowest set bit is the first position.
pub proof fn first_position(m: u64, from: int)
    requires
        0 <= from <= 64,
    ensures
        first_from(positions(m), from) == bits::lowest_from(m, from),
    decreases 64 - from,
{
    if from < 64 {
        first_position(m, from + 1);
    }
}

/// The highest set bit is the last position.
pub proof fn last_position(m: u64, n: int)
    requires
        0 <= n <= 64,
    ensures
        last_below(positions(m), n) == bits::highest_below(m, n),
    decreases n,
{
    if n > 0 {
        last_position(m, n - 1);
    }
}

/// What a history holds of one component: a window of ticks up to the last one.
#[verifier::ext_equal]
pub struct Records<T> {
    /// The ticks of the window, oldest first, with the values written there
    pub slots: Seq<Option<T>>,
    /// How long before the last tick the component was marked as removed
    pub removed: Set<int>,
    /// The last tick of the window
    pub last: int,
    /// The largest number of ticks in the window
    pub capacity: int,
}

impl<T> Records<T> {
    /// A history without any tick.
    pub open spec fn fresh(capacity: int) -> Records<T> {
        Records { slots: Seq::empty(), removed: Set::empty(), last: 0, capacity }
    }

    /// How long before the last tick values were written.
    pub open spec fn items(self) -> Set<int> {
        Set::new(
            |ago: int|
                0 <= ago < self.slots.len() && self.slots[self.slots.len() - 1 - ago] is Some,
        )
    }

    /// How long before the last tick there is a value or a removal.
    pub open spec fn known(self) -> Set<int> {
        self.items().union(self.removed)
    }

    /// The slot of the tick `ago` before the last.
    pub open spec fn slot(self, ago: int) -> Option<T> {
        self.slots[self.slots.len() - 1 - ago]
    }

    /// What was recorded at a tick.
    pub open spec fn at(self, tick: int) -> TickData<T> {
        let ago = self.last - tick;
        if ago < 0 || ago >= self.slots.len() {
            TickData::Missing
        } else if self.removed.contains(ago) {
            TickData::Removed
        } else {
            match self.slot(ago) {
                Some(item) => TickData::Value(item),
                None => TickData::Missing,
            }
        }
    }

    /// The newest record at or before a tick, ticks after the last being taken for the last.
    ///
    /// A removal counts up to one tick past the window. A full window of 64 ticks without any
    /// record at or before the tick reads as removed.
    pub open spec fn latest(self, tick: int) -> TickData<T> {
        let ago = if tick >= self.last {
            0
        } else {
            self.last - tick
        };
        let removed_ago = first_from(self.removed, ago);
        let item_ago = first_from(self.items(), ago);
        if ago >= self.slots.len() {
            TickData::Missing
        } else if removed_ago > self.slots.len() && item_ago > self.slots.len() {
            TickData::Missing
        } else if removed_ago <= item_ago {
            TickData::Removed
        } else {
            TickData::Value(self.slot(item_ago)->0)
        }
    }

    /// The tick of the oldest record, or the last tick without one.
    pub open spec fn first(self) -> int {
        let ago = last_below(self.known(), 64);
        if ago <= 0 {
            self.last
        } else if ago > self.last {
            0
        } else {
            self.last - ago
        }
    }

    /// How many ticks after `tick` follow without a record, within the window. At or after the
    /// last tick this is 64; for an empty window it is 0.
    pub open spec fn empty_after(self, tick: int) -> int {
        if self.slots.len() == 0 {
            0
        } else if tick >= self.last {
            64
        } else {
            let ago = if self.last - tick < self.slots.len() {
                self.last - tick
            } else {
                self.slots.len() - 1
            };
            ago - 1 - last_below(self.known(), ago)
        }
    }

    /// The value `from` before the last tick moved to the slot `to` before it.
    pub open spec fn item_moved(self, from: int, to: int) -> Records<T> {
        Records {
            slots: self.slots.update(self.slots.len() - 1 - to, self.slot(from)).update(
                self.slots.len() - 1 - from,
                None,
            ),
            ..self
        }
    }

    /// The removal `from` before the last tick moved to `to` before it.
    pub open spec fn removal_moved(self, from: int, to: int) -> Records<T> {
        Records { removed: self.removed.remove(from).insert(to), ..self }
    }

    /// The newest record that is about to leave the window moved to the oldest tick that stays,
    /// `kept` being the number of ticks that stay. Nothing moves where that tick has a record.
    pub open spec fn carried(self, kept: int) -> Records<T> {
        let item_ago = first_from(self.items(), kept);
        let removed_ago = first_from(self.removed, kept);
        if self.known().contains(kept - 1) || (item_ago >= 64 && removed_ago >= 64) {
            self
        } else if item_ago < removed_ago {
            self.item_moved(item_ago, kept - 1)
        } else {
            self.removal_moved(removed_ago, kept - 1)
        }
    }

    /// The window moved on to the tick before `tick`, without records for the ticks between.
    /// The newest record that leaves the window stays at its oldest tick.
    pub open spec fn filled(self, tick: int) -> Records<T> {
        let gap = tick - 1 - self.last;
        if self.slots.len() == 0 || gap <= 0 {
            self
        } else if gap >= self.capacity {
            let item_ago = first_from(self.items(), 0);
            let removed_ago = first_from(self.removed, 0);
            if item_ago >= 64 && removed_ago >= 64 {
                Records {
                    slots: sparse_blob_deque::gaps(self.capacity),
                    last: tick - 1,
                    ..self
                }
            } else {
                Records {
                    slots: seq![
                        if item_ago < removed_ago {
                            self.slot(item_ago)
                        } else {
                            self.slots.last()
                        },
                    ] + sparse_blob_deque::gaps(self.capacity - 1),
                    removed: if item_ago < removed_ago {
                        Set::empty()
                    } else {
                        set![self.capacity - 1]
                    },
                    last: tick - 1,
                    ..self
                }
            }
        } else {
            let kept = self.capacity - gap;
            let ready = if self.slots.len() > kept {
                self.carried(kept)
            } else {
                self
            };
            Records {
                slots: (if self.slots.len() > kept {
                    ready.slots.skip(ready.slots.len() - kept)
                } else {
                    ready.slots
                }) + sparse_blob_deque::gaps(gap),
                removed: later(ready.removed, gap),
                last: tick - 1,
                ..self
            }
        }
    }

    /// The oldest record moved one tick on where that tick has none, so that it outlives the
    /// oldest tick. A value goes before a removal.
    pub open spec fn trimmed(self) -> Records<T> {
        let front = self.slots.len() - 1;
        if self.known().contains(front - 1) {
            self
        } else if self.items().contains(front) {
            self.item_moved(front, front - 1)
        } else if self.removed.contains(front) {
            self.removal_moved(front, front - 1)
        } else {
            self
        }
    }

    /// The window moved on by one tick, to `tick`.
    pub open spec fn pushed(self, tick: int, slot: Option<T>, removed: bool) -> Records<T> {
        let ready = if self.slots.len() == self.capacity {
            self.trimmed()
        } else {
            self
        };
        Records {
            slots: (if self.slots.len() == self.capacity {
                ready.slots.drop_first()
            } else {
                ready.slots
            }).push(slot),
            removed: if removed {
                later(ready.removed, 1).insert(0)
            } else {
                later(ready.removed, 1)
            },
            last: tick,
            ..self
        }
    }

    /// The window opened at its front up to the slot `ago` before the last tick.
    pub open spec fn opened(self, ago: int) -> Records<T> {
        if ago >= self.slots.len() {
            Records {
                slots: sparse_blob_deque::gaps(ago - (self.slots.len() - 1)) + self.slots,
                ..self
            }
        } else {
            self
        }
    }

    /// A tick lies before what the window can hold.
    pub open spec fn refuses(self, tick: int) -> bool {
        self.slots.len() > 0 && self.last - tick >= self.capacity
    }

    /// What is held after a value was written at a tick. A tick before what the window can hold
    /// is not written.
    pub open spec fn written(self, tick: int, item: T) -> Records<T> {
        if self.slots.len() > 0 && tick <= self.last {
            let ago = self.last - tick;
            if ago >= self.capacity {
                self
            } else {
                let open = self.opened(ago);
                Records { slots: open.slots.update(open.slots.len() - 1 - ago, Some(item)), ..open }
            }
        } else {
            self.filled(tick).pushed(tick, Some(item), false)
        }
    }

    /// The ring of values after the window moved on to the tick before `tick`.
    pub open spec fn ring_filled(self, ring: Ring, tick: int) -> Ring {
        let gap = tick - 1 - self.last;
        if self.slots.len() == 0 || gap <= 0 {
            ring
        } else if gap >= self.capacity {
            let item_ago = first_from(self.items(), 0);
            let removed_ago = first_from(self.removed, 0);
            if item_ago >= 64 && removed_ago >= 64 {
                ring.cleared()
            } else {
                let ready = if item_ago < removed_ago && item_ago > 0 {
                    self.item_moved(item_ago, 0)
                } else {
                    self
                };
                sparse_blob_deque::ring_extended(
                    ring,
                    ready.slots,
                    self.capacity,
                    self.capacity - 1,
                )
            }
        } else {
            let kept = self.capacity - gap;
            let ready = if self.slots.len() > kept {
                self.carried(kept)
            } else {
                self
            };
            sparse_blob_deque::ring_extended(ring, ready.slots, self.capacity, gap)
        }
    }

    /// The ring of values after the window moved on by one tick.
    pub open spec fn ring_pushed(self, ring: Ring, has_item: bool) -> Ring {
        let ready = if self.slots.len() == self.capacity {
            self.trimmed()
        } else {
            self
        };
        sparse_blob_deque::ring_appended(ring, ready.slots, self.capacity, has_item)
    }

    /// The ring of values after a value was written at a tick.
    pub open spec fn ring_written(self, ring: Ring, tick: int) -> Ring {
        if self.slots.len() > 0 && tick <= self.last {
            let ago = self.last - tick;
            if ago >= self.capacity {
                ring
            } else {
                let open = self.opened(ago);
                sparse_blob_deque::ring_replaced(ring, open.slots, open.slots.len() - 1 - ago)
            }
        } else {
            self.filled(tick).ring_pushed(self.ring_filled(ring, tick), true)
        }
    }

    /// The ring of values after the component was marked as removed at a tick.
    pub open spec fn ring_marked(self, ring: Ring, tick: int) -> Ring {
        if self.slots.len() > 0 && tick <= self.last {
            ring
        } else {
            self.filled(tick).ring_pushed(self.ring_filled(ring, tick), false)
        }
    }

    /// The ring of values after the ticks after `retain_until` were dropped.
    pub open spec fn ring_cleaned(self, ring: Ring, retain_until: int) -> Ring {
        if self.last <= retain_until {
            ring
        } else {
            sparse_blob_deque::ring_trimmed(ring, self.slots, self.last - retain_until)
        }
    }

    /// The ring of values after the ticks after the first written value were dropped.
    pub open spec fn ring_first_kept(self, ring: Ring) -> Ring {
        let ago = last_below(self.items(), 64);
        if ago < 0 {
            ring
        } else {
            self.ring_cleaned(
                ring,
                if ago > self.last {
                    0
                } else {
                    self.last - ago
                },
            )
        }
    }

    /// What is held after the component was marked as removed at a tick.
    pub open spec fn marked(self, tick: int) -> Records<T> {
        if self.slots.len() > 0 && tick <= self.last {
            let ago = self.last - tick;
            if ago >= self.capacity {
                self
            } else {
                let open = self.opened(ago);
                Records { removed: open.removed.insert(ago), ..open }
            }
        } else {
            self.filled(tick).pushed(tick, None, true)
        }
    }

    /// What is held after the ticks after `retain_until` were dropped.
    pub open spec fn cleaned(self, retain_until: int) -> Records<T> {
        let to_drop = self.last - retain_until;
        if to_drop <= 0 {
            self
        } else if to_drop >= self.slots.len() {
            Records { slots: Seq::empty(), last: retain_until, ..self }
        } else {
            Records {
                slots: self.slots.take(self.slots.len() - to_drop),
                removed: earlier(self.removed, to_drop),
                last: retain_until,
                ..self
            }
        }
    }

    /// What is held after the ticks after the first written value were dropped.
    pub open spec fn first_kept(self) -> Records<T> {
        let ago = last_below(self.items(), 64);
        if ago < 0 {
            self
        } else {
            self.cleaned(
                if ago > self.last {
                    0
                } else {
                    self.last - ago
                },
            )
        }
    }
}

} // verus!
