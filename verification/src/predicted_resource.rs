//! What was predicted of a resource.
use crate::history::tick_data::TickData;
use crate::rollback::{RollbackFrames, StoreFor};
use crate::tick::RepliconTick;

use std::collections::VecDeque;

use vstd::prelude::*;

verus! {

/// The prediction history of a resource
pub struct ResourceHistory<T> {
    /// The stored per-tick data, oldest first
    pub list: VecDeque<TickData<T>>,
    /// The tick the last item corresponds to
    pub last_tick: u32,
}

impl<T: Clone> Clone for ResourceHistory<T> {
    fn clone(&self) -> (r: Self)
        ensures
            r.last_tick == self.last_tick,
            r.list@.len() == self.list@.len(),
            forall|i: int| 0 <= i < self.list@.len() ==> cloned(self.list@[i], #[trigger] r.list@[i]),
    {
        ResourceHistory { list: self.list.clone(), last_tick: self.last_tick }
    }
}

impl<T> Default for ResourceHistory<T> {
    fn default() -> (r: Self)
        ensures
            r.list@ == Seq::<TickData<T>>::empty(),
            r.last_tick == 0,
    {
        ResourceHistory { list: VecDeque::new(), last_tick: 0 }
    }
}

/// `VecDeque::from` makes a deque of the items of an array, in their order.
#[verifier::external_body]
fn deque_from<T, const N: usize>(list: [T; N]) -> (r: VecDeque<T>)
    ensures
        r@ == list@,
{
    VecDeque::from(list)
}

/// `VecDeque::capacity` returns the number of elements that the deque can hold without
/// reallocating, which is no less than those that it holds. How much more it is, is left to the
/// allocator.
#[verifier::external_body]
pub(crate) fn deque_capacity<T>(list: &VecDeque<T>) -> (r: usize)
    ensures
        r >= list@.len(),
{
    list.capacity()
}

/// `VecDeque::reserve_exact` makes room for more elements and leaves those that are held.
#[verifier::external_body]
fn deque_reserve_exact<T>(list: &mut VecDeque<T>, additional: usize)
    requires
        old(list)@.len() + additional <= usize::MAX,
    ensures
        final(list)@ == old(list)@,
{
    list.reserve_exact(additional)
}

/// What was stored for a tick, by the list of what was stored and the last tick. Before the first
/// tick a resource that was first seen to be absent counts as removed.
pub open spec fn stored_at<T>(list: Seq<TickData<T>>, last: u32, t: u32) -> TickData<T> {
    let ago = last - t;
    if ago < 0 {
        TickData::Missing
    } else if ago < list.len() {
        list[list.len() - 1 - ago]
    } else if list.len() > 0 && list[0] is Removed {
        TickData::Removed
    } else {
        TickData::Missing
    }
}

/// The last `n` items of a list.
pub open spec fn newest<A>(list: Seq<A>, n: int) -> Seq<A> {
    if list.len() <= n {
        list
    } else {
        list.skip(list.len() - n)
    }
}

/// `copy` holds a clone of what `data` holds.
pub open spec fn copied<T: Clone>(data: TickData<T>, copy: TickData<T>) -> bool {
    match data {
        TickData::Value(v) => copy matches TickData::Value(c) && cloned(v, c),
        TickData::Removed => copy is Removed,
        TickData::Missing => copy is Missing,
    }
}

/// Every item of a list holds a clone of what the item before it holds, the first one of what
/// `data` holds.
pub open spec fn chain<T: Clone>(data: TickData<T>, list: Seq<TickData<T>>) -> bool {
    forall|i: int|
        0 <= i < list.len() ==> copied(
            if i == 0 {
                data
            } else {
                list[i - 1]
            },
            #[trigger] list[i],
        )
}

/// `data` is what is stored of a resource: a clone of it, or that it is absent.
pub open spec fn snapshot<T: Clone>(t: Option<&T>, data: TickData<T>) -> bool {
    match t {
        Some(value) => data matches TickData::Value(copy) && cloned(*value, copy),
        None => data is Removed,
    }
}

/// What is held after a resource was stored for a tick, with room for `capacity` items: skipped
/// ticks repeat the last item, and the oldest items make room. A tick that was stored before is
/// not stored again.
pub open spec fn appended<T: Clone>(
    before: Seq<TickData<T>>,
    last: u32,
    after: Seq<TickData<T>>,
    t: Option<&T>,
    tick: u32,
    capacity: int,
) -> bool {
    if before.len() > 0 && tick <= last {
        after == before
    } else {
        let gap = if before.len() == 0 {
            0
        } else {
            tick - 1 - last
        };
        let room = if capacity < 1 {
            1
        } else {
            capacity
        };
        exists|fill: Seq<TickData<T>>, data: TickData<T>|
            {
                &&& fill.len() == gap
                &&& #[trigger] chain(before.last(), fill)
                &&& #[trigger] snapshot(t, data)
                &&& after == newest((before + fill).push(data), room)
            }
    }
}

impl<T> ResourceHistory<T> {
    /// Build a history from a list of tick data, the first item at `start_tick`
    pub fn from_list<const N: usize>(start_tick: u32, list: [TickData<T>; N]) -> (r: Self)
        requires
            N <= u32::MAX,
            N > 0 ==> start_tick + N - 1 <= u32::MAX,
        ensures
            r.list@ == list@,
            r.last_tick == if N == 0 {
                start_tick as int
            } else {
                start_tick + N - 1
            },
    {
        let last_tick: u32 = start_tick + (N as u32).saturating_sub(1);
        ResourceHistory { list: deque_from(list), last_tick }
    }

    /// Get the length of the history
    pub fn len(&self) -> (r: usize)
        ensures
            r == self.list@.len(),
    {
        self.list.len()
    }

    /// Check if the history is empty
    pub fn is_empty(&self) -> (r: bool)
        ensures
            r == (self.list@.len() == 0),
    {
        self.list.len() == 0
    }

    /// Get the value for the specified tick. You always want to load the value stored on
    /// the previous tick
    pub fn get(&self, previous_tick: RepliconTick) -> (r: &TickData<T>)
        ensures
            *r == stored_at(self.list@, self.last_tick, previous_tick.0),
    {
        if previous_tick.get() > self.last_tick {
            return &TickData::Missing;
        }
        let ago: usize = (self.last_tick - previous_tick.get()) as usize;
        let len: usize = self.list.len();
        if ago >= len {
            return if len > 0 && matches!(&self.list[0], TickData::Removed) {
                &TickData::Removed
            } else {
                &TickData::Missing
            };
        }
        &self.list[len - 1 - ago]
    }

    /// Clean all values after the specified tick. You always want to clean values stored after
    /// the previous tick.
    pub fn clean(&mut self, previous_tick: RepliconTick)
        ensures
            ({
                let ago = old(self).last_tick - previous_tick.0;
                &&& final(self).list@ == if ago <= 0 {
                    old(self).list@
                } else if ago >= old(self).list@.len() {
                    Seq::empty()
                } else {
                    old(self).list@.take(old(self).list@.len() - ago)
                }
                &&& final(self).last_tick == if ago <= 0 {
                    old(self).last_tick
                } else {
                    previous_tick.0
                }
            }),
    {
        let ago: u32 = self.last_tick.saturating_sub(previous_tick.get());
        let len: usize = self.list.len();
        // We clean all values after previous tick
        self.list.truncate(len.saturating_sub(ago as usize));
        if previous_tick.get() < self.last_tick {
            self.last_tick = previous_tick.get();
        }
    }

    /// Keep only the first item in the history
    pub fn keep_one(&mut self)
        requires
            old(self).list@.len() <= old(self).last_tick + 1,
            old(self).list@.len() <= u32::MAX,
        ensures
            final(self).list@ == if old(self).list@.len() <= 1 {
                old(self).list@
            } else {
                old(self).list@.take(1)
            },
            final(self).last_tick == if old(self).list@.len() <= 1 {
                old(self).last_tick as int
            } else {
                old(self).last_tick - (old(self).list@.len() - 1)
            },
    {
        let len: usize = self.list.len();
        self.list.truncate(1);
        self.last_tick = self.last_tick - (len as u32).saturating_sub(1);
    }
}

/// One more clone of the last item goes behind a list that repeats it.
proof fn gap_patched<T: Clone>(
    before: Seq<TickData<T>>,
    fill: Seq<TickData<T>>,
    copy: TickData<T>,
    capacity: int,
)
    requires
        0 < before.len() <= capacity,
        chain(before.last(), fill),
        copied(newest(before + fill, capacity).last(), copy),
    ensures
        chain(before.last(), fill.push(copy)),
        ({
            let list = newest(before + fill, capacity);
            let rest = if list.len() == capacity {
                list.drop_first()
            } else {
                list
            };
            newest(before + fill.push(copy), capacity) == rest.push(copy)
        }),
{
    let full = before + fill;
    let next = fill.push(copy);
    assert(newest(full, capacity).last() == full.last());
    assert forall|i: int| 0 <= i < next.len() implies copied(
        if i == 0 {
            before.last()
        } else {
            next[i - 1]
        },
        #[trigger] next[i],
    ) by {
        if i < fill.len() {
            assert(next[i] == fill[i]);
        }
    }
    let list = newest(full, capacity);
    let rest = if list.len() == capacity {
        list.drop_first()
    } else {
        list
    };
    assert(before + next =~= full.push(copy));
    assert(newest(before + next, capacity) =~= rest.push(copy));
}

impl<T: Clone> ResourceHistory<T> {
    /// Store a resource for a tick, with room for `capacity` items.
    pub fn append_within(&mut self, t: Option<&T>, tick: RepliconTick, capacity: usize)
        requires
            old(self).list@.len() <= capacity,
        ensures
            appended(
                old(self).list@,
                old(self).last_tick,
                final(self).list@,
                t,
                tick.0,
                capacity as int,
            ),
            final(self).last_tick == if old(self).list@.len() > 0 && tick.0 <= old(self).last_tick {
                old(self).last_tick
            } else {
                tick.0
            },
    {
        let ghost before = self.list@;
        let ghost mut fill: Seq<TickData<T>> = Seq::empty();
        if !self.is_empty() {
            if tick.get() <= self.last_tick {
                return;
            }
            // We need to patch gaps
            while tick.get() > self.last_tick + 1
                invariant
                    before == old(self).list@,
                    0 < before.len() <= capacity,
                    old(self).last_tick <= self.last_tick < tick.0,
                    fill.len() == self.last_tick - old(self).last_tick,
                    chain(before.last(), fill),
                    self.list@ == newest(before + fill, capacity as int),
                decreases tick.0 - self.last_tick,
            {
                let ghost list = self.list@;
                let copy = self.list[self.list.len() - 1].clone();
                proof {
                    gap_patched(before, fill, copy, capacity as int);
                    fill = fill.push(copy);
                }
                if self.list.len() == capacity {
                    self.list.pop_front();
                }
                self.list.push_back(copy);
                assert(self.list@ =~= (if list.len() == capacity {
                    list.drop_first()
                } else {
                    list
                }).push(copy));
                self.last_tick = self.last_tick + 1;
            }
        }
        if self.list.len() == capacity {
            self.list.pop_front();
        }
        let data = match t {
            Some(value) => TickData::Value(value.clone()),
            None => TickData::Removed,
        };
        let ghost stored = data;
        self.list.push_back(data);
        self.last_tick = tick.get();
        proof {
            let room = if capacity < 1 {
                1
            } else {
                capacity as int
            };
            assert(snapshot(t, stored));
            assert(before + Seq::<TickData<T>>::empty() =~= before);
            assert(chain(before.last(), fill));
            assert(self.list@ =~= newest((before + fill).push(stored), room));
        }
    }
}

/// The number of items that a list with room for `capacity` items is given room for, so that it takes
/// `size` of them: a larger one is made anew, and a smaller one gets as many more as are missing,
/// counted from those that it holds.
pub open spec fn room_made(len: int, capacity: int, size: int) -> int {
    if capacity >= size {
        size
    } else if len + (size - capacity) > capacity {
        len + (size - capacity)
    } else {
        capacity
    }
}

/// The same items are kept for every capacity that a list can have: it is empty or full, no tick is
/// skipped, or what is added fits in half of what is free.
pub open spec fn fits_anyway(len: int, last: u32, tick: u32, size: int) -> bool {
    len == 0 || len >= size || tick <= last + 1 || 2 * (tick - last) <= size - len
}

/// Where the same items are kept for every capacity, they are those of a list of the wanted size.
proof fn kept_anyway<T: Clone>(
    before: Seq<TickData<T>>,
    last: u32,
    after: Seq<TickData<T>>,
    t: Option<&T>,
    tick: u32,
    capacity: int,
    size: int,
)
    requires
        before.len() <= size,
        before.len() <= capacity,
        0 < size,
        appended(
            before,
            last,
            after,
            t,
            tick,
            room_made(before.len() as int, capacity, size),
        ),
    ensures
        after.len() <= size,
        fits_anyway(before.len() as int, last, tick, size) ==> appended(
            before,
            last,
            after,
            t,
            tick,
            size,
        ),
{
    let room = room_made(before.len() as int, capacity, size);
    assert(0 < room <= size);
    if !(before.len() > 0 && tick <= last) {
        let gap = if before.len() == 0 {
            0
        } else {
            tick - 1 - last
        };
        let (fill, data) = choose|fill: Seq<TickData<T>>, data: TickData<T>|
            {
                &&& fill.len() == gap
                &&& #[trigger] chain(before.last(), fill)
                &&& #[trigger] snapshot(t, data)
                &&& after == newest((before + fill).push(data), room)
            };
        let all = (before + fill).push(data);
        if fits_anyway(before.len() as int, last, tick, size) && room < size {
            assert(all.len() <= room);
            assert(newest(all, size) == newest(all, room));
        }
        assert(chain(before.last(), fill) && snapshot(t, data));
    }
}

/// Store a resource for a tick, in a history of the size for these frames, where the list has room for
/// `capacity` items.
pub fn append_with_capacity<T: Clone>(
    t: Option<&T>,
    hist: &mut ResourceHistory<T>,
    tick: StoreFor,
    frames: RollbackFrames,
    capacity: usize,
)
    requires
        old(hist).list@.len() <= capacity,
    ensures
        ({
            let before = newest(old(hist).list@, frames@ + 2);
            let last = old(hist).last_tick;
            let size = frames@ + 2;
            &&& appended(
                before,
                last,
                final(hist).list@,
                t,
                tick.0.0,
                room_made(before.len() as int, capacity as int, size),
            )
            &&& fits_anyway(before.len() as int, last, tick.0.0, size) ==> appended(
                before,
                last,
                final(hist).list@,
                t,
                tick.0.0,
                size,
            )
            &&& final(hist).list@.len() <= size
        }),
        final(hist).last_tick == if old(hist).list@.len() > 0 && tick.0.0 <= old(hist).last_tick {
            old(hist).last_tick
        } else {
            tick.0.0
        },
{
    let max_ticks: usize = frames.history_size();
    let mut room: usize = max_ticks;
    if capacity > max_ticks {
        let skip: usize = hist.list.len().saturating_sub(max_ticks);
        let mut kept = hist.list.split_off(skip);
        let mut list: VecDeque<TickData<T>> = VecDeque::with_capacity(max_ticks);
        list.append(&mut kept);
        hist.list = list;
    } else if capacity < max_ticks {
        let missing: usize = max_ticks - capacity;
        deque_reserve_exact(&mut hist.list, missing);
        room = if hist.list.len() + missing > capacity {
            hist.list.len() + missing
        } else {
            capacity
        };
    }
    proof {
        assert(hist.list@ =~= newest(old(hist).list@, frames@ + 2));
    }
    hist.append_within(t, tick.0, room);
    proof {
        let before = newest(old(hist).list@, frames@ + 2);
        kept_anyway(
            before,
            old(hist).last_tick,
            hist.list@,
            t,
            tick.0.0,
            capacity as int,
            max_ticks as int,
        );
    }
}

/// Store a resource for a tick, in a history of the size for these frames. Only where ticks are
/// skipped can a list that is neither empty nor full be short of room: how much it then has beyond
/// half of what is missing is left to the allocator.
pub fn append_history<T: Clone>(
    t: Option<&T>,
    hist: &mut ResourceHistory<T>,
    tick: StoreFor,
    frames: RollbackFrames,
)
    ensures
        ({
            let before = newest(old(hist).list@, frames@ + 2);
            let last = old(hist).last_tick;
            let size = frames@ + 2;
            &&& exists|capacity: int|
                capacity >= old(hist).list@.len() && appended(
                    before,
                    last,
                    final(hist).list@,
                    t,
                    tick.0.0,
                    #[trigger] room_made(before.len() as int, capacity, size),
                )
            &&& fits_anyway(before.len() as int, last, tick.0.0, size) ==> appended(
                before,
                last,
                final(hist).list@,
                t,
                tick.0.0,
                size,
            )
            &&& final(hist).list@.len() <= size
        }),
        final(hist).last_tick == if old(hist).list@.len() > 0 && tick.0.0 <= old(hist).last_tick {
            old(hist).last_tick
        } else {
            tick.0.0
        },
{
    let capacity: usize = deque_capacity(&hist.list);
    append_with_capacity(t, hist, tick, frames, capacity);
}

/// Save the initial spawn value if the history is empty
pub fn save_initial<T: Clone>(t: &T, history: &mut ResourceHistory<T>, tick: StoreFor)
    ensures
        old(history).list@.len() > 0 ==> *final(history) == *old(history),
        old(history).list@.len() == 0 ==> {
            &&& final(history).last_tick == tick.0.0
            &&& final(history).list@.len() == 1
            &&& final(history).list@[0] matches TickData::Value(copy) && cloned(*t, copy)
        },
{
    if history.is_empty() {
        history.last_tick = tick.get();
        history.list.push_back(TickData::Value(t.clone()));
    }
}

/// What was stored for a tick is read back there, and what was stored for the ticks before is
/// still read back, as far as there is room.
pub proof fn appended_is_read<T: Clone>(
    before: Seq<TickData<T>>,
    last: u32,
    after: Seq<TickData<T>>,
    t: Option<&T>,
    tick: u32,
    capacity: int,
    earlier: u32,
)
    requires
        appended(before, last, after, t, tick, capacity),
        before.len() == 0 || tick > last,
        before.len() > 0 ==> last - earlier < before.len(),
        before.len() > 0 ==> earlier <= last,
        before.len() > 0 ==> tick - earlier < capacity,
    ensures
        snapshot(t, stored_at(after, tick, tick)),
        before.len() > 0 ==> stored_at(after, tick, earlier) == stored_at(before, last, earlier),
{
    let gap = if before.len() == 0 {
        0
    } else {
        tick - 1 - last
    };
    let room = if capacity < 1 {
        1
    } else {
        capacity
    };
    let (fill, data) = choose|fill: Seq<TickData<T>>, data: TickData<T>|
        {
            &&& fill.len() == gap
            &&& #[trigger] chain(before.last(), fill)
            &&& #[trigger] snapshot(t, data)
            &&& after == newest((before + fill).push(data), room)
        };
    let full = (before + fill).push(data);
    assert(after.last() == data);
    if before.len() > 0 {
        let ago = tick - earlier;
        assert(after[after.len() - 1 - ago] == full[full.len() - 1 - ago]);
        assert(full[full.len() - 1 - ago] == before[before.len() - 1 - (last - earlier)]);
    }
}

/// Cleaning leaves what was stored up to the tick, and nothing after it.
pub proof fn cleaned_is_read<T>(list: Seq<TickData<T>>, last: u32, until: u32, t: u32)
    requires
        until < last,
        last - until < list.len(),
    ensures
        ({
            let left = list.take(list.len() - (last - until));
            &&& t <= until ==> stored_at(left, until, t) == stored_at(list, last, t)
            &&& t > until ==> stored_at(left, until, t) is Missing
        }),
{
}

/// What is stored lies in order up to the last tick. After it nothing is known, and before the first
/// item only that the resource was absent, where that is the first item.
pub proof fn stored_in_order<T>(list: Seq<TickData<T>>, last: u32, t: u32)
    ensures
        t > last ==> stored_at(list, last, t) is Missing,
        t <= last && last - t < list.len() ==> stored_at(list, last, t) == list[list.len() - 1 - (
        last - t)],
        t <= last && last - t >= list.len() && list.len() > 0 && list[0] is Removed ==> stored_at(
            list,
            last,
            t,
        ) is Removed,
        t <= last && last - t >= list.len() && !(list.len() > 0 && list[0] is Removed)
            ==> stored_at(list, last, t) is Missing,
{
}

/// A list grows by the stored tick and the skipped ones, up to its size, and every skipped tick repeats
/// what the tick before it holds.
pub proof fn skipped_ticks_repeat<T: Clone>(
    before: Seq<TickData<T>>,
    last: u32,
    after: Seq<TickData<T>>,
    t: Option<&T>,
    tick: u32,
    size: int,
    x: u32,
)
    requires
        appended(before, last, after, t, tick, size),
        0 < before.len() <= size,
        last < tick,
    ensures
        after.len() == if before.len() + (tick - last) < size {
            before.len() + (tick - last)
        } else {
            size
        },
        last < x < tick && tick - (x - 1) < after.len() ==> copied(
            stored_at(after, tick, (x - 1) as u32),
            stored_at(after, tick, x),
        ),
{
    let gap = tick - 1 - last;
    let (fill, data) = choose|fill: Seq<TickData<T>>, data: TickData<T>|
        {
            &&& fill.len() == gap
            &&& #[trigger] chain(before.last(), fill)
            &&& #[trigger] snapshot(t, data)
            &&& after == newest((before + fill).push(data), size)
        };
    let all = (before + fill).push(data);
    let n = after.len() as int;
    assert(n <= all.len());
    assert forall|i: int| 0 <= i < n implies after[i] == all[all.len() - n + i] by {}
    if last < x < tick && tick - (x - 1) < n {
        let k = x - last - 1;
        assert(copied(
            if k == 0 {
                before.last()
            } else {
                fill[k - 1]
            },
            fill[k],
        ));
        assert(stored_at(after, tick, x) == all[before.len() + k]);
        assert(stored_at(after, tick, (x - 1) as u32) == all[before.len() + k - 1]);
    }
}

/// A resource is stored as it is: a value as a clone of it, an absent one as removed. Ticks that were
/// stored before are not stored again, and an empty history begins with the tick.
pub proof fn stored_as_it_is<T: Clone>(
    before: Seq<TickData<T>>,
    last: u32,
    after: Seq<TickData<T>>,
    t: Option<&T>,
    tick: u32,
    size: int,
)
    requires
        appended(before, last, after, t, tick, size),
        size >= 1,
    ensures
        before.len() > 0 && tick <= last ==> after == before,
        before.len() == 0 || tick > last ==> {
            &&& t matches Some(v) ==> (stored_at(after, tick, tick) matches TickData::Value(c)
                && cloned(*v, c))
            &&& t is None ==> stored_at(after, tick, tick) is Removed
        },
        before.len() == 0 ==> after.len() == 1,
{
    if before.len() == 0 || tick > last {
        let gap = if before.len() == 0 {
            0
        } else {
            tick - 1 - last
        };
        let (fill, data) = choose|fill: Seq<TickData<T>>, data: TickData<T>|
            {
                &&& fill.len() == gap
                &&& #[trigger] chain(before.last(), fill)
                &&& #[trigger] snapshot(t, data)
                &&& after == newest((before + fill).push(data), size)
            };
        assert(after.last() == data);
    }
}

/// The room that is made is no more than the wanted size, and that size exactly where the list has it
/// already or is full; it always takes one more item than a list below the size holds, keeps the room
/// that was there, and is at least half of the way to the size.
pub proof fn room_leads_to_the_size(len: int, capacity: int, size: int)
    requires
        0 <= len <= capacity,
        len <= size,
        0 < size,
    ensures
        ({
            let room = room_made(len, capacity, size);
            &&& len <= room <= size
            &&& capacity >= size || capacity == len ==> room == size
            &&& len < size ==> room > len
            &&& capacity < size ==> room >= capacity && 2 * room >= len + size && (room == capacity
                || room - len == size - capacity)
        }),
{
}

/// Where what is added fits in half of what is free, no tick is skipped, or the list is empty or full,
/// the same items are kept whatever room the list has: as many as the wanted size allows.
pub proof fn room_is_no_matter(len: int, capacity: int, last: u32, tick: u32, size: int)
    requires
        0 <= len <= capacity,
        len <= size,
        0 < size,
        last < tick,
        len == 0 || len == size || tick == last + 1 || 2 * (tick - last) <= size - len,
    ensures
        fits_anyway(len, last, tick, size),
        0 < len < size ==> len + (tick - last) <= room_made(len, capacity, size),
        len == size ==> room_made(len, capacity, size) == size,
{
}

/// A copy is of the same kind as what it was made from, and a value is a clone.
pub proof fn copies_keep_their_kind<T: Clone>(data: TickData<T>, copy: TickData<T>)
    requires
        copied(data, copy),
    ensures
        data is Value <==> copy is Value,
        data is Removed <==> copy is Removed,
        data is Value ==> cloned(data->Value_0, copy->Value_0),
{
}

} // verus!
