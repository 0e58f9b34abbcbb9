//! The history of one component.
use super::laws;
use super::records;
use super::records::Records;
use super::sparse_blob_deque::SparseBlobDeque;
pub use super::tick_data::TickData;
use crate::bits;

use vstd::prelude::*;

verus! {

/// The values and removals of one component over a window of ticks.
pub struct ComponentHistory<T> {
    /// The ticks at which the component was removed; the least significant bit is the last tick
    pub removed_mask: u64,
    /// The values, a slot for each tick
    pub list: SparseBlobDeque<T>,
    /// The tick of the last slot
    pub last_tick: u32,
}

impl<T> View for ComponentHistory<T> {
    type V = Records<T>;

    open spec fn view(&self) -> Records<T> {
        Records {
            slots: self.list@,
            removed: records::positions(self.removed_mask),
            last: self.last_tick as int,
            capacity: self.list.capacity as int,
        }
    }
}

impl<T> ComponentHistory<T> {
    pub open spec fn wf(&self) -> bool {
        self.list.wf()
    }

    /// What a value reads back as once it is stored.
    #[verifier::inline]
    pub open spec fn stored_as(&self, value: T) -> T {
        self.list.items.stored_as(value)
    }

    /// Marking `tick` does not overrun a window of a single tick.
    pub open spec fn can_mark(&self, tick: u32) -> bool {
        self@.capacity == 1 && self@.slots.len() == 1 ==> tick <= self.last_tick
    }

    /// Writing at `tick` stays within the ticks that can be counted, and does not overrun a
    /// window of a single tick.
    pub open spec fn can_reach(&self, tick: u32) -> bool {
        &&& self@.slots.len() > 0 ==> self.last_tick < u32::MAX
        &&& self.can_mark(tick)
    }

    /// What a history holds is valid.
    pub proof fn view_is_valid(&self)
        requires
            self.wf(),
        ensures
            self@.valid(),
    {
    }

    /// The masks are the model's sets.
    proof fn masks(&self)
        requires
            self.wf(),
        ensures
            self@.items() == records::positions(self.list.mask),
            self@.known() == records::positions(self.removed_mask | self.list.mask),
            self@.known() == records::positions(self.list.mask | self.removed_mask),
            forall|ago: int| #[trigger]
                self@.items().contains(ago) <==> bits::bit(self.list.mask, ago),
            forall|ago: int| #[trigger]
                self@.removed.contains(ago) <==> bits::bit(self.removed_mask, ago),
    {
        broadcast use bits::group_bits;

        self.list.mask_bits();
        assert(self@.items() =~= records::positions(self.list.mask));
        assert(self@.known() =~= records::positions(self.removed_mask | self.list.mask));
        assert(self@.known() =~= records::positions(self.list.mask | self.removed_mask));
    }

    pub fn len(&self) -> (r: usize)
        ensures
            r == self@.slots.len(),
            r == self.list.len,
    {
        self.list.len()
    }

    /// The number of values that are held.
    pub fn stored_items(&self) -> (r: usize)
        requires
            self.wf(),
        ensures
            r == super::sparse_blob_deque::occupied(self@.slots),
    {
        self.list.stored_items()
    }

    /// The tick of the oldest record.
    pub fn first_tick(&self) -> (r: u32)
        requires
            self.wf(),
        ensures
            r == self@.first(),
    {
        let known: u64 = self.removed_mask | self.list.mask();
        proof {
            self.masks();
            bits::leading_zeros_is_highest(known);
            bits::highest_below_spec(known, 64);
            records::last_position(known, 64);
        }
        self.last_tick.saturating_sub(63u32.saturating_sub(known.leading_zeros()))
    }

    /// What was recorded at a tick.
    pub fn get(&self, tick: u32) -> (r: TickData<&T>)
        requires
            self.wf(),
        ensures
            r == self@.at(tick as int).by_ref(),
    {
        if tick > self.last_tick {
            return TickData::Missing;
        }
        let ago: usize = (self.last_tick - tick) as usize;
        if ago >= self.len() {
            return TickData::Missing;
        }
        let index: usize = self.len() - 1 - ago;
        let index_bit: u64 = 1u64 << (ago as u64);
        proof {
            super::sparse_blob_deque::bit_of_masked(self.removed_mask, ago as u64);
            self.masks();
        }
        if self.removed_mask & index_bit != 0 {
            return TickData::Removed;
        }
        match self.list.get(index) {
            Some(item) => TickData::Value(item),
            None => TickData::Missing,
        }
    }

    /// The newest record at or before a tick.
    pub fn get_latest(&self, tick: u32) -> (r: TickData<&T>)
        requires
            self.wf(),
        ensures
            r == self@.latest(tick as int).by_ref(),
    {
        let ago: usize = self.last_tick.saturating_sub(tick) as usize;
        if ago >= self.len() {
            return TickData::Missing;
        }
        let removed_ago: u32 = first_at_or_after(self.removed_mask, ago as u64);
        let item_ago: u32 = first_at_or_after(self.list.mask(), ago as u64);
        proof {
            self.masks();
            records::first_position(self.removed_mask, ago as int);
            records::first_position(self.list.mask, ago as int);
        }
        let len: u32 = self.list.len() as u32;
        if removed_ago > len && item_ago > len {
            return TickData::Missing;
        }
        if removed_ago <= item_ago {
            return TickData::Removed;
        }
        proof {
            bits::lowest_from_spec(self.removed_mask, ago as int);
            bits::lowest_from_spec(self.list.mask, ago as int);
            assert(self@.items().contains(item_ago as int));
        }
        let index: usize = self.len() - 1 - item_ago as usize;
        match self.list.get(index) {
            Some(item) => TickData::Value(item),
            None => TickData::Missing,
        }
    }

    /// How many ticks after `tick` follow without a record.
    pub fn empty_after(&self, tick: u32) -> (r: u32)
        requires
            self.wf(),
        ensures
            r == self@.empty_after(tick as int),
    {
        if self.list.is_empty() {
            return 0;
        }
        if tick >= self.last_tick {
            return 64;
        }
        let since: usize = (self.last_tick - tick) as usize;
        let front: usize = self.len() - 1;
        let ago: usize = if since < front {
            since
        } else {
            front
        };
        proof {
            bits::one_positive(ago as u64);
        }
        let search_mask: u64 = (1u64 << (ago as u64)) - 1;
        let known: u64 = self.list.mask() | self.removed_mask;
        let empty: u64 = known & search_mask;
        proof {
            broadcast use bits::group_bits;

            self.masks();
            bits::bit_low(ago as u64, search_mask);
            bits::leading_zeros_is_highest(empty);
            bits::highest_below_spec(known, ago as int);
            let p = bits::highest_below(known, ago as int);
            bits::highest_below_unique(empty, 64, p);
            records::last_position(known, ago as int);
        }
        empty.leading_zeros() - 64u32.saturating_sub(ago as u32)
    }

    /// Whether a tick lies before what the window can hold.
    pub fn refuses(&self, tick: u32) -> (r: bool)
        requires
            self.wf(),
        ensures
            r == self@.refuses(tick as int),
    {
        !self.list.is_empty() && tick <= self.last_tick && (self.last_tick - tick) as usize
            >= self.list.capacity()
    }

    /// Write a value at a tick. Ticks that are skipped over get no record.
    pub fn write(&mut self, tick: u32, value: T)
        requires
            old(self).wf(),
            old(self).can_reach(tick),
        ensures
            final(self).wf(),
            final(self)@ == old(self)@.written(tick as int, old(self).stored_as(value)),
            final(self).list.items.layout == old(self).list.items.layout,
            final(self).list.items.ring() == old(self)@.ring_written(
                old(self).list.items.ring(),
                tick as int,
            ),
            forall|v: T| #[trigger]
                final(self).stored_as(v) == if old(self).list.zero_sized() && !old(self)@.refuses(
                    tick as int,
                ) {
                    old(self).stored_as(value)
                } else {
                    old(self).stored_as(v)
                },
    {
        self.fill_gaps(tick);

        if !self.list.is_empty() && tick <= self.last_tick {
            let ago: usize = (self.last_tick - tick) as usize;
            if ago >= self.list.capacity() {
                return;
            }
            if ago >= self.list.len() {
                self.list.extend_front(ago - (self.list.len() - 1));
            }
            let index: usize = self.len() - 1 - ago;
            self.list.replace(index, value);
            return;
        }
        if self.list.capacity() == self.list.len() {
            self.trim_front();
        }
        let ghost before = self.removed_mask;
        self.removed_mask = self.removed_mask.wrapping_shl(1);
        proof {
            shifted_positions(before, 1);
        }
        self.list.append(Some(value));
        self.last_tick = tick;
    }

    /// Record at a tick that the component was removed.
    pub fn mark_removed(&mut self, tick: u32)
        requires
            old(self).wf(),
            old(self).can_mark(tick),
        ensures
            final(self).wf(),
            final(self)@ == old(self)@.marked(tick as int),
            final(self).list.items.layout == old(self).list.items.layout,
            final(self).list.items.ring() == old(self)@.ring_marked(
                old(self).list.items.ring(),
                tick as int,
            ),
            forall|v: T| #[trigger] final(self).stored_as(v) == old(self).stored_as(v),
    {
        if !self.list.is_empty() && tick <= self.last_tick {
            let ago: usize = (self.last_tick - tick) as usize;
            if ago >= self.list.capacity() {
                return;
            }
            if ago >= self.list.len() {
                self.list.extend_front(ago - (self.list.len() - 1));
            }
            let ghost before = self.removed_mask;
            self.removed_mask = self.removed_mask | (1u64 << (ago as u64));
            proof {
                broadcast use bits::group_bits;

                assert(records::positions(self.removed_mask) =~= records::positions(before).insert(
                    ago as int,
                ));
            }
            return;
        }
        self.fill_gaps(tick);

        if self.list.capacity() == self.list.len() {
            self.trim_front();
        }
        let ghost before = self.removed_mask;
        self.removed_mask = self.removed_mask.wrapping_shl(1) | 1;
        proof {
            broadcast use bits::group_bits;

            shifted_positions(before, 1);
            assert(records::positions(self.removed_mask) =~= records::later(
                records::positions(before),
                1,
            ).insert(0));
        }
        self.list.append(None);
        self.last_tick = tick;
    }

    /// Move the window on to the tick before `tick`. What was latest at a tick of the window stays so:
    /// the newest record that leaves the window is carried to its oldest tick.
    pub fn fill_gaps(&mut self, tick: u32)
        requires
            old(self).wf(),
            old(self)@.slots.len() > 0 ==> old(self).last_tick < u32::MAX,
        ensures
            final(self).wf(),
            final(self)@ == old(self)@.filled(tick as int),
            final(self).list.items.layout == old(self).list.items.layout,
            final(self).list.items.ring() == old(self)@.ring_filled(
                old(self).list.items.ring(),
                tick as int,
            ),
            forall|v: T| #[trigger] final(self).stored_as(v) == old(self).stored_as(v),
            old(self)@.slots.len() > 0 && tick > old(self).last_tick ==> carried_over(
                old(self)@,
                final(self)@,
                tick as int,
            ),
    {
        let ghost before = self@;
        proof {
            self.view_is_valid();
            if self.list.len > 0 && tick > self.last_tick {
                Self::filling_carries_over(before, tick as int);
            }
        }
        if self.list.is_empty() || tick <= self.last_tick + 1 {
            return;
        }
        let gap: u32 = tick - 1 - self.last_tick;
        if gap as usize >= self.list.capacity() {
            self.fill_far(gap);
        } else {
            self.fill_near(gap);
        }
    }

    proof fn filling_carries_over(before: Records<T>, tick: int)
        requires
            before.valid(),
            before.slots.len() > 0,
            before.last < tick,
        ensures
            carried_over(before, before.filled(tick), tick),
    {
        let after = before.filled(tick);
        if before.capacity >= 2 && before.disjoint() && before.tidy() && (before.slots.len() == 64
            || after.slots.len() < 64) {
            laws::filled_len(before, tick);
            assert forall|t: int| after.last - after.slots.len() < t <= after.last implies (
            #[trigger] after.latest(t)) == before.latest(t) by {
                laws::filling_keeps_latest(before, tick, t);
            }
        }
    }

    /// Move the window on by more ticks than it holds.
    fn fill_far(&mut self, gap: u32)
        requires
            old(self).wf(),
            old(self)@.slots.len() > 0,
            gap >= old(self)@.capacity,
            old(self).last_tick + gap <= u32::MAX,
        ensures
            final(self).wf(),
            final(self)@ == old(self)@.filled(old(self).last_tick + gap + 1),
            final(self).list.items.layout == old(self).list.items.layout,
            final(self).list.items.ring() == old(self)@.ring_filled(
                old(self).list.items.ring(),
                old(self).last_tick + gap + 1,
            ),
            forall|v: T| #[trigger] final(self).stored_as(v) == old(self).stored_as(v),
    {
        let newest_item: u32 = self.list.mask().trailing_zeros();
        let newest_remove: u32 = self.removed_mask.trailing_zeros();
        proof {
            self.masks();
            bits::trailing_zeros_is_lowest(self.list.mask);
            bits::trailing_zeros_is_lowest(self.removed_mask);
            bits::lowest_from_spec(self.list.mask, 0);
            bits::lowest_from_spec(self.removed_mask, 0);
            records::first_position(self.list.mask, 0);
            records::first_position(self.removed_mask, 0);
        }
        if self.list.stored_items() == 0 && self.removed_mask == 0 {
            proof {
                broadcast use bits::group_bits;

                assert(self.list.mask == 0);
                bits::lowest_from_unique(0, 0, 64);
            }
            let n: usize = if (gap as usize) < self.list.capacity() {
                gap as usize
            } else {
                self.list.capacity()
            };
            self.list.extend_back(n);
            self.last_tick = self.last_tick + gap;
            return;
        }
        proof {
            if newest_item == 64 && newest_remove == 64 {
                bits::no_bits_is_zero(self.list.mask);
                bits::no_bits_is_zero(self.removed_mask);
            }
        }
        let newest_bit: u32 = if newest_item < newest_remove {
            newest_item
        } else {
            newest_remove
        };
        if newest_bit != 0 {
            let bits_to_swap: u64 = (1u64 << (newest_bit as u64)) | 1;
            if newest_item < newest_remove {
                let mask: &mut u64 = self.list.mask_mut();
                *mask = *mask ^ bits_to_swap;
                proof {
                    assert(1u64 << 0u64 == 1) by (bit_vector);
                    SparseBlobDeque::bit_moved(old(self).list, self.list, newest_bit as u64, 0);
                }
            } else {
                self.removed_mask = 1;
            }
        }
        let ghost ready = *self;
        let capacity: usize = self.list.capacity();
        let n: usize = capacity - 1;
        let cap_mask: u64 = if capacity < 64 {
            proof {
                bits::one_positive(capacity as u64);
            }
            (1u64 << (capacity as u64)) - 1
        } else {
            u64::MAX
        };
        proof {
            if capacity < 64 {
                bits::bit_low(capacity as u64, cap_mask);
            }
        }
        self.list.extend_back(n);
        self.removed_mask = self.removed_mask.wrapping_shl(n as u32) & cap_mask;
        self.last_tick = self.last_tick + gap;
        proof {
            broadcast use bits::group_bits;

            assert(self.list@ =~= seq![ready.list@.last()] + super::sparse_blob_deque::gaps(
                n as int,
            ));
            shifted_positions(ready.removed_mask, n as u32);
            let shifted = vstd::wrapping::u64_specs::wrapping_shl(ready.removed_mask, n as u32);
            assert forall|i: int| #[trigger] bits::bit(self.removed_mask, i) <==> i == n
                && bits::bit(ready.removed_mask, 0) by {
                assert(bits::bit(self.removed_mask, i) == (bits::bit(shifted, i) && bits::bit(
                    cap_mask,
                    i,
                )));
                assert(records::positions(shifted).contains(i) == bits::bit(shifted, i));
            }
            assert(self@.removed =~= old(self)@.filled(old(self).last_tick + gap + 1).removed);
            assert(self@ =~= old(self)@.filled(old(self).last_tick + gap + 1));
        }
    }

    /// Move the window on by fewer ticks than it holds.
    fn fill_near(&mut self, gap: u32)
        requires
            old(self).wf(),
            old(self)@.slots.len() > 0,
            0 < gap < old(self)@.capacity,
            old(self).last_tick + gap <= u32::MAX,
        ensures
            final(self).wf(),
            final(self)@ == old(self)@.filled(old(self).last_tick + gap + 1),
            final(self).list.items.layout == old(self).list.items.layout,
            final(self).list.items.ring() == old(self)@.ring_filled(
                old(self).list.items.ring(),
                old(self).last_tick + gap + 1,
            ),
            forall|v: T| #[trigger] final(self).stored_as(v) == old(self).stored_as(v),
    {
        if self.list.len() + gap as usize > self.list.capacity() {
            let new_first: usize = self.list.len() + gap as usize - self.list.capacity();
            let retained: usize = self.list.len() - new_first;
            self.carry(retained);
        }
        let ghost ready = *self;
        self.removed_mask = self.removed_mask.wrapping_shl(gap);
        proof {
            shifted_positions(ready.removed_mask, gap);
        }
        self.list.extend_back(gap as usize);
        self.last_tick = self.last_tick + gap;
        proof {
            let target = old(self)@.filled(old(self).last_tick + gap + 1);
            assert(ready@.slots.len() == old(self)@.slots.len());
            assert(self@.slots =~= target.slots);
            assert(self@.removed =~= target.removed);
        }
    }

    /// Move the newest record that is about to leave the window to the oldest tick that stays.
    fn carry(&mut self, retained: usize)
        requires
            old(self).wf(),
            0 < retained < old(self)@.slots.len(),
        ensures
            final(self).wf(),
            final(self)@ == old(self)@.carried(retained as int),
            final(self)@.slots.len() == old(self)@.slots.len(),
            final(self).list.items == old(self).list.items,
            final(self).last_tick == old(self).last_tick,
    {
        let search_mask: u64 = 1u64 << ((retained - 1) as u64);
        proof {
            broadcast use bits::group_bits;

            self.masks();
            super::sparse_blob_deque::bit_of_masked(
                self.removed_mask | self.list.mask,
                (retained - 1) as u64,
            );
            let (a, b, c) = (self.removed_mask, self.list.mask, search_mask);
            assert((a & c) | (b & c) == (a | b) & c) by (bit_vector);
        }
        let has_value: bool = (self.removed_mask & search_mask) | (self.list.mask() & search_mask)
            != 0;
        if !has_value {
            let item_ago: u32 = self.list.mask().wrapping_shr(retained as u32).trailing_zeros();
            let removed_ago: u32 = self.removed_mask.wrapping_shr(retained as u32).trailing_zeros();
            proof {
                lowest_in_shifted(self.list.mask, retained as u32);
                lowest_in_shifted(self.removed_mask, retained as u32);
                records::first_position(self.list.mask, retained as int);
                records::first_position(self.removed_mask, retained as int);
                bits::lowest_from_spec(self.list.mask, retained as int);
                bits::lowest_from_spec(self.removed_mask, retained as int);
            }
            if item_ago < 64 || removed_ago < 64 {
                let nearest: u32 = if item_ago < removed_ago {
                    item_ago
                } else {
                    removed_ago
                };
                let to_move: u32 = nearest + 1;
                let from: u64 = (retained - 1) as u64 + to_move as u64;
                let bits_to_swap: u64 = (1u64 << ((retained - 1) as u64)) | (1u64 << from);
                proof {
                    let (a, b) = (1u64 << ((retained - 1) as u64), 1u64 << from);
                    assert(a | b == b | a) by (bit_vector);
                    broadcast use bits::group_bits;

                    assert(!bits::bit(self.removed_mask | self.list.mask, retained - 1));
                }
                if item_ago < removed_ago {
                    let mask: &mut u64 = self.list.mask_mut();
                    *mask = *mask ^ bits_to_swap;
                    proof {
                        SparseBlobDeque::bit_moved(
                            old(self).list,
                            self.list,
                            from,
                            (retained - 1) as u64,
                        );
                    }
                } else {
                    self.removed_mask = self.removed_mask ^ bits_to_swap;
                    proof {
                        swapped_positions(
                            old(self).removed_mask,
                            self.removed_mask,
                            from,
                            (retained - 1) as u64,
                        );
                    }
                }
            }
        }
    }

    /// Move the oldest record one tick on where that tick has none.
    fn trim_front(&mut self)
        requires
            old(self).wf(),
            old(self)@.slots.len() >= 2,
        ensures
            final(self).wf(),
            final(self)@ == old(self)@.trimmed(),
            final(self)@.slots.len() == old(self)@.slots.len(),
            final(self).list.items == old(self).list.items,
            final(self).last_tick == old(self).last_tick,
    {
        let next: u64 = (self.list.len() - 2) as u64;
        let front: u64 = (self.list.len() - 1) as u64;
        let search_mask: u64 = 1u64 << next;
        proof {
            broadcast use bits::group_bits;

            self.masks();
            super::sparse_blob_deque::bit_of_masked(self.removed_mask | self.list.mask, next);
            let (a, b, c) = (self.removed_mask, self.list.mask, search_mask);
            assert((a & c) | (b & c) == (a | b) & c) by (bit_vector);
        }
        let has_value: bool = (self.removed_mask & search_mask) | (self.list.mask() & search_mask)
            != 0;
        if !has_value {
            let bits_to_swap: u64 = 0b11u64 << next;
            proof {
                broadcast use bits::group_bits;

                super::sparse_blob_deque::bit_of_masked(self.removed_mask, front);
                super::sparse_blob_deque::bit_of_masked(self.list.mask, front);
                assert(0b11u64 << next == (1u64 << front) | (1u64 << next) && ((1u64 << next) << 1
                    == 1u64 << front)) by (bit_vector)
                    requires
                        front == next + 1,
                        next < 63,
                ;
                assert(!bits::bit(self.removed_mask | self.list.mask, next as int));
            }
            if self.list.mask() & (search_mask << 1) != 0 {
                let mask: &mut u64 = self.list.mask_mut();
                *mask = *mask ^ bits_to_swap;
                proof {
                    SparseBlobDeque::bit_moved(old(self).list, self.list, front, next);
                }
            } else if self.removed_mask & (search_mask << 1) != 0 {
                self.removed_mask = self.removed_mask ^ bits_to_swap;
                proof {
                    swapped_positions(old(self).removed_mask, self.removed_mask, front, next);
                }
            }
        }
    }

    /// Drop the ticks after `retain_until`.
    pub fn clean(&mut self, retain_until: u32)
        requires
            old(self).wf(),
        ensures
            final(self).wf(),
            final(self)@ == old(self)@.cleaned(retain_until as int),
            final(self).list.items.layout == old(self).list.items.layout,
            final(self).list.items.ring() == old(self)@.ring_cleaned(
                old(self).list.items.ring(),
                retain_until as int,
            ),
            forall|v: T| #[trigger] final(self).stored_as(v) == old(self).stored_as(v),
    {
        if retain_until >= self.last_tick {
            return;
        }
        let to_drop: u32 = self.last_tick - retain_until;
        if to_drop >= self.len() as u32 {
            self.list.clear();
            self.last_tick = retain_until;
            return;
        }
        self.removed_mask = self.removed_mask.wrapping_shr(to_drop);
        proof {
            broadcast use bits::group_bits;

            let (m, n, s) = (old(self).removed_mask, to_drop, to_drop as u64);
            assert(m >> n == m >> s) by (bit_vector)
                requires
                    s == n as u64,
            ;
            assert(records::positions(self.removed_mask) =~= records::earlier(
                records::positions(m),
                to_drop as int,
            ));
        }
        self.list.trim_back(to_drop as usize);
        self.last_tick = self.last_tick - to_drop;
    }

    /// Drop the ticks after the first value.
    pub fn keep_first_item(&mut self)
        requires
            old(self).wf(),
        ensures
            final(self).wf(),
            final(self)@ == old(self)@.first_kept(),
            final(self).list.items.layout == old(self).list.items.layout,
            final(self).list.items.ring() == old(self)@.ring_first_kept(old(self).list.items.ring()),
            forall|v: T| #[trigger] final(self).stored_as(v) == old(self).stored_as(v),
    {
        proof {
            broadcast use bits::group_bits;

            self.masks();
            bits::leading_zeros_is_highest(self.list.mask);
            records::last_position(self.list.mask, 64);
            bits::highest_below_spec(self.list.mask, 64);
            if bits::highest_below(self.list.mask, 64) < 0 {
                bits::no_bits_is_zero(self.list.mask);
            }
            if self.list.mask == 0 {
                bits::highest_below_unique(0, 64, -1);
            }
        }
        if self.list.stored_items() == 0 {
            return;
        }
        let zeros: u32 = self.list.mask().leading_zeros();
        let ago: u32 = 63 - zeros;
        self.clean(self.last_tick.saturating_sub(ago));
    }
}

/// What was latest at every tick of a window that moved on to the tick before `tick` is what was
/// latest there before. No tick has both a value and a removal, removals lie in the window, and where
/// the window does not hold 64 ticks yet it does not grow to them.
pub open spec fn carried_over<T>(before: Records<T>, after: Records<T>, tick: int) -> bool {
    before.capacity >= 2 && before.disjoint() && before.tidy() && (before.slots.len() == 64
        || after.slots.len() < 64) ==> {
        let reached = before.slots.len() + (tick - 1 - before.last);
        &&& after.last == tick - 1
        &&& after.slots.len() == if reached < before.capacity {
            reached
        } else {
            before.capacity
        }
        &&& forall|t: int|
            after.last - after.slots.len() < t <= after.last ==> (#[trigger] after.latest(t))
                == before.latest(t)
    }
}

/// Shifting a mask up moves its positions.
proof fn shifted_positions(m: u64, n: u32)
    requires
        n < 64,
    ensures
        records::positions(vstd::wrapping::u64_specs::wrapping_shl(m, n)) == records::later(
            records::positions(m),
            n as int,
        ),
{
    broadcast use bits::group_bits;

    let s = n as u64;
    assert(n % 64 == n);
    assert(m << n == m << s) by (bit_vector)
        requires
            s == n as u64,
    ;
    assert(records::positions(m << s) =~= records::later(records::positions(m), n as int));
}

/// Swapping a set bit with one that is not set moves its position.
proof fn swapped_positions(before: u64, after: u64, from: u64, to: u64)
    requires
        from < 64,
        to < 64,
        from != to,
        bits::bit(before, from as int),
        !bits::bit(before, to as int),
        after == before ^ ((1u64 << from) | (1u64 << to)),
    ensures
        records::positions(after) == records::positions(before).remove(from as int).insert(
            to as int,
        ),
{
    broadcast use bits::group_bits;

    assert(records::positions(after) =~= records::positions(before).remove(from as int).insert(
        to as int,
    ));
}

/// The lowest set bit of a mask that was shifted down.
proof fn lowest_in_shifted(m: u64, n: u32)
    requires
        n < 64,
    ensures
        ({
            let low = vstd::std_specs::bits::u64_trailing_zeros(
                vstd::wrapping::u64_specs::wrapping_shr(m, n),
            );
            if bits::lowest_from(m, n as int) < 64 {
                low == bits::lowest_from(m, n as int) - n
            } else {
                low == 64
            }
        }),
{
    broadcast use bits::group_bits;

    let s = n as u64;
    assert(n % 64 == n);
    assert(m >> n == m >> s) by (bit_vector)
        requires
            s == n as u64,
    ;
    let shifted = m >> s;
    let p = bits::lowest_from(m, n as int);
    bits::trailing_zeros_is_lowest(shifted);
    bits::lowest_from_spec(m, n as int);
    if p < 64 {
        bits::lowest_from_unique(shifted, 0, p - n);
    } else {
        bits::lowest_from_unique(shifted, 0, 64);
    }
}

/// The position of the lowest set bit of `m` at or above `from`; 64 when there is none.
fn first_at_or_after(m: u64, from: u64) -> (r: u32)
    requires
        from < 64,
    ensures
        r == bits::lowest_from(m, from as int),
{
    proof {
        bits::one_positive(from);
    }
    let search_mask: u64 = !((1u64 << from) - 1);
    proof {
        broadcast use bits::group_bits;

        bits::bit_low(from, ((1u64 << from) - 1) as u64);
        bits::trailing_zeros_is_lowest(m & search_mask);
        bits::lowest_from_spec(m, from as int);
        bits::lowest_from_unique(m & search_mask, 0, bits::lowest_from(m, from as int));
    }
    (m & search_mask).trailing_zeros()
}

} // verus!
