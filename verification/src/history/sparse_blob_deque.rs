//! A ring buffer with gaps.
use super::blob_deque::{BlobDeque, Ring};
use crate::bits;
use crate::layout::Layout;

use vstd::prelude::*;

verus! {

/// A ring of slots, each of them holding an item or nothing.
///
/// The items are stored densely; a mask tells which slots hold one. The least significant bit of
/// the mask is the back of the collection.
pub struct SparseBlobDeque<T> {
    /// Which slots hold an item
    pub mask: u64,
    /// The number of slots
    pub len: u8,
    /// The largest number of slots
    pub capacity: u8,
    /// The stored items
    pub items: BlobDeque<T>,
}

/// The number of slots that hold an item.
pub open spec fn occupied<T>(slots: Seq<Option<T>>) -> nat
    decreases slots.len(),
{
    if slots.len() == 0 {
        0
    } else {
        occupied(slots.drop_last()) + if slots.last() is Some {
            1nat
        } else {
            0nat
        }
    }
}

/// `n` slots without an item.
pub open spec fn gaps<T>(n: int) -> Seq<Option<T>> {
    Seq::new(
        if n < 0 {
            0nat
        } else {
            n as nat
        },
        |i: int| None,
    )
}

/// The ring of items after a slot was appended to some slots: the front slot goes where there is no
/// room for one more, and the ring grows with its items as long as it is smaller than the slots.
pub open spec fn ring_appended<T>(
    ring: Ring,
    slots: Seq<Option<T>>,
    capacity: int,
    has_item: bool,
) -> Ring {
    let left = if slots.len() == capacity && slots[0] is Some {
        ring.dropped(1)
    } else {
        ring
    };
    if !has_item {
        left
    } else if left.len == left.capacity && left.capacity != capacity {
        left.grown().pushed()
    } else {
        left.pushed()
    }
}

/// The ring of items after `n` gaps were added behind some slots.
pub open spec fn ring_extended<T>(
    ring: Ring,
    slots: Seq<Option<T>>,
    capacity: int,
    n: int,
) -> Ring {
    let kept = capacity - n;
    if kept <= 0 {
        ring.cleared()
    } else if slots.len() > kept {
        ring.dropped(occupied(slots.take(slots.len() - kept)) as int)
    } else {
        ring
    }
}

/// The ring of items after the last `n` slots were dropped.
pub open spec fn ring_trimmed<T>(ring: Ring, slots: Seq<Option<T>>, n: int) -> Ring {
    if n >= slots.len() {
        ring.cleared()
    } else {
        Ring { len: occupied(slots.take(slots.len() - n)) as int, ..ring }
    }
}

/// The ring of items after a value was put into a slot. A new item before all others moves the start
/// of the ring.
pub open spec fn ring_replaced<T>(ring: Ring, slots: Seq<Option<T>>, index: int) -> Ring {
    if index >= slots.len() || slots[index] is Some {
        ring
    } else {
        let room = if ring.len == ring.capacity {
            ring.grown()
        } else {
            ring
        };
        if ring.len > 0 && occupied(slots.take(index)) == 0 {
            room.put_first()
        } else {
            Ring { len: room.len + 1, ..room }
        }
    }
}

impl<T> View for SparseBlobDeque<T> {
    type V = Seq<Option<T>>;

    /// The slots, front first.
    open spec fn view(&self) -> Seq<Option<T>> {
        Seq::new(
            self.len as nat,
            |i: int|
                if bits::bit(self.mask, self.len - 1 - i) {
                    Some(self.items@[bits::rank(self.mask, self.len - 1 - i) - 1])
                } else {
                    None
                },
        )
    }
}

impl<T> SparseBlobDeque<T> {
    /// There are at most 64 slots, the mask has no bit beyond them, and the stored items are as
    /// many as its bits.
    pub open spec fn wf(&self) -> bool {
        &&& 1 <= self.capacity <= 64
        &&& self.len <= self.capacity
        &&& bits::below(self.mask, self.len as int)
        &&& self.items.wf()
        &&& self.items.capacity <= self.capacity
        &&& self.items@.len() == bits::ones(self.mask, 64)
    }

    /// What a value reads back as once it is stored.
    #[verifier::inline]
    pub open spec fn stored_as(&self, value: T) -> T {
        self.items.stored_as(value)
    }

    /// The items take no bytes.
    pub open spec fn zero_sized(&self) -> bool {
        self.items.zero_sized()
    }

    /// The items of two collections lie the same way where their slots do.
    proof fn slot_item(&self, i: int)
        requires
            self.wf(),
            0 <= i < self.len,
        ensures
            self@[i] is Some <==> bits::bit(self.mask, self.len - 1 - i),
            self@[i] is Some ==> {
                &&& self@[i] == Some(self.items@[bits::rank(self.mask, self.len - 1 - i) - 1])
                &&& 1 <= bits::rank(self.mask, self.len - 1 - i) <= self.items@.len()
            },
    {
        bits::rank_bounds(self.mask, self.len - 1 - i);
    }

    /// The mask is determined by the slots.
    pub proof fn mask_bits(&self)
        requires
            self.wf(),
        ensures
            forall|k: int|
                #[trigger] bits::bit(self.mask, k) <==> 0 <= k < self.len && self@[self.len - 1 - k]
                    is Some,
    {
        assert forall|k: int|
            #[trigger] bits::bit(self.mask, k) <==> 0 <= k < self.len && self@[self.len - 1 - k]
                is Some by {
            if 0 <= k < self.len {
                self.slot_item(self.len - 1 - k);
            }
        }
    }

    /// The stored items are the occupied slots.
    pub proof fn stored_is_occupied(&self)
        requires
            self.wf(),
        ensures
            self.items@.len() == occupied(self@),
            self.items@.len() <= self.len,
    {
        self.mask_bits();
        Self::occupied_is_rank(self@, self.mask, self.len as int, 0);
        assert(self@.take(self.len as int) =~= self@);
        bits::ones_flat(self.mask, self.len as int, 64);
        bits::ones_monotone(self.mask, 0, self.len as int);
    }

    proof fn occupied_is_rank(slots: Seq<Option<T>>, mask: u64, len: int, k: int)
        requires
            slots.len() == len <= 64,
            0 <= k <= len,
            bits::below(mask, len),
            forall|j: int|
                0 <= j < len ==> (#[trigger] bits::bit(mask, j) <==> slots[len - 1 - j] is Some),
        ensures
            occupied(slots.take(len - k)) == bits::rank(mask, k),
        decreases len - k,
    {
        if k < len {
            Self::occupied_is_rank(slots, mask, len, k + 1);
            let part = slots.take(len - k);
            assert(part.drop_last() =~= slots.take(len - (k + 1)));
            assert(part.last() == slots[len - 1 - k]);
            assert(bits::bit(mask, k) <==> slots[len - 1 - k] is Some);
            bits::rank_bounds(mask, k);
        } else {
            assert(slots.take(0).len() == 0);
            bits::ones_flat(mask, len, 64);
        }
    }

    /// The items before a slot are those at the bits above its own.
    proof fn occupied_before(&self, i: int)
        requires
            self.wf(),
            0 <= i <= self.len,
        ensures
            occupied(self@.take(i)) == bits::rank(self.mask, self.len - i),
    {
        self.mask_bits();
        Self::occupied_is_rank(self@, self.mask, self.len as int, self.len - i);
    }

    /// An empty collection for items of the given layout.
    pub fn new(layout: Layout, cap: u8) -> (r: Self)
        requires
            1 <= cap <= 64,
        ensures
            r.wf(),
            r@ == Seq::<Option<T>>::empty(),
            r.capacity == cap,
            r.items.layout == layout,
            r.items.capacity == 1,
            r.items.start == 0,
            forall|v: T| #[trigger] r.stored_as(v) == v,
    {
        let r = SparseBlobDeque {
            mask: 0,
            len: 0,
            capacity: cap,
            items: BlobDeque::new(layout, 1),
        };
        proof {
            broadcast use bits::group_bits;

            bits::ones_flat(0u64, 0, 64);
        }
        r
    }

    pub fn len(&self) -> (r: usize)
        ensures
            r == self@.len(),
            r == self.len,
    {
        self.len as usize
    }

    pub fn is_empty(&self) -> (r: bool)
        ensures
            r == (self@.len() == 0),
    {
        self.len == 0
    }

    pub fn capacity(&self) -> (r: usize)
        ensures
            r == self.capacity,
    {
        self.capacity as usize
    }

    /// The number of slots that hold an item.
    pub fn stored_items(&self) -> (r: usize)
        requires
            self.wf(),
        ensures
            r == occupied(self@),
            r <= self@.len(),
            r == 0 <==> self.mask == 0,
    {
        proof {
            self.stored_is_occupied();
            if self.items@.len() == 0 {
                assert forall|i: int| !#[trigger] bits::bit(self.mask, i) by {
                    if 0 <= i < 64 {
                        bits::ones_monotone(self.mask, 0, i);
                        bits::ones_monotone(self.mask, i + 1, 64);
                    }
                }
                bits::no_bits_is_zero(self.mask);
            }
            if self.mask == 0 {
                broadcast use bits::group_bits;

                bits::ones_flat(0u64, 0, 64);
            }
        }
        self.items.len()
    }

    /// Which slots hold an item. The least significant bit is the back of the collection.
    pub fn mask(&self) -> (r: u64)
        requires
            self.wf(),
        ensures
            r == self.mask,
            forall|k: int|
                #[trigger] bits::bit(r, k) <==> 0 <= k < self.len && self@[self.len - 1 - k] is Some,
    {
        proof {
            self.mask_bits();
        }
        self.mask
    }

    /// The mask, to be changed. What the items stand for afterwards is for the caller to see to.
    pub fn mask_mut(&mut self) -> (r: &mut u64)
        ensures
            *r == old(self).mask,
            *final(self) == (SparseBlobDeque { mask: *final(r), ..*old(self) }),
    {
        &mut self.mask
    }

    /// The item in the slot at `index`, where there is one.
    pub fn get(&self, index: usize) -> (r: Option<&T>)
        requires
            self.wf(),
        ensures
            r == if index < self@.len() {
                match self@[index as int] {
                    Some(item) => Some(&item),
                    None => None,
                }
            } else {
                None
            },
    {
        if index >= self.len as usize {
            return None;
        }
        let shift: u64 = self.len as u64 - 1 - index as u64;
        let index_bit: u64 = 1u64 << shift;
        proof {
            broadcast use bits::group_bits;

            self.slot_item(index as int);
            bit_of_masked(self.mask, shift);
        }
        if self.mask & index_bit == 0 {
            return None;
        }
        let item_index: u32 = ones_at_or_above(self.mask, shift) - 1;
        self.items.get(item_index as usize)
    }

    /// Append a slot to the back, dropping the front slot if at capacity.
    pub fn append(&mut self, value: Option<T>)
        requires
            old(self).wf(),
        ensures
            final(self).wf(),
            final(self).capacity == old(self).capacity,
            final(self).items.layout == old(self).items.layout,
            final(self)@ == (if old(self)@.len() == old(self).capacity {
                old(self)@.drop_first()
            } else {
                old(self)@
            }).push(
                match value {
                    Some(v) => Some(old(self).stored_as(v)),
                    None => None,
                },
            ),
            forall|v: T| #[trigger]
                final(self).stored_as(v) == match value {
                    Some(value) if old(self).zero_sized() => old(self).stored_as(value),
                    _ => old(self).stored_as(v),
                },
            final(self).items.ring() == ring_appended(
                old(self).items.ring(),
                old(self)@,
                old(self).capacity as int,
                value is Some,
            ),
    {
        if self.len == self.capacity {
            self.drop_front_slot();
        }
        self.push_slot(value);
    }

    /// Drop the front slot of a collection that is not empty.
    fn drop_front_slot(&mut self)
        requires
            old(self).wf(),
            old(self).len > 0,
        ensures
            final(self).wf(),
            final(self).len == old(self).len - 1,
            final(self).capacity == old(self).capacity,
            final(self).items.layout == old(self).items.layout,
            final(self).items.ring() == if old(self)@[0] is Some {
                old(self).items.ring().dropped(1)
            } else {
                old(self).items.ring()
            },
            final(self)@ == old(self)@.drop_first(),
            forall|v: T| #[trigger] final(self).stored_as(v) == old(self).stored_as(v),
    {
        let shift: u64 = self.len as u64 - 1;
        let index_bit: u64 = 1u64 << shift;
        proof {
            bit_of_masked(self.mask, shift);
            bits::rank_bounds(self.mask, shift as int);
            self.slot_item(0);
        }
        if self.mask & index_bit != 0 {
            self.items.drop_front();
        }
        self.mask = self.mask & !index_bit;
        self.len = self.len - 1;
        proof {
            broadcast use bits::group_bits;

            let before = old(self).mask;
            let after = self.mask;
            bits::ones_between(before, after, 0, shift as int);
            bits::ones_flat(before, shift + 1, 64);
            bits::ones_flat(after, shift as int, 64);
            assert forall|i: int| 0 <= i < self.len implies self@[i] == old(self)@.drop_first()[i] by {
                old(self).slot_item(i + 1);
                let k = self.len - 1 - i;
                bits::ones_between(before, after, 0, k);
                bits::rank_bounds(after, k);
            }
            assert(self@ =~= old(self)@.drop_first());
        }
    }

    /// Append a slot to a collection that is not full.
    fn push_slot(&mut self, value: Option<T>)
        requires
            old(self).wf(),
            old(self).len < old(self).capacity,
        ensures
            final(self).wf(),
            final(self).len == old(self).len + 1,
            final(self).capacity == old(self).capacity,
            final(self).items.layout == old(self).items.layout,
            final(self)@ == old(self)@.push(
                match value {
                    Some(v) => Some(old(self).stored_as(v)),
                    None => None,
                },
            ),
            forall|v: T| #[trigger]
                final(self).stored_as(v) == match value {
                    Some(value) if old(self).zero_sized() => old(self).stored_as(value),
                    _ => old(self).stored_as(v),
                },
            final(self).items.ring() == ring_appended(
                old(self).items.ring(),
                old(self)@,
                old(self).capacity as int,
                value is Some,
            ),
    {
        proof {
            self.stored_is_occupied();
        }
        let ghost had = value is Some;
        self.mask = self.mask.wrapping_shl(1);
        if let Some(value) = value {
            if self.items.capacity() == self.items.len() && self.items.capacity()
                != self.capacity as usize {
                let new_cap: u8 = self.items.capacity + 1;
                self.items.resize(new_cap);
            }
            self.items.append(value);
            self.mask = self.mask | 1;
        }
        self.len = self.len + 1;
        proof {
            assert(1u32 % 64 == 1);
            if had {
                assert(self.items@.drop_last() =~= old(self).items@);
            }
            Self::pushed(*old(self), *self, had);
        }
    }

    /// What is held after a slot was appended.
    proof fn pushed(before: Self, after: Self, had: bool)
        requires
            before.wf(),
            before.len < before.capacity,
            after.capacity == before.capacity,
            after.len == before.len + 1,
            after.items.wf(),
            after.items.capacity <= after.capacity,
            after.mask == if had {
                (before.mask << 1u32) | 1
            } else {
                before.mask << 1u32
            },
            if had {
                after.items@.len() == before.items@.len() + 1 && after.items@.drop_last()
                    == before.items@
            } else {
                after.items@ == before.items@
            },
        ensures
            after.wf(),
            after@ == before@.push(
                if had {
                    Some(after.items@.last())
                } else {
                    None
                },
            ),
    {
        broadcast use bits::group_bits;

        let a = before.mask;
        let b = after.mask;
        let one = if had {
            1int
        } else {
            0int
        };
        assert(a << 1u32 == a << 1u64) by (bit_vector);
        assert forall|i: int| #[trigger] bits::bit(b, i) == (if i == 0 {
            had
        } else {
            i < 64 && bits::bit(a, i - 1)
        }) by {
            assert(!bits::bit(a, -1));
            assert(bits::bit(a << 1u64, i) == (i < 64 && bits::bit(a, i - 1)));
        }
        assert(!bits::bit(a, 63));
        Self::ranks_shifted(a, b);
        bits::ones_shifted(a, b, 1, 0, 63);
        assert(bits::ones(b, 0) == 0);
        assert(bits::ones(b, 1) == one);
        assert(bits::ones(a, 64) == bits::ones(a, 63));
        assert forall|i: int| after.len <= i < 64 implies !#[trigger] bits::bit(b, i) by {
            assert(!bits::bit(a, i - 1));
        }
        let expected = before@.push(
            if had {
                Some(after.items@.last())
            } else {
                None
            },
        );
        assert forall|i: int| 0 <= i < after.len implies after@[i] == expected[i] by {
            let k = after.len - 1 - i;
            if k > 0 {
                before.slot_item(i);
                assert(bits::rank(b, (k - 1) + 1) == bits::rank(a, k - 1));
                if had {
                    assert(after.items@.drop_last()[bits::rank(a, k - 1) - 1] == before.items@[bits::rank(a, k - 1) - 1]);
                }
            } else {
                bits::rank_bounds(b, 0);
            }
        }
        assert(after@ =~= expected);
    }

    /// Moving a mask up by one position moves the ranks.
    proof fn ranks_shifted(a: u64, b: u64)
        requires
            !bits::bit(a, 63),
            forall|i: int| 0 < i < 64 ==> #[trigger] bits::bit(b, i) == bits::bit(a, i - 1),
        ensures
            forall|k: int| 0 <= k < 63 ==> #[trigger] bits::rank(b, k + 1) == bits::rank(a, k),
    {
        assert forall|k: int| 0 <= k < 63 implies #[trigger] bits::rank(b, k + 1) == bits::rank(
            a,
            k,
        ) by {
            assert forall|j: int| k <= j < 63 implies #[trigger] bits::bit(a, j) == bits::bit(
                b,
                j + 1,
            ) by {}
            bits::ones_shifted(a, b, 1, k, 63);
            assert(bits::ones(a, 64) == bits::ones(a, 63));
        }
    }

    /// Add `n` gaps before the front slot, as far as they fit.
    pub fn extend_front(&mut self, n: usize)
        requires
            old(self).wf(),
        ensures
            final(self).wf(),
            final(self).capacity == old(self).capacity,
            final(self).items == old(self).items,
            final(self).mask == old(self).mask,
            final(self)@ == gaps::<T>(
                if n % 256 < old(self).capacity - old(self)@.len() {
                    (n % 256) as int
                } else {
                    old(self).capacity - old(self)@.len()
                },
            ) + old(self)@,
    {
        let wanted: u8 = #[verifier::truncate]
        (n as u8);
        proof {
            assert(n as u8 == n % 256) by (bit_vector);
        }
        let room: u8 = self.capacity - self.len;
        let added: u8 = if wanted < room {
            wanted
        } else {
            room
        };
        self.len = self.len + added;
        proof {
            assert forall|i: int| 0 <= i < self.len implies self@[i] == (gaps::<T>(added as int)
                + old(self)@)[i] by {
                if i < added {
                    assert(!bits::bit(self.mask, self.len - 1 - i));
                }
            }
            assert(self@ =~= gaps::<T>(added as int) + old(self)@);
        }
    }

    /// Add `n` gaps behind the back slot, dropping the front slots that they push out.
    pub fn extend_back(&mut self, n: usize)
        requires
            old(self).wf(),
        ensures
            final(self).wf(),
            final(self).capacity == old(self).capacity,
            final(self).items.layout == old(self).items.layout,
            final(self).items.ring() == ring_extended(
                old(self).items.ring(),
                old(self)@,
                old(self).capacity as int,
                n as int,
            ),
            final(self)@ == if n >= old(self).capacity {
                gaps::<T>(old(self).capacity as int)
            } else {
                let kept = old(self).capacity - n;
                (if old(self)@.len() > kept {
                    old(self)@.skip(old(self)@.len() - kept)
                } else {
                    old(self)@
                }) + gaps::<T>(n as int)
            },
            forall|v: T| #[trigger] final(self).stored_as(v) == old(self).stored_as(v),
    {
        if n >= self.capacity as usize {
            self.items.clear();
            self.mask = 0;
            self.len = self.capacity;
            proof {
                broadcast use bits::group_bits;

                assert(self.items@.len() == 0);
                assert(self.items.ring() == old(self).items.ring().cleared());
                bits::ones_flat(0u64, 0, 64);
                assert(self@ =~= gaps::<T>(self.capacity as int));
            }
            return;
        }
        let ghost before = self.mask;
        proof {
            bits::one_positive(n as u64);
        }
        let low: u64 = (1u64 << (n as u64)) - 1;
        let search_mask: u64 = low.wrapping_shl(self.capacity as u32 - n as u32);
        let front: u32 = (self.mask & search_mask).count_ones();
        let ghost kept = self.capacity - n;
        proof {
            Self::front_mask(n as u64, self.capacity as u64, low, search_mask);
            bits_in(before, search_mask, kept, self.capacity as int);
            bits::ones_flat(before, self.capacity as int, 64);
            bits::ones_monotone(before, 0, kept);
            if self.len > kept {
                self.occupied_before(self.len - kept);
            } else {
                bits::ones_flat(before, kept, self.capacity as int);
            }
        }
        let mut dropped: u32 = 0;
        while dropped < front
            invariant
                self.items.wf(),
                dropped <= front <= old(self).items@.len(),
                self.capacity == old(self).capacity,
                self.len == old(self).len,
                self.mask == old(self).mask,
                self.items.layout == old(self).items.layout,
                self.items.capacity == old(self).items.capacity,
                self.items@ == old(self).items@.skip(dropped as int),
                old(self).items.wf(),
                self.items.ring() == old(self).items.ring().dropped(dropped as int),
                forall|v: T| #[trigger] self.stored_as(v) == old(self).stored_as(v),
            decreases front - dropped,
        {
            self.items.drop_front();
            proof {
                assert(old(self).items@.skip(dropped as int).drop_first() =~= old(self).items@.skip(
                    dropped + 1,
                ));
            }
            dropped = dropped + 1;
        }
        self.mask = (self.mask & !search_mask).wrapping_shl(n as u32);
        let room: usize = self.capacity as usize - n;
        self.len = if (self.len as usize) < room {
            self.len + n as u8
        } else {
            self.capacity
        };
        proof {
            Self::extended(*old(self), *self, n as int, search_mask);
        }
    }

    /// The mask of the `n` positions below `capacity`.
    proof fn front_mask(n: u64, capacity: u64, low: u64, m: u64)
        requires
            n < capacity <= 64,
            low == (1u64 << n) - 1,
            m == vstd::wrapping::u64_specs::wrapping_shl(low, (capacity - n) as u32),
        ensures
            forall|i: int| #[trigger] bits::bit(m, i) == (capacity - n <= i < capacity),
    {
        broadcast use bits::group_bits;

        bits::bit_low(n, low);
        let s = (capacity - n) as u32;
        let t = (s % 64) as u64;
        assert(low << (s % 64) == low << t) by {
            let u = s % 64;
            assert(low << u == low << (u as u64)) by (bit_vector);
        }
        if capacity - n == 64 {
            // no positions at all
            assert(n == 0);
            assert forall|i: int| !#[trigger] bits::bit(low, i) by {}
            bits::no_bits_is_zero(low);
            assert forall|i: int| #[trigger] bits::bit(m, i) == (capacity - n <= i < capacity) by {
                assert(bits::bit(low << t, i) == (i < 64 && bits::bit(low, i - t)));
            }
        } else {
            assert forall|i: int| #[trigger] bits::bit(m, i) == (capacity - n <= i < capacity) by {
                assert(bits::bit(low << t, i) == (i < 64 && bits::bit(low, i - t)));
            }
        }
    }

    /// What is left after the `n` front positions were dropped and the mask moved up.
    proof fn extended(before: Self, after: Self, n: int, search_mask: u64)
        requires
            before.wf(),
            0 <= n < before.capacity,
            after.capacity == before.capacity,
            after.items.wf(),
            after.items.capacity == before.items.capacity,
            forall|i: int|
                #[trigger] bits::bit(search_mask, i) == (before.capacity - n <= i < before.capacity),
            after.mask == vstd::wrapping::u64_specs::wrapping_shl(
                before.mask & !search_mask,
                n as u32,
            ),
            after.items@ == before.items@.skip(bits::rank(before.mask, before.capacity - n)),
            after.len == if before.len + n < before.capacity {
                before.len + n
            } else {
                before.capacity as int
            },
        ensures
            after.wf(),
            after@ == (if before@.len() > before.capacity - n {
                before@.skip(before@.len() - (before.capacity - n))
            } else {
                before@
            }) + gaps::<T>(n),
    {
        broadcast use bits::group_bits;

        let kept = before.capacity - n;
        let cut = before.mask & !search_mask;
        let s = n as u32;
        let t = n as u64;
        assert(s % 64 == s);
        assert(cut << s == cut << t) by (bit_vector)
            requires
                t == s as u64,
        ;
        assert forall|i: int| #[trigger] bits::bit(cut, i) == (bits::bit(before.mask, i) && i < kept) by {
            if 0 <= i < 64 {
                assert(bits::bit(!search_mask, i) == !bits::bit(search_mask, i));
                if i >= before.capacity {
                    assert(!bits::bit(before.mask, i));
                }
            }
        }
        assert forall|i: int| #[trigger] bits::bit(after.mask, i) == (n <= i < 64 && i - n < kept && bits::bit(
            before.mask,
            i - n,
        )) by {
            assert(bits::bit(cut << t, i) == (i < 64 && bits::bit(cut, i - t)));
        }
        assert forall|k: int| 0 <= k < kept implies #[trigger] bits::bit(before.mask, k) == bits::bit(
            after.mask,
            k + n,
        ) by {}
        bits::ones_shifted(before.mask, after.mask, n, 0, kept);
        bits::ones_flat(after.mask, 0, n);
        bits::ones_flat(after.mask, before.capacity as int, 64);
        bits::ones_flat(before.mask, before.capacity as int, 64);
        bits::ones_monotone(before.mask, kept, 64);
        bits::ones_monotone(before.mask, 0, kept);
        let skipped = if before@.len() > kept {
            before@.len() - kept
        } else {
            0
        };
        let expected = before@.skip(skipped) + gaps::<T>(n);
        assert(before@.skip(0) =~= before@);
        assert(after@.len() == expected.len());
        assert forall|i: int| 0 <= i < after.len implies after@[i] == expected[i] by {
            let k = after.len - 1 - i;
            if k >= n {
                before.slot_item(i + skipped);
                let old_k = before.len - 1 - (i + skipped);
                assert(old_k == k - n);
                assert(bits::bit(after.mask, k) == bits::bit(before.mask, old_k));
                bits::ones_shifted(before.mask, after.mask, n, old_k, kept);
                bits::rank_bounds(after.mask, k);
                bits::ones_monotone(after.mask, 0, k);
            } else {
                assert(!bits::bit(after.mask, k));
            }
        }
        assert(after@ =~= expected);
    }

    /// Drop the last `n` slots.
    pub fn trim_back(&mut self, n: usize)
        requires
            old(self).wf(),
        ensures
            final(self).wf(),
            final(self).capacity == old(self).capacity,
            final(self).items.layout == old(self).items.layout,
            final(self).items.ring() == ring_trimmed(old(self).items.ring(), old(self)@, n as int),
            final(self)@ == if n >= old(self)@.len() {
                Seq::<Option<T>>::empty()
            } else {
                old(self)@.take(old(self)@.len() - n)
            },
            forall|v: T| #[trigger] final(self).stored_as(v) == old(self).stored_as(v),
    {
        if n >= self.len as usize {
            self.clear();
            return;
        }
        let ghost before = self.mask;
        proof {
            bits::one_positive(n as u64);
        }
        let low: u64 = (1u64 << (n as u64)) - 1;
        proof {
            bits::bit_low(n as u64, low);
            bits_in(before, low, 0, n as int);
            bits::ones_monotone(before, n as int, 64);
            self.occupied_before(self.len - n);
        }
        let items_to_drop: u32 = (self.mask & low).count_ones();
        let mut dropped: u32 = 0;
        while dropped < items_to_drop
            invariant
                self.items.wf(),
                dropped <= items_to_drop <= old(self).items@.len(),
                self.capacity == old(self).capacity,
                self.len == old(self).len,
                self.mask == old(self).mask,
                self.items.layout == old(self).items.layout,
                self.items.capacity == old(self).items.capacity,
                self.items@ == old(self).items@.take(old(self).items@.len() - dropped),
                self.items.start == old(self).items.start,
                forall|v: T| #[trigger] self.stored_as(v) == old(self).stored_as(v),
            decreases items_to_drop - dropped,
        {
            self.items.drop_back();
            proof {
                let left = old(self).items@.len() - dropped;
                assert(old(self).items@.take(left).drop_last() =~= old(self).items@.take(left - 1));
            }
            dropped = dropped + 1;
        }
        self.mask = self.mask.wrapping_shr(n as u32);
        self.len = self.len - n as u8;
        proof {
            broadcast use bits::group_bits;

            let after = self.mask;
            let s = n as u32;
            let t = n as u64;
            assert(s % 64 == s);
            assert(before >> s == before >> t) by (bit_vector)
                requires
                    t == s as u64,
            ;
            assert forall|i: int| #[trigger] bits::bit(after, i) == (i >= 0 && bits::bit(before, i + n)) by {
                assert(bits::bit(before >> t, i) == (i >= 0 && bits::bit(before, i + t)));
            }
            assert forall|k: int| 0 <= k < 64 - n implies #[trigger] bits::bit(after, k) == bits::bit(
                before,
                k + n,
            ) by {}
            bits::ones_shifted(after, before, n as int, 0, 64 - n);
            bits::ones_flat(after, 64 - n, 64);
            let expected = old(self)@.take(self.len as int);
            assert forall|i: int| 0 <= i < self.len implies self@[i] == expected[i] by {
                old(self).slot_item(i);
                let k = self.len - 1 - i;
                bits::ones_shifted(after, before, n as int, k, 64 - n);
                assert(bits::bit(after, k) == bits::bit(before, k + n));
                bits::rank_bounds(after, k);
                bits::ones_monotone(after, 0, k);
            }
            assert(self@ =~= expected);
        }
    }

    /// Drop every slot.
    pub fn clear(&mut self)
        requires
            old(self).wf(),
        ensures
            final(self).wf(),
            final(self).capacity == old(self).capacity,
            final(self).items.layout == old(self).items.layout,
            final(self).items.ring() == old(self).items.ring().cleared(),
            final(self)@ == Seq::<Option<T>>::empty(),
            final(self).mask == 0,
            forall|v: T| #[trigger] final(self).stored_as(v) == old(self).stored_as(v),
    {
        self.items.clear();
        self.mask = 0;
        self.len = 0;
        proof {
            broadcast use bits::group_bits;

            bits::ones_flat(0u64, 0, 64);
        }
    }

    /// Put a value into the slot at `index`, in place of the item there if there is one; nothing
    /// is done where there is no such slot.
    pub fn replace(&mut self, index: usize, value: T)
        requires
            old(self).wf(),
        ensures
            final(self).wf(),
            final(self).capacity == old(self).capacity,
            final(self).items.layout == old(self).items.layout,
            final(self).items.ring() == ring_replaced(
                old(self).items.ring(),
                old(self)@,
                index as int,
            ),
            final(self)@ == if index < old(self)@.len() {
                old(self)@.update(index as int, Some(old(self).stored_as(value)))
            } else {
                old(self)@
            },
            forall|v: T| #[trigger]
                final(self).stored_as(v) == if old(self).zero_sized() && index < old(self)@.len() {
                    old(self).stored_as(value)
                } else {
                    old(self).stored_as(v)
                },
    {
        if index >= self.len as usize {
            return;
        }
        let shift: u64 = self.len as u64 - 1 - index as u64;
        let index_bit: u64 = 1u64 << shift;
        let front: u32 = ones_at_or_above(self.mask, shift);
        proof {
            self.slot_item(index as int);
            self.stored_is_occupied();
            self.occupied_before(index as int);
            bit_of_masked(self.mask, shift);
            bits::rank_bounds(self.mask, shift as int);
        }
        if self.mask & index_bit != 0 {
            let ghost old_items = self.items@;
            if let Some(item) = self.items.get_mut(front as usize - 1) {
                *item = value;
            }
            proof {
                let expected = old(self)@.update(index as int, Some(old(self).stored_as(value)));
                assert forall|i: int| 0 <= i < self.len implies self@[i] == expected[i] by {
                    old(self).slot_item(i);
                    let k = self.len - 1 - i;
                    if k > shift {
                        bits::ones_monotone(self.mask, shift + 1, k);
                    } else if k < shift {
                        bits::ones_monotone(self.mask, k + 1, shift as int);
                    }
                    bits::rank_bounds(self.mask, k);
                }
                assert(self@ =~= expected);
                assert(self.items@.len() == old_items.len());
            }
            return;
        }
        if self.items.len() == self.items.capacity() {
            proof {
                // a free slot leaves fewer items than slots
                assert(!bits::bit(self.mask, shift as int));
                bits::ones_monotone(self.mask, 0, shift as int);
                bits::ones_monotone(self.mask, shift + 1, self.len as int);
                bits::ones_flat(self.mask, self.len as int, 64);
            }
            let new_cap: u8 = self.items.capacity + 1;
            self.items.resize(new_cap);
        }
        let ghost with_room = *self;
        proof {
            bits::one_positive(shift);
        }
        let behind: u64 = self.mask & (index_bit - 1);
        proof {
            broadcast use bits::group_bits;

            bits::bit_low(shift, (index_bit - 1) as u64);
            if behind == 0 {
                assert forall|k: int| 0 <= k < shift implies !#[trigger] bits::bit(self.mask, k) by {
                    assert(bits::bit(behind, k) == (bits::bit(self.mask, k) && bits::bit((index_bit - 1) as u64, k)));
                    assert(!bits::bit(0u64, k));
                }
                bits::ones_flat(self.mask, 0, shift as int);
            }
        }
        if behind == 0 {
            self.mask = self.mask | index_bit;
            self.items.append(value);
            proof {
                assert(with_room.items@.push(old(self).stored_as(value))
                    =~= with_room.items@.insert(front as int, old(self).stored_as(value)));
            }
        } else {
            self.mask = self.mask | index_bit;
            let _ = self.items.insert(front as usize, value);
        }
        proof {
            Self::filled(with_room, *self, shift, old(self).stored_as(value));
        }
    }

    /// What is held after a free slot was given an item.
    proof fn filled(before: Self, after: Self, shift: u64, item: T)
        requires
            before.wf(),
            shift < before.len,
            !bits::bit(before.mask, shift as int),
            after.capacity == before.capacity,
            after.len == before.len,
            after.mask == before.mask | (1u64 << shift),
            after.items.wf(),
            after.items.capacity <= after.capacity,
            after.items@ == before.items@.insert(bits::rank(before.mask, shift as int), item),
        ensures
            after.wf(),
            after@ == before@.update(before.len - 1 - shift, Some(item)),
    {
        broadcast use bits::group_bits;

        let m = before.mask;
        let n = after.mask;
        assert forall|i: int| #[trigger] bits::bit(n, i) == (bits::bit(m, i) || i == shift) by {}
        Self::ranks_filled(m, n, shift as int);
        bits::rank_bounds(m, shift as int);
        assert(after.items@.len() == before.items@.len() + 1);
        let expected = before@.update(before.len - 1 - shift, Some(item));
        assert forall|i: int| 0 <= i < after.len implies after@[i] == expected[i] by {
            before.slot_item(i);
            let k = after.len - 1 - i;
            bits::rank_bounds(n, k);
        }
        assert(after@ =~= expected);
    }

    /// Setting a bit of a mask raises the ranks at and below it.
    proof fn ranks_filled(m: u64, n: u64, at: int)
        requires
            0 <= at < 64,
            !bits::bit(m, at),
            forall|i: int| #[trigger] bits::bit(n, i) == (bits::bit(m, i) || i == at),
        ensures
            bits::ones(n, 64) == bits::ones(m, 64) + 1,
            bits::rank(m, at) <= bits::ones(m, 64),
            forall|k: int| 0 <= k <= at ==> #[trigger] bits::rank(n, k) == bits::rank(m, k) + 1,
            forall|k: int| at < k < 64 ==> #[trigger] bits::rank(n, k) == bits::rank(m, k),
            forall|k: int|
                at < k < 64 && bits::bit(m, k) ==> 1 <= #[trigger] bits::rank(m, k) <= bits::rank(m, at),
            forall|k: int|
                0 <= k < at && bits::bit(m, k) ==> #[trigger] bits::rank(m, k) > bits::rank(m, at),
    {
        bits::ones_between(m, n, 0, at);
        bits::ones_between(m, n, at + 1, 64);
        assert(bits::ones(n, at + 1) == bits::ones(n, at) + 1);
        assert(bits::ones(m, at + 1) == bits::ones(m, at));
        assert forall|k: int| 0 <= k <= at implies #[trigger] bits::rank(n, k) == bits::rank(m, k)
            + 1 by {
            bits::ones_between(m, n, 0, k);
        }
        assert forall|k: int| at < k < 64 implies #[trigger] bits::rank(n, k) == bits::rank(
            m,
            k,
        ) by {
            bits::ones_between(m, n, k, 64);
        }
        assert forall|k: int| at < k < 64 && bits::bit(m, k) implies 1 <= #[trigger] bits::rank(
            m,
            k,
        ) <= bits::rank(m, at) by {
            bits::rank_bounds(m, k);
            bits::ones_monotone(m, at, k);
        }
        assert forall|k: int| 0 <= k < at && bits::bit(m, k) implies #[trigger] bits::rank(m, k)
            > bits::rank(m, at) by {
            bits::ones_monotone(m, k + 1, at);
        }
    }

    /// Moving a bit of the mask past positions without one moves the item to the other slot.
    pub proof fn bit_moved(before: Self, after: Self, from: u64, to: u64)
        requires
            before.wf(),
            after == (SparseBlobDeque { mask: after.mask, ..before }),
            after.mask == before.mask ^ ((1u64 << from) | (1u64 << to)),
            to < from < before.len,
            bits::bit(before.mask, from as int),
            forall|k: int| to <= k < from ==> !#[trigger] bits::bit(before.mask, k),
        ensures
            after.wf(),
            after@ == before@.update(
                before.len - 1 - to,
                before@[before.len - 1 - from],
            ).update(before.len - 1 - from, None),
    {
        broadcast use bits::group_bits;

        let m = before.mask;
        let n = after.mask;
        let swap = (1u64 << from) | (1u64 << to);
        assert forall|i: int| #[trigger] bits::bit(n, i) == (if i == from {
            false
        } else if i == to {
            true
        } else {
            bits::bit(m, i)
        }) by {
            assert(bits::bit(swap, i) == (bits::bit(1u64 << from, i) || bits::bit(1u64 << to, i)));
        }
        Self::ranks_moved(m, n, from as int, to as int);
        let expected = before@.update(
            before.len - 1 - to,
            before@[before.len - 1 - from],
        ).update(before.len - 1 - from, None);
        before.slot_item(before.len - 1 - from);
        assert forall|i: int| 0 <= i < after.len implies after@[i] == expected[i] by {
            before.slot_item(i);
            let k = after.len - 1 - i;
            assert(bits::bit(n, k) == bits::bit(n, k));
        }
        assert(after@ =~= expected);
    }

    /// Moving a bit of a mask down past positions without one keeps the ranks of the set bits.
    proof fn ranks_moved(m: u64, n: u64, from: int, to: int)
        requires
            0 <= to < from < 64,
            bits::bit(m, from),
            forall|k: int| to <= k < from ==> !#[trigger] bits::bit(m, k),
            forall|i: int| #[trigger] bits::bit(n, i) == (if i == from {
                false
            } else if i == to {
                true
            } else {
                bits::bit(m, i)
            }),
        ensures
            bits::ones(n, 64) == bits::ones(m, 64),
            bits::rank(n, to) == bits::rank(m, from),
            forall|k: int| 0 <= k < to || from < k < 64 ==> #[trigger] bits::rank(n, k) == bits::rank(
                m,
                k,
            ),
    {
        bits::ones_between(m, n, 0, to);
        bits::ones_between(m, n, from + 1, 64);
        bits::ones_flat(m, to, from);
        bits::ones_flat(n, to + 1, from + 1);
        assert(bits::ones(n, to + 1) == bits::ones(n, to) + 1);
        assert(bits::ones(m, from + 1) == bits::ones(m, from) + 1);
        assert forall|k: int| 0 <= k < to || from < k < 64 implies #[trigger] bits::rank(n, k)
            == bits::rank(m, k) by {
            if k < to {
                bits::ones_between(m, n, 0, k);
            } else {
                bits::ones_between(m, n, k, 64);
            }
        }
    }
}

/// A mask cut to one position is zero where that bit is not set.
pub proof fn bit_of_masked(m: u64, k: u64)
    requires
        k < 64,
    ensures
        m & (1u64 << k) != 0 <==> bits::bit(m, k as int),
{
    broadcast use bits::group_bits;

    let cut = m & (1u64 << k);
    if cut == 0 {
        assert(bits::bit(cut, k as int) == (bits::bit(m, k as int) && bits::bit(1u64 << k, k as int)));
        assert(!bits::bit(0u64, k as int));
    } else if !bits::bit(m, k as int) {
        assert forall|i: int| !#[trigger] bits::bit(cut, i) by {}
        bits::no_bits_is_zero(cut);
    }
}

/// The ones of a mask inside a stretch.
proof fn bits_in(m: u64, stretch: u64, i: int, j: int)
    requires
        0 <= i <= j <= 64,
        forall|k: int| #[trigger] bits::bit(stretch, k) == (i <= k < j),
    ensures
        bits::ones(m & stretch, 64) == bits::ones(m, j) - bits::ones(m, i),
{
    broadcast use bits::group_bits;

    let cut = m & stretch;
    bits::ones_flat(cut, 0, i);
    bits::ones_between(cut, m, i, j);
    bits::ones_flat(cut, j, 64);
}

/// The number of set bits of `m` at or above position `k`.
fn ones_at_or_above(m: u64, k: u64) -> (r: u32)
    requires
        k < 64,
    ensures
        r == bits::rank(m, k as int),
{
    proof {
        broadcast use bits::group_bits;

        bits::one_positive(k);
        let low = ((1u64 << k) - 1) as u64;
        bits::bit_low(k, low);
        bits::ones_from(m, m & !low, k as int);
    }
    let search_mask: u64 = !((1u64 << k) - 1);
    (m & search_mask).count_ones()
}

/// The occupied slots of two stretches are those of both together; a slot with an item is one, and a
/// gap is none.
pub proof fn occupied_adds_up<T>(a: Seq<Option<T>>, b: Seq<Option<T>>, item: T, n: int)
    requires
        0 <= n,
    ensures
        occupied(a + b) == occupied(a) + occupied(b),
        occupied(seq![Some(item)]) == 1,
        occupied(gaps::<T>(n)) == 0,
        gaps::<T>(n).len() == n,
    decreases n,
{
    reveal_with_fuel(occupied, 2);
    added_up(a, b);
    if n > 0 {
        assert(gaps::<T>(n).drop_last() =~= gaps::<T>(n - 1));
        occupied_adds_up(a, b, item, n - 1);
    }
}

/// Adding gaps and dropping slots at the back moves no item: those that are left, counted from the last
/// or from the first one, stay where they lie, and there are as many as occupied slots are left. A ring
/// that is left without slots starts over.
pub proof fn gaps_move_no_items<T>(
    ring: Ring,
    slots: Seq<Option<T>>,
    capacity: int,
    n: int,
    i: int,
)
    requires
        !ring.zero_sized,
        0 <= ring.start < ring.capacity,
        ring.len == occupied(slots),
        ring.len <= ring.capacity,
        slots.len() <= capacity,
        0 <= n,
        0 <= i,
    ensures
        ({
            let more = ring_extended(ring, slots, capacity, n);
            let fewer = ring_trimmed(ring, slots, n);
            let kept = capacity - n;
            &&& more.capacity == ring.capacity && fewer.capacity == ring.capacity
            &&& kept <= 0 ==> more.start == 0 && more.len == 0
            &&& 0 < kept < slots.len() ==> {
                &&& more.len == occupied(slots.skip(slots.len() - kept))
                &&& i < more.len ==> super::blob_deque::ring_slot(
                    more.start,
                    more.len - 1 - i,
                    more.capacity,
                ) == super::blob_deque::ring_slot(ring.start, ring.len - 1 - i, ring.capacity)
            }
            &&& kept >= slots.len() && kept > 0 ==> more == ring
            &&& n >= slots.len() ==> fewer.start == 0 && fewer.len == 0
            &&& n < slots.len() ==> {
                &&& fewer.start == ring.start
                &&& fewer.len == occupied(slots.take(slots.len() - n))
            }
        }),
{
    let kept = capacity - n;
    if 0 < kept < slots.len() {
        let (gone, left) = (slots.take(slots.len() - kept), slots.skip(slots.len() - kept));
        assert(gone + left =~= slots);
        added_up(gone, left);
    }
}

proof fn added_up<T>(a: Seq<Option<T>>, b: Seq<Option<T>>)
    ensures
        occupied(a + b) == occupied(a) + occupied(b),
    decreases b.len(),
{
    if b.len() == 0 {
        assert(a + b =~= a);
    } else {
        assert((a + b).drop_last() =~= a + b.drop_last());
        added_up(a, b.drop_last());
    }
}

/// An item is added behind the others or put into a gap among them. The front item leaves where its slot
/// does. The ring grows by one slot, and is then laid out anew, only where it is full and smaller than
/// the slots; otherwise the other items stay where they lie.
pub proof fn rings_grow_with_their_items<T>(
    ring: Ring,
    slots: Seq<Option<T>>,
    capacity: int,
    has_item: bool,
    index: int,
)
    requires
        !ring.zero_sized,
        0 <= ring.start < ring.capacity <= capacity,
        ring.len == occupied(slots) <= ring.capacity,
        0 < slots.len() <= capacity,
        slots[0] is Some ==> ring.len > 0,
        0 <= index < slots.len(),
    ensures
        ({
            let after = ring_appended(ring, slots, capacity, has_item);
            let left = ring.len - if slots.len() == capacity && slots[0] is Some {
                1int
            } else {
                0
            };
            let full = left == ring.capacity;
            &&& !has_item ==> after.len == left && after.capacity == ring.capacity
            &&& has_item && full && ring.capacity < capacity ==> {
                &&& after.capacity == ring.capacity + 1
                &&& after.start == 0
                &&& after.len == left + 1
            }
            &&& !full ==> {
                &&& after.capacity == ring.capacity
                &&& after.len == if has_item {
                    left + 1
                } else {
                    left
                }
                &&& left > 0 ==> super::blob_deque::ring_slot(after.start, left - 1, after.capacity)
                    == super::blob_deque::ring_slot(ring.start, ring.len - 1, ring.capacity)
            }
        }),
        ({
            let after = ring_replaced(ring, slots, index);
            let first = ring.len > 0 && occupied(slots.take(index)) == 0;
            &&& slots[index] is Some ==> after == ring
            &&& slots[index] is None ==> {
                &&& after.len == ring.len + 1
                &&& ring.len < ring.capacity ==> {
                    &&& after.capacity == ring.capacity
                    &&& !first ==> after.start == ring.start
                    &&& first ==> super::blob_deque::ring_slot(after.start, 1, after.capacity)
                        == ring.start
                }
                &&& ring.len == ring.capacity ==> {
                    &&& after.capacity == ring.capacity + 1
                    &&& after.start == if first {
                        ring.capacity
                    } else {
                        0
                    }
                }
            }
        }),
{
}

} // verus!
