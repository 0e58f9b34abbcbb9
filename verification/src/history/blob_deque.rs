//! A ring buffer of fixed capacity.
pub use crate::layout::{array_layout, Layout};

use vstd::prelude::*;

verus! {

/// A blobby ring buffer.
///
/// Items without bytes are not stored one by one: a single value stands for all of them, so that
/// for such items the ring only counts.
pub struct BlobDeque<T> {
    /// The memory layout of each item
    pub layout: Layout,
    /// Capacity in items, not bytes
    pub capacity: u8,
    /// The length in items, not bytes
    pub len: u8,
    /// The start of the ring buffer in items, not bytes
    pub start: u8,
    /// The ring buffer's slots, one for each item of the capacity; a single slot for items without
    /// bytes
    pub data: Vec<Option<T>>,
}

/// The slot that lies `i` places after `start` in a ring of `capacity` slots.
pub open spec fn ring_slot(start: int, i: int, capacity: int) -> int {
    if start + i < capacity {
        start + i
    } else {
        start + i - capacity
    }
}

/// How many places after `start` slot `j` lies in a ring of `capacity` slots.
pub open spec fn ring_place(start: int, j: int, capacity: int) -> int {
    if j >= start {
        j - start
    } else {
        j + capacity - start
    }
}

/// How a ring lies in its slots.
pub struct Ring {
    /// The items have no bytes, so that none of them has a place
    pub zero_sized: bool,
    /// The number of slots
    pub capacity: int,
    /// The slot of the front item
    pub start: int,
    /// The number of items
    pub len: int,
}

impl Ring {
    /// The first `n` items are gone.
    pub open spec fn dropped(self, n: int) -> Ring {
        Ring {
            start: if self.zero_sized {
                self.start
            } else {
                ring_slot(self.start, n, self.capacity)
            },
            len: self.len - n,
            ..self
        }
    }

    /// There is one more item at the back; in a full ring the front item makes room.
    pub open spec fn pushed(self) -> Ring {
        if self.len == self.capacity {
            Ring { len: self.len, ..self.dropped(1) }
        } else {
            Ring { len: self.len + 1, ..self }
        }
    }

    /// There is one more item at the front.
    pub open spec fn put_first(self) -> Ring {
        Ring {
            start: if self.zero_sized {
                self.start
            } else if self.start == 0 {
                self.capacity - 1
            } else {
                self.start - 1
            },
            len: self.len + 1,
            ..self
        }
    }

    /// There is one more slot.
    pub open spec fn grown(self) -> Ring {
        Ring {
            start: if self.zero_sized {
                self.start
            } else {
                0
            },
            capacity: self.capacity + 1,
            ..self
        }
    }

    /// All items are gone.
    pub open spec fn cleared(self) -> Ring {
        Ring {
            start: if self.zero_sized {
                self.start
            } else {
                0
            },
            len: 0,
            ..self
        }
    }
}

proof fn ring_slot_is_mod(start: int, i: int, capacity: int)
    requires
        0 <= start < capacity,
        0 <= i <= capacity,
    ensures
        (start + i) % capacity == ring_slot(start, i, capacity),
{
    let x = start + i;
    if x < capacity {
        vstd::arithmetic::div_mod::lemma_small_mod(x as nat, capacity as nat);
    } else {
        vstd::arithmetic::div_mod::lemma_small_mod((x - capacity) as nat, capacity as nat);
        vstd::arithmetic::div_mod::lemma_mod_add_multiples_vanish(x - capacity, capacity);
    }
}

impl<T> View for BlobDeque<T> {
    type V = Seq<T>;

    /// The items, front first.
    open spec fn view(&self) -> Seq<T> {
        Seq::new(self.len as nat, |i: int| self.data@[self.slot(i)]->0)
    }
}

impl<T> BlobDeque<T> {
    /// The items have no bytes.
    pub open spec fn zero_sized(&self) -> bool {
        self.layout.size == 0
    }

    /// How the items lie in the slots.
    pub open spec fn ring(&self) -> Ring {
        Ring {
            zero_sized: self.zero_sized(),
            capacity: self.capacity as int,
            start: self.start as int,
            len: self.len as int,
        }
    }

    /// The slot of item `i`.
    pub open spec fn slot(&self, i: int) -> int {
        if self.zero_sized() {
            0
        } else {
            ring_slot(self.start as int, i, self.capacity as int)
        }
    }

    /// What a value reads back as once it is stored: itself, but for items without bytes, where
    /// the value that already stands for all of them is kept.
    pub open spec fn stored_as(&self, value: T) -> T {
        if self.zero_sized() && self.data@[0] is Some {
            self.data@[0]->0
        } else {
            value
        }
    }

    /// The length is within the capacity, the start is a slot, and exactly the slots of the items
    /// are occupied.
    pub open spec fn wf(&self) -> bool {
        &&& 1 <= self.capacity
        &&& self.len <= self.capacity
        &&& if self.zero_sized() {
            &&& self.data@.len() == 1
            &&& self.len > 0 ==> self.data@[0] is Some
        } else {
            &&& self.start < self.capacity
            &&& self.data@.len() == self.capacity
            &&& forall|j: int|
                0 <= j < self.capacity ==> ((#[trigger] self.data@[j]) is Some <==> ring_place(
                    self.start as int,
                    j,
                    self.capacity as int,
                ) < self.len)
        }
    }

    /// An empty ring for `size` items.
    pub fn new(layout: Layout, size: u8) -> (r: Self)
        requires
            size > 0,
        ensures
            r.wf(),
            r@ == Seq::<T>::empty(),
            r.layout == layout,
            r.capacity == size,
            r.start == 0,
            forall|value: T| #[trigger] r.stored_as(value) == value,
    {
        let slots: u8 = if layout.size() == 0 {
            1
        } else {
            size
        };
        BlobDeque { layout, capacity: size, len: 0, start: 0, data: alloc_items(slots as usize) }
    }

    /// Get the length of the `BlobDeque`
    pub fn len(&self) -> (r: usize)
        requires
            self.wf(),
        ensures
            r == self@.len(),
    {
        self.len as usize
    }

    /// Get the capacity of the `BlobDeque`
    pub fn capacity(&self) -> (r: usize)
        ensures
            r == self.capacity,
    {
        self.capacity as usize
    }

    /// The item at `index`, where there is one.
    pub fn get(&self, index: usize) -> (r: Option<&T>)
        requires
            self.wf(),
            index < usize::MAX,
        ensures
            r == if index < self@.len() {
                Some(&self@[index as int])
            } else {
                None
            },
    {
        if (self.len as usize) < index + 1 {
            return None;
        }
        if self.layout.size() == 0 {
            return self.data[0].as_ref();
        }
        let slot: usize = self.get_slot(index);
        proof {
            assert(self.data@[slot as int] is Some);
        }
        self.data[slot].as_ref()
    }

    /// The item at `index`, to be changed, where there is one; an item without bytes has nothing
    /// to change.
    pub fn get_mut(&mut self, index: usize) -> (r: Option<&mut T>)
        requires
            old(self).wf(),
            index < usize::MAX,
        ensures
            final(self).wf(),
            final(self).layout == old(self).layout,
            final(self).capacity == old(self).capacity,
            final(self).start == old(self).start,
            match r {
                Some(item) => {
                    &&& !old(self).zero_sized()
                    &&& index < old(self)@.len()
                    &&& *item == old(self)@[index as int]
                    &&& final(self)@ == old(self)@.update(index as int, *final(item))
                },
                None => {
                    &&& old(self).zero_sized() || index >= old(self)@.len()
                    &&& *final(self) == *old(self)
                },
            },
    {
        if self.layout.size() == 0 || (self.len as usize) < index + 1 {
            // size 0 cannot be mutated
            return None;
        }
        let slot: usize = self.get_slot(index);
        proof {
            assert(self.data@[slot as int] is Some);
        }
        match &mut self.data[slot] {
            Some(item) => Some(item),
            None => None,
        }
    }

    fn get_slot(&self, index: usize) -> (r: usize)
        requires
            self.wf(),
            !self.zero_sized(),
            index <= self.len,
        ensures
            r == self.slot(index as int),
            r < self.data@.len(),
    {
        proof {
            ring_slot_is_mod(self.start as int, index as int, self.capacity as int);
        }
        (self.start as usize + index) % self.capacity as usize
    }

    /// Drop the front item, where there is one.
    pub fn drop_front(&mut self)
        requires
            old(self).wf(),
        ensures
            final(self).wf(),
            final(self).layout == old(self).layout,
            final(self).capacity == old(self).capacity,
            forall|v: T| #[trigger] final(self).stored_as(v) == old(self).stored_as(v),
            final(self).len == if old(self).len == 0 {
                0
            } else {
                old(self).len - 1
            },
            final(self)@ == if old(self)@.len() == 0 {
                old(self)@
            } else {
                old(self)@.drop_first()
            },
            final(self).start == if old(self)@.len() == 0 || old(self).zero_sized() {
                old(self).start as int
            } else {
                ring_slot(old(self).start as int, 1, old(self).capacity as int)
            },
    {
        if self.len == 0 {
            return;
        }
        if self.layout.size() != 0 {
            let slot: usize = self.get_slot(0);
            let _ = self.data[slot].take();
            proof {
                ring_slot_is_mod(self.start as int, 1, self.capacity as int);
            }
            self.start = ((self.start as u16 + 1) % self.capacity as u16) as u8;
        }
        self.len = self.len - 1;
    }

    /// Drop the back item, where there is one.
    pub fn drop_back(&mut self)
        requires
            old(self).wf(),
        ensures
            final(self).wf(),
            final(self).layout == old(self).layout,
            final(self).capacity == old(self).capacity,
            forall|v: T| #[trigger] final(self).stored_as(v) == old(self).stored_as(v),
            final(self).start == old(self).start,
            final(self)@ == if old(self)@.len() == 0 {
                old(self)@
            } else {
                old(self)@.drop_last()
            },
    {
        if self.len == 0 {
            return;
        }
        if self.layout.size() != 0 {
            let slot: usize = self.get_slot(self.len as usize - 1);
            let _ = self.data[slot].take();
        }
        self.len = self.len - 1;
    }

    /// Append a value to the back, dropping the front if at capacity
    pub fn append(&mut self, value: T)
        requires
            old(self).wf(),
            old(self).zero_sized() ==> old(self).len < u8::MAX,
        ensures
            final(self).wf(),
            final(self).layout == old(self).layout,
            final(self).capacity == old(self).capacity,
            ({
                let full = old(self)@.len() == old(self).capacity;
                &&& final(self)@ == (if full {
                    old(self)@.drop_first()
                } else {
                    old(self)@
                }).push(old(self).stored_as(value))
                &&& final(self).start == if full && !old(self).zero_sized() {
                    ring_slot(old(self).start as int, 1, old(self).capacity as int)
                } else {
                    old(self).start as int
                }
            }),
            forall|v: T|
                #[trigger] final(self).stored_as(v) == if old(self).zero_sized() {
                    old(self).stored_as(value)
                } else {
                    v
                },
    {
        if self.layout.size() == 0 {
            if self.data[0].is_none() {
                self.data[0] = Some(value);
            }
            if self.len < self.capacity {
                self.len = self.len + 1;
            }
            return;
        }
        if self.len == self.capacity {
            self.drop_front();
        }
        let slot: usize = self.get_slot(self.len as usize);
        self.data[slot] = Some(value);
        self.len = self.len + 1;
    }

    /// Insert a value at `at`, shifting later items back; nothing is inserted into a full ring,
    /// nor past the end of the items.
    pub fn insert(&mut self, at: usize, value: T) -> (r: Option<()>)
        requires
            old(self).wf(),
        ensures
            final(self).wf(),
            final(self).layout == old(self).layout,
            final(self).capacity == old(self).capacity,
            match r {
                Some(_) => {
                    &&& old(self)@.len() < old(self).capacity
                    &&& at <= old(self)@.len()
                    &&& final(self)@ == old(self)@.insert(at as int, old(self).stored_as(value))
                    &&& forall|v: T| #[trigger]
                        final(self).stored_as(v) == if old(self).zero_sized() {
                            old(self).stored_as(value)
                        } else {
                            v
                        }
                    &&& final(self).start == if at == 0 && old(self)@.len() > 0
                        && !old(self).zero_sized() {
                        if old(self).start == 0 {
                            old(self).capacity - 1
                        } else {
                            old(self).start - 1
                        }
                    } else {
                        old(self).start as int
                    }
                },
                None => {
                    &&& old(self)@.len() == old(self).capacity || at > old(self)@.len()
                    &&& *final(self) == *old(self)
                },
            },
    {
        if self.len == self.capacity || at > self.len as usize {
            return None;
        }
        if self.layout.size() == 0 {
            if self.data[0].is_none() {
                self.data[0] = Some(value);
            }
            self.len = self.len + 1;
            return Some(());
        }
        if at == 0 && self.len > 0 {
            self.place_front(value);
        } else {
            self.place_at(at, value);
        }
        Some(())
    }

    /// Put a value before the front item of a ring that is not full.
    fn place_front(&mut self, value: T)
        requires
            old(self).wf(),
            !old(self).zero_sized(),
            0 < old(self).len < old(self).capacity,
        ensures
            final(self).wf(),
            final(self).layout == old(self).layout,
            final(self).capacity == old(self).capacity,
            final(self).start == if old(self).start == 0 {
                old(self).capacity - 1
            } else {
                old(self).start - 1
            },
            final(self)@ == old(self)@.insert(0, value),
    {
        if self.start == 0 {
            self.start = self.capacity - 1;
        } else {
            self.start = self.start - 1;
        }
        let slot: usize = self.start as usize;
        self.data[slot] = Some(value);
        self.len = self.len + 1;
        proof {
            assert forall|k: int| 0 < k < self.len implies self.slot(k) == old(self).slot(k - 1) by {}
            assert(self@ =~= old(self)@.insert(0, value));
        }
    }

    /// Put a value at `at` into a ring that is not full, with the items from there on moved back.
    fn place_at(&mut self, at: usize, value: T)
        requires
            old(self).wf(),
            !old(self).zero_sized(),
            at <= old(self).len < old(self).capacity,
        ensures
            final(self).wf(),
            final(self).layout == old(self).layout,
            final(self).capacity == old(self).capacity,
            final(self).start == old(self).start,
            final(self)@ == old(self)@.insert(at as int, value),
    {
        self.shift_back(at);
        proof {
            ring_slot_is_mod(self.start as int, at as int, self.capacity as int);
        }
        let slot: usize = (self.start as usize + at) % self.capacity as usize;
        let ghost shifted = self.data@;
        self.data[slot] = Some(value);
        self.len = self.len + 1;
        proof {
            let start = self.start as int;
            let capacity = self.capacity as int;
            assert forall|k: int| 0 <= k < capacity implies (#[trigger] self.data@[ring_slot(
                start,
                k,
                capacity,
            )]) == (if k < at {
                old(self).data@[old(self).slot(k)]
            } else if k == at {
                Some(value)
            } else if k <= old(self).len {
                old(self).data@[old(self).slot(k - 1)]
            } else {
                old(self).data@[old(self).slot(k)]
            }) by {
                let _ = shifted[ring_slot(start, k, capacity)];
            }
            assert forall|k: int| 0 <= k < capacity implies ((#[trigger] old(self).data@[old(
                self,
            ).slot(k)]) is Some <==> k < old(self).len) by {
                assert(ring_place(start, ring_slot(start, k, capacity), capacity) == k);
            }
            assert forall|j: int| 0 <= j < capacity implies ((#[trigger] self.data@[j]) is Some
                <==> ring_place(start, j, capacity) < self.len) by {
                let k = ring_place(start, j, capacity);
                assert(ring_slot(start, k, capacity) == j);
                assert(self.data@[ring_slot(start, k, capacity)] == self.data@[j]);
            }
            assert forall|k: int| 0 <= k < self.len implies self@[k] == old(self)@.insert(
                at as int,
                value,
            )[k] by {
                assert(self.data@[ring_slot(start, k, capacity)] == self.data@[self.slot(k)]);
            }
            assert(self@ =~= old(self)@.insert(at as int, value));
        }
    }

    /// Move every item from `at` on one slot further, which leaves the slot of `at` free.
    fn shift_back(&mut self, at: usize)
        requires
            old(self).wf(),
            !old(self).zero_sized(),
            at <= old(self).len < old(self).capacity,
        ensures
            final(self).layout == old(self).layout,
            final(self).capacity == old(self).capacity,
            final(self).start == old(self).start,
            final(self).len == old(self).len,
            final(self).data@.len() == old(self).data@.len(),
            forall|i: int|
                0 <= i < old(self).capacity ==> #[trigger] final(self).data@[ring_slot(
                    old(self).start as int,
                    i,
                    old(self).capacity as int,
                )] == if i < at {
                    old(self).data@[old(self).slot(i)]
                } else if i == at {
                    None
                } else if i <= old(self).len {
                    old(self).data@[old(self).slot(i - 1)]
                } else {
                    old(self).data@[old(self).slot(i)]
                },
    {
        let ghost start = self.start as int;
        let ghost capacity = self.capacity as int;
        proof {
            assert forall|k: int|
                0 <= k < capacity implies #[trigger] self.data@[ring_slot(start, k, capacity)]
                == old(self).data@[old(self).slot(k)] by {}
            assert(self.data@[ring_slot(start, self.len as int, capacity)] is None);
        }
        let mut i: usize = self.len as usize;
        while i > at
            invariant
                !self.zero_sized(),
                at <= i <= self.len < self.capacity,
                0 <= start < capacity,
                start == self.start,
                capacity == self.capacity,
                self.layout == old(self).layout,
                self.capacity == old(self).capacity,
                self.start == old(self).start,
                self.len == old(self).len,
                self.data@.len() == self.capacity,
                old(self).data@.len() == self.capacity,
                forall|k: int|
                    0 <= k < capacity ==> #[trigger] self.data@[ring_slot(start, k, capacity)]
                        == if k < i {
                        old(self).data@[old(self).slot(k)]
                    } else if k == i {
                        None
                    } else if k <= self.len {
                        old(self).data@[old(self).slot(k - 1)]
                    } else {
                        old(self).data@[old(self).slot(k)]
                    },
            decreases i,
        {
            proof {
                ring_slot_is_mod(self.start as int, i as int, self.capacity as int);
                ring_slot_is_mod(self.start as int, i - 1, self.capacity as int);
            }
            let to: usize = (self.start as usize + i) % self.capacity as usize;
            let from: usize = (self.start as usize + (i - 1)) % self.capacity as usize;
            let ghost before = self.data@;
            let item = self.data[from].take();
            self.data[to] = item;
            proof {
                assert(item == before[ring_slot(start, i - 1, capacity)]);
                assert forall|k: int| 0 <= k < capacity implies #[trigger] self.data@[ring_slot(
                    start,
                    k,
                    capacity,
                )] == (if k < i - 1 {
                    old(self).data@[old(self).slot(k)]
                } else if k == i - 1 {
                    None
                } else if k <= self.len {
                    old(self).data@[old(self).slot(k - 1)]
                } else {
                    old(self).data@[old(self).slot(k)]
                }) by {
                    let _ = before[ring_slot(start, k, capacity)];
                }
            }
            i = i - 1;
        }
    }

    /// Change the capacity; the oldest items are dropped where not all of them fit.
    pub fn resize(&mut self, capacity: u8)
        requires
            old(self).wf(),
            capacity > 0,
            !old(self).zero_sized() && old(self).len > capacity ==> old(self).start + (old(
                self,
            ).len - capacity) <= u8::MAX,
        ensures
            final(self).wf(),
            final(self).layout == old(self).layout,
            final(self).capacity == capacity,
            capacity == old(self).capacity ==> *final(self) == *old(self),
            final(self)@ == if old(self)@.len() > capacity {
                old(self)@.skip(old(self)@.len() - capacity)
            } else {
                old(self)@
            },
            capacity != old(self).capacity ==> final(self).start == if old(self).zero_sized() {
                old(self).start as int
            } else {
                0
            },
            forall|v: T| #[trigger] final(self).stored_as(v) == old(self).stored_as(v),
    {
        if capacity == self.capacity {
            return;
        }
        let lost: u8 = self.len.saturating_sub(capacity);
        if self.layout.size() == 0 {
            if self.len > capacity {
                self.len = capacity;
            }
            self.capacity = capacity;
            return;
        }
        let mut dropped: u8 = 0;
        while dropped < lost
            invariant
                self.wf(),
                !self.zero_sized(),
                dropped <= lost <= old(self)@.len(),
                self.layout == old(self).layout,
                self.capacity == old(self).capacity,
                self@ == old(self)@.skip(dropped as int),
            decreases lost - dropped,
        {
            self.drop_front();
            proof {
                assert(old(self)@.skip(dropped as int).drop_first() =~= old(self)@.skip(
                    dropped + 1,
                ));
            }
            dropped = dropped + 1;
        }
        let ghost kept = self@;
        let ghost start = self.start as int;
        let ghost ring = self.capacity as int;
        proof {
            assert forall|k: int| 0 <= k < self.len implies (#[trigger] self.data@[ring_slot(
                start,
                k,
                ring,
            )]) == Some(kept[k]) by {}
        }
        let mut new_data: Vec<Option<T>> = alloc_items(capacity as usize);
        let mut i: usize = 0;
        while i < self.len as usize
            invariant
                !self.zero_sized(),
                i <= self.len <= self.capacity,
                self.len <= capacity,
                self.start < self.capacity,
                start == self.start,
                ring == self.capacity,
                self.layout == old(self).layout,
                kept.len() == self.len,
                self.data@.len() == self.capacity,
                new_data@.len() == capacity,
                forall|k: int|
                    i <= k < self.len ==> (#[trigger] self.data@[ring_slot(start, k, ring)])
                        == Some(kept[k]),
                forall|k: int| 0 <= k < i ==> (#[trigger] new_data@[k]) == Some(kept[k]),
                forall|k: int| i <= k < capacity ==> (#[trigger] new_data@[k]) is None,
            decreases self.len - i,
        {
            let slot: usize = {
                proof {
                    ring_slot_is_mod(self.start as int, i as int, self.capacity as int);
                }
                (self.start as usize + i) % self.capacity as usize
            };
            proof {
                assert(self.data@[ring_slot(start, i as int, ring)] == Some(kept[i as int]));
            }
            let ghost before = self.data@;
            let item = self.data[slot].take();
            new_data[i] = item;
            proof {
                assert forall|k: int| i < k < self.len implies (#[trigger] self.data@[ring_slot(
                    start,
                    k,
                    ring,
                )]) == Some(kept[k]) by {
                    let _ = before[ring_slot(start, k, ring)];
                }
            }
            i = i + 1;
        }
        self.data = new_data;
        self.capacity = capacity;
        self.start = 0;
        proof {
            assert(self@ =~= kept);
        }
    }

    /// Drop every item, front first. Clearing again changes nothing.
    pub fn clear(&mut self)
        requires
            old(self).wf(),
        ensures
            final(self).wf(),
            final(self).layout == old(self).layout,
            final(self).capacity == old(self).capacity,
            final(self)@ == Seq::<T>::empty(),
            final(self).start == if old(self).zero_sized() {
                old(self).start as int
            } else {
                0
            },
            forall|v: T| #[trigger] final(self).stored_as(v) == old(self).stored_as(v),
            old(self)@.len() == 0 && (old(self).zero_sized() || old(self).start == 0)
                ==> *final(self) == *old(self),
    {
        if self.layout.size() == 0 {
            self.len = 0;
            return;
        }
        while self.len > 0
            invariant
                old(self).len == 0 ==> *self == *old(self),
                self.wf(),
                !self.zero_sized(),
                self.layout == old(self).layout,
                self.capacity == old(self).capacity,
            decreases self.len,
        {
            self.drop_front();
        }
        self.start = 0;
    }
}

/// Free slots for `size` items.
fn alloc_items<T>(size: usize) -> (r: Vec<Option<T>>)
    ensures
        r@.len() == size,
        forall|j: int| 0 <= j < size ==> (#[trigger] r@[j]) is None,
{
    let mut data: Vec<Option<T>> = Vec::with_capacity(size);
    while data.len() < size
        invariant
            data@.len() <= size,
            forall|j: int| 0 <= j < data@.len() ==> (#[trigger] data@[j]) is None,
        decreases size - data@.len(),
    {
        data.push(None);
    }
    data
}

/// Items are not moved: where some leave at the front, or one is added at either end, the others stay in
/// their slots. A new item behind a full ring takes the slot of the front item. A ring that grows is
/// laid out from the first slot on, and so is one that was cleared.
pub proof fn items_stay_in_their_slots(ring: Ring, n: int, i: int)
    requires
        !ring.zero_sized,
        0 <= ring.start < ring.capacity,
        0 <= ring.len <= ring.capacity,
        0 <= n <= ring.len,
        0 <= i < ring.len,
    ensures
        ({
            let slot = ring_slot(ring.start, i, ring.capacity);
            let (left, more, first) = (ring.dropped(n), ring.pushed(), ring.put_first());
            &&& left.capacity == ring.capacity && left.len == ring.len - n
            &&& i >= n ==> ring_slot(left.start, i - n, left.capacity) == slot
            &&& more.capacity == ring.capacity && first.capacity == ring.capacity
            &&& ring.len < ring.capacity ==> {
                &&& more.len == ring.len + 1
                &&& ring_slot(more.start, i, more.capacity) == slot
                &&& first.len == ring.len + 1
                &&& ring_slot(first.start, i + 1, first.capacity) == slot
            }
            &&& ring.len == ring.capacity ==> {
                &&& more.len == ring.len
                &&& i > 0 ==> ring_slot(more.start, i - 1, more.capacity) == slot
                &&& ring_slot(more.start, more.len - 1, more.capacity) == ring.start
            }
            &&& ring_slot(ring.grown().start, i, ring.grown().capacity) == i
            &&& ring.grown().capacity == ring.capacity + 1 && ring.grown().len == ring.len
            &&& ring.cleared().start == 0 && ring.cleared().len == 0
        }),
{
}

/// The slots of a ring are counted round: slot and place undo each other, and different items have
/// different slots.
pub proof fn slots_go_round(start: int, i: int, j: int, capacity: int)
    requires
        0 <= start < capacity,
        0 <= i < capacity,
        0 <= j < capacity,
    ensures
        0 <= ring_slot(start, i, capacity) < capacity,
        ring_slot(start, 0, capacity) == start,
        (start + i) % capacity == ring_slot(start, i, capacity),
        ring_place(start, ring_slot(start, i, capacity), capacity) == i,
        ring_slot(start, ring_place(start, j, capacity), capacity) == j,
        i != j ==> ring_slot(start, i, capacity) != ring_slot(start, j, capacity),
{
    ring_slot_is_mod(start, i, capacity);
}

} // verus!
