//! The inputs of the latest ticks.
use super::traits;
use super::traits::InputTrait;
use crate::predicted_resource::deque_capacity;
use crate::tick;
use crate::tick::RepliconTick;

use std::collections::VecDeque;

use vstd::prelude::*;

verus! {

pub const INPUT_HISTORY_CAPACITY: usize = 25;

/// The inputs of the ticks up to the last one that was updated.
#[derive(Debug, PartialEq)]
pub struct InputHistory<T> {
    /// The inputs, oldest first
    pub list: VecDeque<T>,
    /// The tick of the last input
    pub updated_at: RepliconTick,
}

/// The tick of the first of `len` inputs. Inputs are counted like ticks, going round.
pub open spec fn first_of(updated_at: u32, len: int) -> u32 {
    let before = if len == 0 {
        0
    } else {
        (len - 1) % 0x1_0000_0000
    };
    if before >= updated_at {
        0
    } else {
        (updated_at - before) as u32
    }
}

/// The input for a tick. After the last tick it is repeated, if that is asked for.
pub open spec fn input_at<T: InputTrait>(
    list: Seq<T>,
    updated_at: u32,
    t: u32,
    repeat: bool,
) -> Option<T> {
    let first = first_of(updated_at, list.len() as int);
    if tick::before(t, first) {
        None
    } else if tick::after(t, updated_at) {
        if repeat && traits::repeating::<T>() && list.len() > 0 {
            traits::repeat_of(list.last(), tick::elapsed(t, updated_at) as u32)
        } else {
            None
        }
    } else {
        let index = tick::elapsed(t, first);
        if index < list.len() {
            Some(list[index])
        } else {
            None
        }
    }
}

/// What is left of a list when the oldest inputs were dropped that are more than `capacity` ticks
/// before `t`.
pub open spec fn within_reach<T>(list: Seq<T>, updated_at: u32, t: u32, capacity: u32) -> Seq<T>
    decreases list.len(),
{
    if list.len() > 0 && tick::elapsed(t, first_of(updated_at, list.len() as int)) > capacity {
        within_reach(list.drop_first(), updated_at, t, capacity)
    } else {
        list
    }
}

/// The inputs before a later tick, with the ticks between carried on. Nothing is left of inputs
/// that are more than `capacity` ticks before.
pub open spec fn led_up<T: InputTrait>(
    list: Seq<T>,
    updated_at: u32,
    t: u32,
    capacity: u32,
) -> Seq<T> {
    if list.len() == 0 {
        list
    } else if tick::elapsed(t, updated_at) > capacity {
        Seq::empty()
    } else {
        within_reach(list, updated_at, t, capacity) + Seq::new(
            if t > updated_at {
                (t - updated_at - 1) as nat
            } else {
                0
            },
            |i: int| traits::carried_on(list.last(), (i + 1) as u32),
        )
    }
}

/// A list with one more input; without room the oldest one is dropped.
pub open spec fn pushed<T>(list: Seq<T>, value: T, room: int) -> Seq<T> {
    (if list.len() == room && list.len() > 0 {
        list.drop_first()
    } else {
        list
    }).push(value)
}

impl<T> Default for InputHistory<T> {
    fn default() -> (r: Self)
        ensures
            r.list@ == Seq::<T>::empty(),
            r.updated_at.0 == 0,
    {
        InputHistory {
            list: VecDeque::with_capacity(INPUT_HISTORY_CAPACITY),
            updated_at: RepliconTick::new(0),
        }
    }
}

impl<T: Clone> Clone for InputHistory<T> {
    fn clone(&self) -> (r: Self)
        ensures
            r.updated_at == self.updated_at,
            r.list@.len() == self.list@.len(),
            forall|i: int| 0 <= i < self.list@.len() ==> cloned(self.list@[i], #[trigger] r.list@[i]),
    {
        InputHistory { list: self.list.clone(), updated_at: self.updated_at }
    }
}

impl<T> InputHistory<T> {
    pub fn is_empty(&self) -> (r: bool)
        ensures
            r == (self.list@.len() == 0),
    {
        self.list.len() == 0
    }

    pub fn updated_at(&self) -> (r: RepliconTick)
        ensures
            r == self.updated_at,
    {
        self.updated_at
    }

    /// The tick of the first input.
    pub fn first_tick(&self) -> (r: RepliconTick)
        ensures
            r.0 == first_of(self.updated_at.0, self.list@.len() as int),
    {
        let before: u64 = self.list.len().saturating_sub(1) as u64;
        proof {
            assert(before as u32 == before % 0x1_0000_0000) by (bit_vector);
        }
        RepliconTick::new(
            self.updated_at.get().saturating_sub(
                #[verifier::truncate]
                (before as u32),
            ),
        )
    }

    /// Map the entities that the inputs speak of.
    pub fn map_entities<F: Fn(&T) -> T>(&mut self, mapper: &F)
        requires
            forall|i: int|
                0 <= i < old(self).list@.len() ==> call_requires(
                    *mapper,
                    (&#[trigger] old(self).list@[i],),
                ),
        ensures
            final(self).updated_at == old(self).updated_at,
            final(self).list@.len() == old(self).list@.len(),
            forall|i: int|
                0 <= i < old(self).list@.len() ==> call_ensures(
                    *mapper,
                    (&old(self).list@[i],),
                    #[trigger] final(self).list@[i],
                ),
    {
        let ghost list = self.list@;
        let len: usize = self.list.len();
        let mut mapped: usize = 0;
        while mapped < len
            invariant
                mapped <= len,
                len == list.len(),
                self.list@.len() == len,
                self.updated_at == old(self).updated_at,
                forall|i: int| 0 <= i < len ==> call_requires(*mapper, (&#[trigger] list[i],)),
                forall|i: int|
                    0 <= i < len - mapped ==> #[trigger] self.list@[i] == list[mapped + i],
                forall|i: int|
                    len - mapped <= i < len ==> call_ensures(
                        *mapper,
                        (&list[i - (len - mapped)],),
                        #[trigger] self.list@[i],
                    ),
            decreases len - mapped,
        {
            let ghost before = self.list@;
            if let Some(input) = self.list.pop_front() {
                assert(input == list[mapped as int]) by {
                    assert(before[0] == list[mapped + 0]);
                }
                let image: T = mapper(&input);
                self.list.push_back(image);
                mapped = mapped + 1;
                assert forall|i: int| 0 <= i < len - mapped implies #[trigger] self.list@[i]
                    == list[mapped + i] by {
                    assert(self.list@[i] == before[i + 1]);
                }
                assert forall|i: int| len - mapped <= i < len implies call_ensures(
                    *mapper,
                    (&list[i - (len - mapped)],),
                    #[trigger] self.list@[i],
                ) by {
                    if i < len - 1 {
                        assert(self.list@[i] == before[i + 1]);
                    }
                }
            }
        }
        assert forall|i: int| 0 <= i < len implies call_ensures(
            *mapper,
            (&list[i],),
            #[trigger] self.list@[i],
        ) by {
            assert(list[i - (len - mapped)] == list[i]);
        }
    }

    /// Forget all inputs.
    pub fn reset(&mut self)
        ensures
            final(self).list@ == Seq::<T>::empty(),
            final(self).updated_at.0 == 0,
    {
        self.updated_at = RepliconTick::new(0);
        self.list.clear();
    }
}

impl<T: InputTrait> InputHistory<T> {
    /// The input for a tick. After the last tick it is repeated, if that is asked for.
    pub fn get(&self, tick: RepliconTick, repeat: bool) -> (r: Option<T>)
        requires
            traits::plain::<T>(),
        ensures
            r == input_at(self.list@, self.updated_at.0, tick.0, repeat),
    {
        let first: u32 = self.first_tick().get();
        let t: u32 = tick.get();
        let updated_at: u32 = self.updated_at.get();
        if tick::is_before(t, first) {
            return None;
        }
        if tick::is_after(t, updated_at) {
            if !(repeat && traits::are_repeated::<T>()) || self.list.len() == 0 {
                return None;
            }
            return traits::repeat(
                &self.list[self.list.len() - 1],
                t.wrapping_sub(updated_at),
            );
        }
        let index: usize = t.wrapping_sub(first) as usize;
        if index < self.list.len() {
            Some(traits::copy(&self.list[index]))
        } else {
            None
        }
    }

    /// Make the inputs lead up to a later tick.
    pub fn lead_up(&mut self, t: RepliconTick, capacity: u32)
        requires
            traits::plain::<T>(),
            tick::after(t.0, old(self).updated_at.0),
        ensures
            final(self).list@ == led_up(old(self).list@, old(self).updated_at.0, t.0, capacity),
            final(self).updated_at == old(self).updated_at,
    {
        if self.list.len() == 0 {
            return;
        }
        let updated_at: u32 = self.updated_at.get();
        if t.get().wrapping_sub(updated_at) > capacity {
            self.list.clear();
            return;
        }
        let ghost before = self.list@;
        while t.get().wrapping_sub(self.first_tick().get()) > capacity
            invariant
                traits::plain::<T>(),
                self.updated_at.0 == updated_at,
                0 < self.list@.len(),
                tick::elapsed(t.0, updated_at) <= capacity,
                self.list@.last() == before.last(),
                within_reach(self.list@, updated_at, t.0, capacity) == within_reach(
                    before,
                    updated_at,
                    t.0,
                    capacity,
                ),
            decreases self.list@.len(),
        {
            proof {
                assert(self.list@.subrange(1, self.list@.len() as int)
                    =~= self.list@.drop_first());
                if self.list@.len() == 1 {
                    assert(first_of(updated_at, 1) == updated_at);
                }
            }
            self.list.pop_front();
        }
        let ghost kept = self.list@;
        let last = traits::copy(&self.list[self.list.len() - 1]);
        let mut since: u32 = 1;
        proof {
            assert(kept =~= kept + Seq::<T>::empty());
        }
        while t.get() > updated_at && since < t.get() - updated_at
            invariant
                traits::plain::<T>(),
                1 <= since,
                t.0 > updated_at ==> since <= t.0 - updated_at,
                t.0 <= updated_at ==> since == 1,
                last == before.last(),
                self.updated_at.0 == updated_at,
                self.list@ == kept + Seq::new(
                    (since - 1) as nat,
                    |i: int| traits::carried_on(last, (i + 1) as u32),
                ),
            decreases t.0 - updated_at - since,
        {
            self.list.push_back(traits::carry_on(&last, since));
            since = since + 1;
            proof {
                assert(self.list@ =~= kept + Seq::new(
                    (since - 1) as nat,
                    |i: int| traits::carried_on(last, (i + 1) as u32),
                ));
            }
        }
        proof {
            assert(self.list@ =~= led_up(before, updated_at, t.0, capacity));
        }
    }

    /// Push an input for a tick, with room for `room` inputs.
    pub fn push_within(&mut self, t: RepliconTick, value: T, room: usize)
        ensures
            final(self).list@ == pushed(old(self).list@, value, room as int),
            final(self).updated_at == t,
    {
        if self.list.len() == room {
            self.list.pop_front();
        }
        self.updated_at = t;
        self.list.push_back(value);
    }

    /// Write the input for a later tick. Inputs for earlier ticks are not written; whether it was
    /// is returned. How many inputs are held is left to the allocator.
    pub fn write(&mut self, t: RepliconTick, value: T) -> (r: bool)
        requires
            traits::plain::<T>(),
        ensures
            r == tick::after(t.0, old(self).updated_at.0),
            written(
                (old(self).list@, old(self).updated_at.0),
                (final(self).list@, final(self).updated_at.0),
                t.0,
                value,
            ),
    {
        if !tick::is_after(t.get(), self.updated_at.get()) {
            return false;
        }
        let capacity: usize = deque_capacity(&self.list);
        self.lead_up(
            t,
            #[verifier::truncate]
            (capacity as u32),
        );
        let room: usize = if self.list.len() <= capacity {
            capacity
        } else {
            deque_capacity(&self.list)
        };
        self.push_within(t, value, room);
        proof {
            assert(written_with(
                (old(self).list@, old(self).updated_at.0),
                (self.list@, self.updated_at.0),
                t.0,
                value,
                capacity,
                room,
            ));
        }
        true
    }
}

/// What is held after an input was written for a later tick, where the list had room for
/// `capacity` inputs before the ticks between were filled, and for `room` inputs after. It only makes
/// more room where that is too little.
pub open spec fn written_with<T: InputTrait>(
    before: (Seq<T>, u32),
    after: (Seq<T>, u32),
    t: u32,
    value: T,
    capacity: usize,
    room: usize,
) -> bool {
    let list = led_up(before.0, before.1, t, capacity as u32);
    &&& capacity >= before.0.len()
    &&& if list.len() <= capacity {
        room == capacity
    } else {
        room >= list.len()
    }
    &&& after.0 == pushed(list, value, room as int)
    &&& after.1 == t
}

/// What is held after an input was written for a tick.
pub open spec fn written<T: InputTrait>(
    before: (Seq<T>, u32),
    after: (Seq<T>, u32),
    t: u32,
    value: T,
) -> bool {
    if tick::after(t, before.1) {
        exists|capacity: usize, room: usize|
            written_with(before, after, t, value, capacity, room)
    } else {
        after == before
    }
}

/// A list with an input before the others, and `gap` ticks between it and them carried on. Where there
/// are no others, what fills the gap goes on for the last tick.
pub open spec fn prepended<T: InputTrait>(list: Seq<T>, value: T, gap: int) -> Seq<T> {
    seq![value] + Seq::new(
        if gap < 0 {
            0
        } else {
            gap as nat
        },
        |i: int| traits::carried_on(value, (i + 1) as u32),
    ) + (if list.len() == 0 && gap > 0 {
        seq![traits::carried_on(value, gap as u32)]
    } else {
        list
    })
}

/// What is held after the input for a tick was replaced. Inputs for more than ten ticks before
/// the last one are left alone.
pub open spec fn replaced<T: InputTrait>(
    before: (Seq<T>, u32),
    after: (Seq<T>, u32),
    t: u32,
    value: T,
) -> bool {
    let (list, updated_at) = before;
    let first = first_of(updated_at, list.len() as int);
    if tick::before(tick::advanced(t, 10), updated_at) {
        after == before
    } else if tick::after(t, updated_at) {
        written(before, after, t, value)
    } else if tick::before(t, first) {
        after == (prepended(list, value, tick::elapsed(first, t) - 1), updated_at)
    } else if list.len() == 0 {
        after == (seq![value], t)
    } else {
        let index = tick::elapsed(t, first);
        after == if index < list.len() {
            (list.update(index, value), updated_at)
        } else {
            before
        }
    }
}

/// What is held along the way while the inputs for some ticks are replaced, one after the other.
pub open spec fn replaced_in_turn<T: InputTrait>(
    held: Seq<(Seq<T>, u32)>,
    section: Seq<(RepliconTick, T)>,
) -> bool {
    &&& held.len() == section.len() + 1
    &&& forall|i: int|
        0 <= i < section.len() ==> replaced(
            held[i],
            held[i + 1],
            (#[trigger] section[i]).0.0,
            section[i].1,
        )
}

/// What is held after the inputs for some ticks were replaced, one after the other.
pub open spec fn section_replaced<T: InputTrait>(
    before: (Seq<T>, u32),
    after: (Seq<T>, u32),
    section: Seq<(RepliconTick, T)>,
) -> bool {
    exists|held: Seq<(Seq<T>, u32)>|
        held.first() == before && held.last() == after && #[trigger] replaced_in_turn(held, section)
}

impl<T: InputTrait> InputHistory<T> {
    /// The inputs and the tick of the last one.
    pub open spec fn state(&self) -> (Seq<T>, u32) {
        (self.list@, self.updated_at.0)
    }

    /// Replace the input for a tick.
    pub fn replace(&mut self, t: RepliconTick, value: T)
        requires
            traits::plain::<T>(),
        ensures
            replaced(old(self).state(), final(self).state(), t.0, value),
    {
        let first: u32 = self.first_tick().get();
        let updated_at: u32 = self.updated_at.get();
        if tick::is_before(t.get().wrapping_add(10), updated_at) {
            return;
        }
        if tick::is_after(t.get(), updated_at) {
            self.write(t, value);
        } else if tick::is_before(t.get(), first) {
            let gap: u32 = first.wrapping_sub(t.get()) - 1;
            self.prepend(value, gap);
        } else if self.list.len() == 0 {
            self.updated_at = t;
            self.list.push_back(value);
            proof {
                assert(self.list@ =~= seq![value]);
            }
        } else {
            let index: usize = t.get().wrapping_sub(first) as usize;
            if index < self.list.len() {
                let ghost before = self.list@;
                let rest = self.list.split_off(index);
                let mut rest = rest;
                rest.pop_front();
                self.list.push_back(value);
                self.list.append(&mut rest);
                proof {
                    assert(self.list@ =~= before.update(index as int, value));
                }
            }
        }
    }

    /// Put an input before the others, and carry it on for `gap` ticks between it and them.
    fn prepend(&mut self, value: T, gap: u32)
        requires
            traits::plain::<T>(),
        ensures
            final(self).list@ == prepended(old(self).list@, value, gap as int),
            final(self).updated_at == old(self).updated_at,
    {
        let ghost list = self.list@;
        if self.list.len() == 0 && gap > 0 {
            self.list.push_front(traits::carry_on(&value, gap));
            proof {
                assert(self.list@ =~= seq![traits::carried_on(value, gap)]);
            }
        }
        let ghost before = self.list@;
        let mut since: u32 = gap;
        proof {
            assert(before =~= Seq::<T>::empty() + before);
        }
        while since > 0
            invariant
                traits::plain::<T>(),
                since <= gap,
                self.updated_at == old(self).updated_at,
                self.list@ == Seq::new(
                    (gap - since) as nat,
                    |i: int| traits::carried_on(value, (since + i + 1) as u32),
                ) + before,
            decreases since,
        {
            self.list.push_front(traits::carry_on(&value, since));
            since = since - 1;
            proof {
                assert(self.list@ =~= Seq::new(
                    (gap - since) as nat,
                    |i: int| traits::carried_on(value, (since + i + 1) as u32),
                ) + before);
            }
        }
        self.list.push_front(value);
        proof {
            assert(self.list@ =~= prepended(list, value, gap as int));
        }
    }

    /// Replace the inputs for some ticks, one after the other.
    pub fn replace_section(&mut self, section: Vec<(RepliconTick, T)>)
        requires
            traits::plain::<T>(),
        ensures
            section_replaced(old(self).state(), final(self).state(), section@),
    {
        let ghost mut held: Seq<(Seq<T>, u32)> = seq![self.state()];
        let mut i: usize = 0;
        while i < section.len()
            invariant
                traits::plain::<T>(),
                i <= section@.len(),
                held.first() == old(self).state(),
                held.last() == self.state(),
                replaced_in_turn(held, section@.take(i as int)),
            decreases section@.len() - i,
        {
            let t: RepliconTick = section[i].0;
            self.replace(t, traits::copy(&section[i].1));
            proof {
                let done = section@.take(i + 1);
                let next = held.push(self.state());
                assert forall|j: int| 0 <= j < done.len() implies replaced(
                    next[j],
                    next[j + 1],
                    (#[trigger] done[j]).0.0,
                    done[j].1,
                ) by {
                    if j < i {
                        assert(done[j] == section@.take(i as int)[j]);
                    }
                }
                held = next;
            }
            i = i + 1;
        }
        proof {
            assert(section@.take(section@.len() as int) =~= section@);
        }
    }
}

proof fn within_reach_len<T>(list: Seq<T>, updated_at: u32, t: u32, capacity: u32)
    ensures
        within_reach(list, updated_at, t, capacity).len() <= list.len(),
    decreases list.len(),
{
    if list.len() > 0 && tick::elapsed(t, first_of(updated_at, list.len() as int)) > capacity {
        within_reach_len(list.drop_first(), updated_at, t, capacity);
    }
}

/// Writing adds at most one input for each tick up to the one that is written.
pub proof fn written_len<T: InputTrait>(
    before: (Seq<T>, u32),
    after: (Seq<T>, u32),
    t: u32,
    value: T,
)
    requires
        written(before, after, t, value),
    ensures
        before.0.len() == 0 ==> after.0.len() <= 1,
        tick::after(t, before.1) ==> after.0.len() <= before.0.len() + tick::elapsed(t, before.1),
        !tick::after(t, before.1) ==> after.0.len() == before.0.len(),
{
    if tick::after(t, before.1) {
        let (capacity, room) = choose|capacity: usize, room: usize|
            written_with(before, after, t, value, capacity, room);
        within_reach_len(before.0, before.1, t, capacity as u32);
    }
}

/// What is left within reach are the last of the inputs, and the first of them is not more than
/// `capacity` ticks before.
proof fn within_reach_shape<T>(list: Seq<T>, updated_at: u32, t: u32, capacity: u32)
    requires
        list.len() > 0,
        tick::elapsed(t, updated_at) <= capacity,
    ensures
        ({
            let kept = within_reach(list, updated_at, t, capacity);
            &&& 0 < kept.len() <= list.len()
            &&& kept == list.skip(list.len() - kept.len())
            &&& tick::elapsed(t, first_of(updated_at, kept.len() as int)) <= capacity
        }),
    decreases list.len(),
{
    let kept = within_reach(list, updated_at, t, capacity);
    if tick::elapsed(t, first_of(updated_at, list.len() as int)) > capacity {
        if list.len() == 1 {
            assert(first_of(updated_at, 1) == updated_at);
        }
        let rest = list.drop_first();
        within_reach_shape(rest, updated_at, t, capacity);
        assert(rest.skip(rest.len() - kept.len()) =~= list.skip(list.len() - kept.len()));
    } else {
        assert(list.skip(0) =~= list);
    }
}

/// The inputs up to a later tick: those that were held, the ticks between carried on, and the input
/// for the tick.
pub open spec fn whole<T: InputTrait>(before: (Seq<T>, u32), t: u32, value: T) -> Seq<T> {
    (before.0 + Seq::new(
        (t - before.1 - 1) as nat,
        |i: int| traits::carried_on(before.0.last(), (i + 1) as u32),
    )).push(value)
}

/// Of the inputs up to a later tick, the last ones are held after it was written, at least one.
proof fn written_is_end<T: InputTrait>(
    before: (Seq<T>, u32),
    after: (Seq<T>, u32),
    t: u32,
    value: T,
)
    requires
        written(before, after, t, value),
        before.0.len() > 0,
        before.1 < t <= u32::MAX / 2,
    ensures
        0 < after.0.len() <= whole(before, t, value).len(),
        after.0 == whole(before, t, value).skip(whole(before, t, value).len() - after.0.len()),
        after.1 == t,
{
    let (capacity, room) = choose|capacity: usize, room: usize|
        written_with(before, after, t, value, capacity, room);
    let (list, updated_at) = before;
    let limit = capacity as u32;
    let all = whole(before, t, value);
    if tick::elapsed(t, updated_at) > limit {
        assert(after.0 =~= seq![value]);
        assert(after.0 =~= all.skip(all.len() - 1));
    } else {
        within_reach_shape(list, updated_at, t, limit);
        let kept = within_reach(list, updated_at, t, limit);
        let led = led_up(list, updated_at, t, limit);
        assert(led.push(value) =~= all.skip(list.len() - kept.len()));
        if led.len() == room {
            assert(after.0 =~= led.push(value).drop_first());
        }
        assert(after.0 =~= all.skip(all.len() - after.0.len()));
    }
}

/// Filling the ticks between agrees with the repeated prediction: for every tick before the one that
/// is written, what is read is what was read before, as long as the inputs are repeated that far.
pub proof fn filled_is_predicted<T: InputTrait>(
    before: (Seq<T>, u32),
    after: (Seq<T>, u32),
    t: u32,
    value: T,
    x: u32,
)
    requires
        written(before, after, t, value),
        0 < before.0.len() <= before.1 + 1,
        before.1 < t <= u32::MAX / 2,
        first_of(after.1, after.0.len() as int) <= x < t,
        x > before.1 ==> traits::repeating::<T>() && traits::repeat_of(
            before.0.last(),
            (x - before.1) as u32,
        ) is Some,
    ensures
        input_at(after.0, after.1, x, true) == input_at(before.0, before.1, x, true),
{
    written_is_end(before, after, t, value);
    let (list, updated_at) = before;
    let all = whole(before, t, value);
    let n = after.0.len() as int;
    let first = updated_at - (list.len() - 1);
    assert(first_of(updated_at, list.len() as int) == first);
    assert(all.len() == t - first + 1);
    assert(first_of(t, n) == t - (n - 1));
    assert(after.0[x - (t - (n - 1))] == all[x - first]);
    if x > updated_at {
        assert(all[x - first] == traits::carried_on(list.last(), (x - updated_at) as u32));
    }
}

/// Writing keeps no more inputs than there was room for.
pub proof fn written_fits<T: InputTrait>(
    before: (Seq<T>, u32),
    after: (Seq<T>, u32),
    t: u32,
    value: T,
    capacity: usize,
    room: usize,
)
    requires
        written_with(before, after, t, value, capacity, room),
        before.0.len() <= before.1 + 1,
        before.1 < t <= u32::MAX / 2,
        capacity > 0,
    ensures
        after.0.len() <= capacity,
{
    let limit = capacity as u32;
    assert(capacity as u32 <= capacity) by (bit_vector);
    if before.0.len() > 0 && tick::elapsed(t, before.1) <= limit {
        within_reach_shape(before.0, before.1, t, limit);
    }
}

/// An input that was written for a tick is read back there.
pub proof fn written_is_read<T: InputTrait>(
    before: (Seq<T>, u32),
    after: (Seq<T>, u32),
    t: u32,
    value: T,
    repeat: bool,
)
    requires
        written(before, after, t, value),
        tick::after(t, before.1),
        after.0.len() <= t + 1,
        after.0.len() <= u32::MAX / 2,
    ensures
        input_at(after.0, after.1, t, repeat) == Some(value),
{
    let first = first_of(t, after.0.len() as int);
    let (capacity, room) = choose|capacity: usize, room: usize|
        written_with(before, after, t, value, capacity, room);
    assert(after.0.last() == value);
    assert(first == t - (after.0.len() - 1));
}

/// The inputs are for the ticks up to the last one, one after the other. Before the first one there is
/// none, and after the last one its repetition, if that is asked for.
pub proof fn inputs_follow_each_other<T: InputTrait>(
    list: Seq<T>,
    updated_at: u32,
    t: u32,
    repeat: bool,
)
    requires
        list.len() <= updated_at + 1,
        updated_at <= u32::MAX / 2,
        t <= u32::MAX / 2,
    ensures
        ({
            let r = input_at(list, updated_at, t, repeat);
            let ago = updated_at - t;
            if list.len() == 0 {
                r is None
            } else if ago < 0 {
                r == if repeat && traits::repeating::<T>() {
                    traits::repeat_of(list[list.len() - 1], (t - updated_at) as u32)
                } else {
                    None
                }
            } else if ago < list.len() {
                r == Some(list[list.len() - 1 - ago])
            } else {
                r is None
            }
        }),
{
}

/// The input for a tick that is replaced is read back there, and the inputs for the other ticks are
/// what they were; ticks between it and the first input get it carried on. Inputs for more than ten
/// ticks before the last one change nothing.
pub proof fn replaced_is_read<T: InputTrait>(
    before: (Seq<T>, u32),
    after: (Seq<T>, u32),
    t: u32,
    value: T,
    x: u32,
    repeat: bool,
)
    requires
        replaced(before, after, t, value),
        0 < before.0.len() <= before.1 + 1,
        t <= before.1 <= u32::MAX / 2,
        x <= before.1,
    ensures
        t + 10 < before.1 ==> after == before,
        t + 10 >= before.1 ==> {
            let first = before.1 - (before.0.len() - 1);
            &&& after.1 == before.1
            &&& before.0.len() <= after.0.len() <= after.1 + 1
            &&& input_at(after.0, after.1, t, repeat) == Some(value)
            &&& x != t && x >= first ==> input_at(after.0, after.1, x, repeat) == input_at(
                before.0,
                before.1,
                x,
                repeat,
            )
            &&& t < x < first ==> input_at(after.0, after.1, x, repeat) == Some(
                traits::carried_on(value, (x - t) as u32),
            )
            &&& x < t && x < first ==> input_at(after.0, after.1, x, repeat) is None
        },
{
    let (list, updated_at) = before;
    let first = updated_at - (list.len() - 1);
    assert(first_of(updated_at, list.len() as int) == first);
    if t + 10 >= updated_at {
        if t < first {
            let gap = first - t - 1;
            assert(after.0 =~= prepended(list, value, gap));
            assert(after.0.len() == list.len() + gap + 1);
            assert(first_of(updated_at, after.0.len() as int) == t);
            assert(after.0[0] == value);
            if x >= first {
                assert(after.0[x - t] == list[x - first]);
            } else if t < x {
                assert(after.0[x - t] == traits::carried_on(value, (x - t) as u32));
            }
        } else {
            assert(after.0[t - first] == value);
        }
    }
}

/// The inputs for some ticks up to the last one, at most ten before it, are read back once all of them
/// were replaced; of several for one tick the last one is.
pub proof fn section_is_read<T: InputTrait>(
    before: (Seq<T>, u32),
    after: (Seq<T>, u32),
    section: Seq<(RepliconTick, T)>,
    i: int,
    repeat: bool,
)
    requires
        section_replaced(before, after, section),
        0 < before.0.len() <= before.1 + 1,
        before.1 <= u32::MAX / 2,
        forall|j: int|
            0 <= j < section.len() ==> (#[trigger] section[j]).0.0 <= before.1 && section[j].0.0
                + 10 >= before.1,
        0 <= i < section.len(),
        forall|j: int| i < j < section.len() ==> (#[trigger] section[j]).0 != section[i].0,
    ensures
        input_at(after.0, after.1, section[i].0.0, repeat) == Some(section[i].1),
        after.1 == before.1,
{
    let held = choose|held: Seq<(Seq<T>, u32)>|
        held.first() == before && held.last() == after && #[trigger] replaced_in_turn(held, section);
    section_holds(held, section, i, repeat, section.len() as int);
}

proof fn section_holds<T: InputTrait>(
    held: Seq<(Seq<T>, u32)>,
    section: Seq<(RepliconTick, T)>,
    i: int,
    repeat: bool,
    n: int,
)
    requires
        replaced_in_turn(held, section),
        0 < held[0].0.len() <= held[0].1 + 1,
        held[0].1 <= u32::MAX / 2,
        forall|j: int|
            0 <= j < section.len() ==> (#[trigger] section[j]).0.0 <= held[0].1 && section[j].0.0
                + 10 >= held[0].1,
        0 <= i < section.len(),
        forall|j: int| i < j < section.len() ==> (#[trigger] section[j]).0 != section[i].0,
        0 <= n <= section.len(),
    ensures
        held[n].1 == held[0].1,
        0 < held[n].0.len() <= held[n].1 + 1,
        i < n ==> {
            &&& input_at(held[n].0, held[n].1, section[i].0.0, repeat) == Some(section[i].1)
            &&& section[i].0.0 >= held[n].1 - (held[n].0.len() - 1)
        },
    decreases n,
{
    if n > 0 {
        section_holds(held, section, i, repeat, n - 1);
        let (t, value) = section[n - 1];
        replaced_is_read(held[n - 1], held[n], t.0, value, section[i].0.0, repeat);
        if i < n - 1 {
            assert(section[n - 1].0 != section[i].0);
        } else if i == n - 1 {
            let (list, updated_at) = held[n];
            if section[i].0.0 < updated_at - (list.len() - 1) {
                inputs_follow_each_other(list, updated_at, t.0, repeat);
            }
        }
    }
}

/// The first input of a history without any. One for the last tick or a later one is held alone. One for
/// an earlier tick is carried on up to the last tick, unless it lies more than ten ticks before it; the
/// tick right before the last one gives way to the last one.
pub proof fn first_input_is_held<T: InputTrait>(
    at: u32,
    after: (Seq<T>, u32),
    t: u32,
    value: T,
    k: int,
)
    requires
        replaced((Seq::empty(), at), after, t, value),
        at <= u32::MAX / 2,
        t + 10 <= u32::MAX / 2,
    ensures
        t >= at ==> after == (seq![value], t),
        t < at && at - t > 10 ==> after == (Seq::<T>::empty(), at),
        at - t == 1 ==> after == (seq![value], at),
        2 <= at - t <= 10 ==> {
            &&& after.1 == at
            &&& after.0.len() == at - t + 1
            &&& after.0[0] == value
            &&& 0 < k < at - t ==> after.0[k] == traits::carried_on(value, k as u32)
            &&& after.0[at - t] == traits::carried_on(value, (at - t - 1) as u32)
        },
{
    if t > at {
        let (capacity, room) = choose|capacity: usize, room: usize|
            written_with((Seq::<T>::empty(), at), after, t, value, capacity, room);
        assert(after.0 =~= seq![value]);
    } else if at - t == 1 {
        assert(after.0 =~= seq![value]);
    }
}

/// As many inputs are kept as there is room for: after an input was written for a later tick, the last
/// ones are held of those before, of the ticks between, and of it, and all of them where they fit. Only
/// where the tick is further from the last one than there is room for, the input is held alone.
pub proof fn kept_as_far_as_they_fit<T: InputTrait>(
    before: (Seq<T>, u32),
    after: (Seq<T>, u32),
    t: u32,
    value: T,
    capacity: usize,
    room: usize,
)
    requires
        written_with(before, after, t, value, capacity, room),
        0 < before.0.len() <= before.1 + 1,
        before.1 < t <= u32::MAX / 2,
        0 < capacity <= u32::MAX,
    ensures
        ({
            let all = before.0.len() + (t - before.1);
            if t - before.1 > capacity {
                after.0 == seq![value]
            } else {
                &&& after.0.len() == if all <= capacity {
                    all
                } else {
                    capacity as int
                }
                &&& after.0 == whole(before, t, value).skip(all - after.0.len())
            }
        }),
{
    assert(written(before, after, t, value));
    written_is_end(before, after, t, value);
    if t - before.1 > capacity {
        assert(after.0 =~= seq![value]);
    } else {
        most_are_within_reach(before.0, before.1, t, capacity as u32);
    }
}

proof fn most_are_within_reach<T>(list: Seq<T>, updated_at: u32, t: u32, capacity: u32)
    requires
        0 < list.len() <= updated_at + 1,
        updated_at < t <= u32::MAX / 2,
        t - updated_at <= capacity,
    ensures
        within_reach(list, updated_at, t, capacity).len() == if list.len() + (t - updated_at) - 1
            <= capacity {
            list.len() as int
        } else {
            capacity - (t - updated_at) + 1
        },
    decreases list.len(),
{
    assert(first_of(updated_at, list.len() as int) == updated_at - (list.len() - 1));
    if tick::elapsed(t, first_of(updated_at, list.len() as int)) > capacity {
        most_are_within_reach(list.drop_first(), updated_at, t, capacity);
    }
}

} // verus!
