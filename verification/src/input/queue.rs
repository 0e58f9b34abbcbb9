//! The inputs that a player has sent.
use super::history;
use super::history::InputHistory;
use super::tick_rings;
use super::tick_rings::{PastTicks, QueuedTicks};
use super::traits;
use super::traits::InputTrait;
use crate::predicted_resource;
use crate::tick;
use crate::tick::RepliconTick;

use std::collections::VecDeque;

use vstd::prelude::*;
use vstd::std_specs::cmp::PartialEqSpec;

verus! {

/// The inputs that were used last, and those that are to be used.
#[derive(Debug)]
pub struct InputQueue<T> {
    past: PastTicks,
    past_inputs: VecDeque<T>,
    queue: QueuedTicks,
    queue_inputs: VecDeque<T>,
    received_horizon: Option<RepliconTick>,
}

/// Ticks with their inputs.
pub open spec fn paired<T>(ticks: Seq<u32>, inputs: Seq<T>) -> Seq<(u32, T)> {
    Seq::new(inputs.len(), |i: int| (ticks[i], inputs[i]))
}

/// The first input for a tick among some ticks with their inputs.
pub open spec fn held<T>(entries: Seq<(u32, T)>, t: u32) -> Option<T>
    decreases entries.len(),
{
    if entries.len() == 0 {
        None
    } else if entries.first().0 == t {
        Some(entries.first().1)
    } else {
        held(entries.drop_first(), t)
    }
}

/// An input for a tick tells something new: it is not what is held for the tick, nor, for a tick
/// that was passed over, what was used there. Where nothing was used yet, every input is new; for
/// ticks before the last one that was used, none is.
pub open spec fn is_novel<T: InputTrait>(
    past: Seq<(u32, T)>,
    queue: Seq<(u32, T)>,
    t: u32,
    value: T,
) -> bool {
    let existing = match held(past, t) {
        Some(v) => Some(v),
        None => held(queue, t),
    };
    match existing {
        Some(v) => !PartialEqSpec::eq_spec(&v, &value),
        None => past.len() == 0 || (t > past.last().0 && !PartialEqSpec::eq_spec(
            &traits::carried_on(past.last().1, (t - past.last().0) as u32),
            &value,
        )),
    }
}

/// The earliest tick before `cur` for which the inputs from the `i`th on tell something new.
pub open spec fn earliest_novel<T: InputTrait>(
    past: Seq<(u32, T)>,
    queue: Seq<(u32, T)>,
    list: Seq<T>,
    first: u32,
    cur: u32,
    i: int,
) -> Option<RepliconTick>
    decreases list.len() - i,
{
    let t = (first + i) as u32;
    if i >= list.len() || !tick::before(t, cur) {
        None
    } else if is_novel(past, queue, t, list[i]) {
        Some(RepliconTick(t))
    } else {
        earliest_novel(past, queue, list, first, cur, i + 1)
    }
}

/// A tick lies outside the ticks from `first` to `last`.
pub open spec fn outside(t: u32, first: u32, last: u32) -> bool {
    tick::before(t, first) || tick::after(t, last)
}

/// The entries outside the ticks from `first` to `last`.
pub open spec fn outside_of<T>(entries: Seq<(u32, T)>, first: u32, last: u32) -> Seq<(u32, T)>
    decreases entries.len(),
{
    if entries.len() == 0 {
        Seq::empty()
    } else {
        let front = outside_of(entries.drop_last(), first, last);
        if outside(entries.last().0, first, last) {
            front.push(entries.last())
        } else {
            front
        }
    }
}

/// Inputs with the ticks that they are for.
pub open spec fn dated<T>(list: Seq<T>, first: u32) -> Seq<(u32, T)> {
    Seq::new(list.len(), |i: int| (tick::advanced(first, i as u32), list[i]))
}

/// An entry put behind the entries for earlier ticks and for the same tick.
pub open spec fn inserted<T>(entries: Seq<(u32, T)>, entry: (u32, T)) -> Seq<(u32, T)>
    decreases entries.len(),
{
    if entries.len() == 0 || entries.last().0 <= entry.0 {
        entries.push(entry)
    } else {
        inserted(entries.drop_last(), entry).push(entries.last())
    }
}

/// Entries in the order of their ticks; those for the same tick keep their order.
pub open spec fn in_order<T>(entries: Seq<(u32, T)>) -> Seq<(u32, T)>
    decreases entries.len(),
{
    if entries.len() == 0 {
        Seq::empty()
    } else {
        inserted(in_order(entries.drop_last()), entries.last())
    }
}

/// What is queued after inputs were received: they take the place of what was queued for their
/// ticks, and the last thirty entries are kept.
pub open spec fn queued_after<T>(
    queue: Seq<(u32, T)>,
    list: Seq<T>,
    first: u32,
    last: u32,
) -> Seq<(u32, T)> {
    predicted_resource::newest(in_order(outside_of(queue, first, last) + dated(list, first)), 30)
}

/// The last tick for which an input was received, after inputs up to `last` were.
pub open spec fn heard_until(prev: Option<RepliconTick>, last: RepliconTick) -> RepliconTick {
    match prev {
        Some(p) if !tick::before(p.0, last.0) => p,
        _ => last,
    }
}

/// The number of entries at the front that are for ticks up to `t`.
pub open spec fn due<T>(entries: Seq<(u32, T)>, t: u32) -> int
    decreases entries.len(),
{
    if entries.len() == 0 || tick::after(entries.first().0, t) {
        0
    } else {
        1 + due(entries.drop_first(), t)
    }
}

/// The queued input to use for a tick: the last one that is due, repeated if it is for an earlier
/// tick.
pub open spec fn queued_for<T: InputTrait>(queue: Seq<(u32, T)>, t: u32) -> Option<T> {
    let n = due(queue, t);
    if n == 0 {
        None
    } else {
        let (from, input) = queue[n - 1];
        if from == t {
            Some(input)
        } else {
            traits::repeat_of(input, tick::elapsed(t, from) as u32)
        }
    }
}

/// The used inputs with one more; of four the oldest is forgotten.
pub open spec fn used<T>(past: Seq<(u32, T)>, entry: (u32, T)) -> Seq<(u32, T)> {
    if past.len() < 3 {
        past.push(entry)
    } else {
        past.drop_first().push(entry)
    }
}

impl<T> InputQueue<T> {
    /// The inputs that were used, with the ticks that they were used for, oldest first.
    pub closed spec fn used_inputs(&self) -> Seq<(u32, T)> {
        paired(tick_rings::past_ticks(self.past), self.past_inputs@)
    }

    /// The inputs that are to be used, with their ticks, first to last.
    pub closed spec fn queued_inputs(&self) -> Seq<(u32, T)> {
        paired(tick_rings::queued_ticks(self.queue), self.queue_inputs@)
    }

    /// The last tick for which an input was received.
    pub closed spec fn horizon(&self) -> Option<RepliconTick> {
        self.received_horizon
    }

    /// There are as many ticks as inputs, of at most three used and thirty queued ones.
    pub closed spec fn wf(&self) -> bool {
        &&& self.past_inputs@.len() == tick_rings::past_ticks(self.past).len() <= 3
        &&& self.queue_inputs@.len() == tick_rings::queued_ticks(self.queue).len() <= 30
    }

    pub fn new() -> (r: Self)
        ensures
            r.wf(),
            r.used_inputs() == Seq::<(u32, T)>::empty(),
            r.queued_inputs() == Seq::<(u32, T)>::empty(),
            r.horizon() is None,
    {
        let r = InputQueue {
            past: tick_rings::past_new(),
            past_inputs: VecDeque::new(),
            queue: tick_rings::queued_new(),
            queue_inputs: VecDeque::new(),
            received_horizon: None,
        };
        proof {
            assert(r.used_inputs() =~= Seq::empty());
            assert(r.queued_inputs() =~= Seq::empty());
        }
        r
    }

    pub fn received_horizon(&self) -> (r: Option<RepliconTick>)
        ensures
            r == self.horizon(),
    {
        self.received_horizon
    }

    /// There are at most three used and thirty queued inputs.
    pub proof fn bounded(&self)
        requires
            self.wf(),
        ensures
            self.used_inputs().len() <= 3,
            self.queued_inputs().len() <= 30,
    {
    }

    /// The number of inputs that were used.
    pub fn past_len(&self) -> (r: usize)
        requires
            self.wf(),
        ensures
            r == self.used_inputs().len(),
    {
        self.past_inputs.len()
    }

    /// The number of inputs that are to be used.
    pub fn queue_len(&self) -> (r: usize)
        requires
            self.wf(),
        ensures
            r == self.queued_inputs().len(),
    {
        self.queue_inputs.len()
    }

    /// An input that was used, with the tick that it was used for.
    pub fn past(&self, index: usize) -> (r: Option<(RepliconTick, &T)>)
        requires
            self.wf(),
        ensures
            r == if index < self.used_inputs().len() {
                Some(
                    (
                        RepliconTick(self.used_inputs()[index as int].0),
                        &self.used_inputs()[index as int].1,
                    ),
                )
            } else {
                None
            },
    {
        match tick_rings::past_get(&self.past, index) {
            Some(t) => Some((RepliconTick::new(t), &self.past_inputs[index])),
            None => None,
        }
    }

    /// An input that is to be used, with its tick.
    pub fn queue(&self, index: usize) -> (r: Option<(RepliconTick, &T)>)
        requires
            self.wf(),
        ensures
            r == if index < self.queued_inputs().len() {
                Some(
                    (
                        RepliconTick(self.queued_inputs()[index as int].0),
                        &self.queued_inputs()[index as int].1,
                    ),
                )
            } else {
                None
            },
    {
        match tick_rings::queued_get(&self.queue, index) {
            Some(t) => Some((RepliconTick::new(t), &self.queue_inputs[index])),
            None => None,
        }
    }

    /// The input that was used for a tick.
    fn find_past(&self, t: u32) -> (r: Option<&T>)
        requires
            self.wf(),
        ensures
            r == match held(self.used_inputs(), t) {
                Some(v) => Some(&v),
                None => None,
            },
    {
        let ghost all = self.used_inputs();
        let mut i: usize = 0;
        proof {
            assert(all.skip(0) =~= all);
        }
        while i < self.past_inputs.len()
            invariant
                self.wf(),
                all == self.used_inputs(),
                i <= all.len(),
                held(all.skip(i as int), t) == held(all, t),
            decreases all.len() - i,
        {
            proof {
                assert(all.skip(i as int).drop_first() =~= all.skip(i + 1));
            }
            if let Some((at, input)) = self.past(i) {
                if at.get() == t {
                    return Some(input);
                }
            }
            i = i + 1;
        }
        None
    }

    /// The input that is queued for a tick.
    fn find_queued(&self, t: u32) -> (r: Option<&T>)
        requires
            self.wf(),
        ensures
            r == match held(self.queued_inputs(), t) {
                Some(v) => Some(&v),
                None => None,
            },
    {
        let ghost all = self.queued_inputs();
        let mut i: usize = 0;
        proof {
            assert(all.skip(0) =~= all);
        }
        while i < self.queue_inputs.len()
            invariant
                self.wf(),
                all == self.queued_inputs(),
                i <= all.len(),
                held(all.skip(i as int), t) == held(all, t),
            decreases all.len() - i,
        {
            proof {
                assert(all.skip(i as int).drop_first() =~= all.skip(i + 1));
            }
            if let Some((at, input)) = self.queue(i) {
                if at.get() == t {
                    return Some(input);
                }
            }
            i = i + 1;
        }
        None
    }

    /// Take the first queued input.
    fn pop_queued(&mut self) -> (r: Option<(u32, T)>)
        requires
            old(self).wf(),
        ensures
            final(self).wf(),
            final(self).used_inputs() == old(self).used_inputs(),
            final(self).horizon() == old(self).horizon(),
            r == if old(self).queued_inputs().len() > 0 {
                Some(old(self).queued_inputs()[0])
            } else {
                None
            },
            final(self).queued_inputs() == if old(self).queued_inputs().len() > 0 {
                old(self).queued_inputs().drop_first()
            } else {
                old(self).queued_inputs()
            },
    {
        match tick_rings::queued_pop_front(&mut self.queue) {
            Some(t) => {
                let input = self.queue_inputs.pop_front();
                proof {
                    assert(self.queued_inputs() =~= old(self).queued_inputs().drop_first());
                }
                match input {
                    Some(input) => Some((t, input)),
                    None => None,
                }
            },
            None => None,
        }
    }

    /// Queue an input behind the others.
    fn push_queued(&mut self, entry: (u32, T))
        requires
            old(self).wf(),
            old(self).queued_inputs().len() < 30,
        ensures
            final(self).wf(),
            final(self).used_inputs() == old(self).used_inputs(),
            final(self).horizon() == old(self).horizon(),
            final(self).queued_inputs() == old(self).queued_inputs().push(entry),
    {
        tick_rings::queued_push_back(&mut self.queue, entry.0);
        self.queue_inputs.push_back(entry.1);
        proof {
            assert(self.queued_inputs() =~= old(self).queued_inputs().push(entry));
        }
    }

    /// Remember an input that was used.
    fn push_past(&mut self, entry: (u32, T))
        requires
            old(self).wf(),
        ensures
            final(self).wf(),
            final(self).used_inputs() == used(old(self).used_inputs(), entry),
            final(self).horizon() == old(self).horizon(),
            final(self).queued_inputs() == old(self).queued_inputs(),
    {
        tick_rings::past_push_back(&mut self.past, entry.0);
        if self.past_inputs.len() == 3 {
            self.past_inputs.pop_front();
        }
        self.past_inputs.push_back(entry.1);
        proof {
            assert(self.used_inputs() =~= used(old(self).used_inputs(), entry));
        }
    }
}

impl<T> Default for InputQueue<T> {
    fn default() -> (r: Self)
        ensures
            r.wf(),
            r.used_inputs() == Seq::<(u32, T)>::empty(),
            r.queued_inputs() == Seq::<(u32, T)>::empty(),
            r.horizon() is None,
    {
        InputQueue::new()
    }
}

/// Put an entry behind the entries for earlier ticks and for the same tick.
fn insert_in_order<T>(entries: &mut VecDeque<(u32, T)>, entry: (u32, T))
    ensures
        final(entries)@ == inserted(old(entries)@, entry),
{
    let ghost before = entries@;
    let mut at: usize = entries.len();
    proof {
        assert(before.take(before.len() as int) =~= before);
        assert(before.skip(before.len() as int) =~= Seq::empty());
        assert(inserted(before, entry) =~= inserted(before, entry) + Seq::<(u32, T)>::empty());
    }
    while at > 0 && entries[at - 1].0 > entry.0
        invariant
            at <= before.len(),
            entries@ == before,
            inserted(before, entry) == inserted(before.take(at as int), entry) + before.skip(
                at as int,
            ),
        decreases at,
    {
        proof {
            let part = before.take(at as int);
            assert(part.drop_last() =~= before.take(at - 1));
            assert(inserted(part, entry) == inserted(part.drop_last(), entry).push(part.last()));
            assert(inserted(part, entry) + before.skip(at as int) =~= inserted(
                part.drop_last(),
                entry,
            ) + before.skip(at - 1));
        }
        at = at - 1;
    }
    entries.insert(at, entry);
    proof {
        let part = before.take(at as int);
        assert(inserted(part, entry) == part.push(entry));
        assert(entries@ =~= inserted(before, entry));
    }
}

impl<T: InputTrait> InputQueue<T> {
    /// Whether an input for a tick tells something new.
    fn tells_something_new(&self, t: u32, value: &T) -> (r: bool)
        requires
            traits::comparable::<T>(),
            self.wf(),
        ensures
            r == is_novel(self.used_inputs(), self.queued_inputs(), t, *value),
    {
        let existing = match self.find_past(t) {
            Some(v) => Some(v),
            None => self.find_queued(t),
        };
        match existing {
            Some(v) => !traits::same(v, value),
            None => {
                if self.past_len() == 0 {
                    return true;
                }
                match self.past(self.past_len() - 1) {
                    Some((last, input)) => t > last.get() && !traits::same(
                        &traits::carry_on(input, t - last.get()),
                        value,
                    ),
                    None => true,
                }
            },
        }
    }

    /// Add the inputs that a player has sent. The earliest tick before `cur_tick` for which they
    /// tell something new is returned.
    pub fn add(&mut self, cur_tick: RepliconTick, history: &InputHistory<T>) -> (r: Option<
        RepliconTick,
    >)
        requires
            traits::comparable::<T>(),
            old(self).wf(),
            history.list@.len() <= u32::MAX,
        ensures
            final(self).wf(),
            final(self).used_inputs() == old(self).used_inputs(),
            history.list@.len() == 0 ==> {
                &&& r is None
                &&& final(self).queued_inputs() == old(self).queued_inputs()
                &&& final(self).horizon() == old(self).horizon()
            },
            history.list@.len() > 0 ==> {
                let first = history::first_of(history.updated_at.0, history.list@.len() as int);
                &&& r == earliest_novel(
                    old(self).used_inputs(),
                    old(self).queued_inputs(),
                    history.list@,
                    first,
                    cur_tick.0,
                    0,
                )
                &&& final(self).queued_inputs() == queued_after(
                    old(self).queued_inputs(),
                    history.list@,
                    first,
                    history.updated_at.0,
                )
                &&& final(self).horizon() == Some(
                    heard_until(old(self).horizon(), history.updated_at),
                )
            },
    {
        if history.is_empty() {
            return None;
        }
        let first: u32 = history.first_tick().get();
        let last: RepliconTick = history.updated_at();
        self.received_horizon =
        Some(
            match self.received_horizon {
                Some(prev) => if tick::is_before(prev.get(), last.get()) {
                    last
                } else {
                    prev
                },
                None => last,
            },
        );
        let r = self.find_novel(cur_tick, history, first);
        self.requeue(history, first);
        r
    }

    /// The earliest tick before `cur_tick` for which inputs tell something new.
    fn find_novel(&self, cur_tick: RepliconTick, history: &InputHistory<T>, first: u32) -> (r:
        Option<RepliconTick>)
        requires
            traits::comparable::<T>(),
            self.wf(),
            0 < history.list@.len() <= u32::MAX,
            first == history::first_of(history.updated_at.0, history.list@.len() as int),
        ensures
            r == earliest_novel(
                self.used_inputs(),
                self.queued_inputs(),
                history.list@,
                first,
                cur_tick.0,
                0,
            ),
    {
        let mut i: usize = 0;
        while i < history.list.len()
            invariant
                traits::comparable::<T>(),
                self.wf(),
                i <= history.list@.len() <= u32::MAX,
                first + history.list@.len() - 1 <= u32::MAX,
                earliest_novel(
                    self.used_inputs(),
                    self.queued_inputs(),
                    history.list@,
                    first,
                    cur_tick.0,
                    i as int,
                ) == earliest_novel(
                    self.used_inputs(),
                    self.queued_inputs(),
                    history.list@,
                    first,
                    cur_tick.0,
                    0,
                ),
            decreases history.list@.len() - i,
        {
            let t: u32 = first + i as u32;
            if !tick::is_before(t, cur_tick.get()) {
                return None;
            }
            if self.tells_something_new(t, &history.list[i]) {
                return Some(RepliconTick::new(t));
            }
            i = i + 1;
        }
        None
    }

    /// Queue inputs in place of what was queued for their ticks.
    fn requeue(&mut self, history: &InputHistory<T>, first: u32)
        requires
            traits::plain::<T>(),
            old(self).wf(),
            history.list@.len() <= u32::MAX,
        ensures
            final(self).wf(),
            final(self).used_inputs() == old(self).used_inputs(),
            final(self).horizon() == old(self).horizon(),
            final(self).queued_inputs() == queued_after(
                old(self).queued_inputs(),
                history.list@,
                first,
                history.updated_at.0,
            ),
    {
        let last: u32 = history.updated_at.get();
        let ghost queue = self.queued_inputs();
        let ghost list = history.list@;
        let mut combined: VecDeque<(u32, T)> = VecDeque::new();
        let ghost mut taken: int = 0;
        proof {
            assert(queue.skip(0) =~= queue);
            assert(queue.take(0) =~= Seq::empty());
        }
        loop
            invariant
                traits::plain::<T>(),
                self.wf(),
                self.used_inputs() == old(self).used_inputs(),
                self.horizon() == old(self).horizon(),
                0 <= taken <= queue.len(),
                self.queued_inputs() == queue.skip(taken),
                combined@ == in_order(outside_of(queue.take(taken), first, last)),
            ensures
                taken == queue.len(),
                self.queued_inputs().len() == 0,
            decreases queue.len() - taken,
        {
            let entry = match self.pop_queued() {
                Some(entry) => entry,
                None => {
                    break;
                },
            };
            proof {
                assert(queue.skip(taken).drop_first() =~= queue.skip(taken + 1));
                assert(queue.take(taken + 1).drop_last() =~= queue.take(taken));
                let front = outside_of(queue.take(taken), first, last);
                assert(front.push(entry).drop_last() =~= front);
            }
            if tick::is_before(entry.0, first) || tick::is_after(entry.0, last) {
                insert_in_order(&mut combined, entry);
            }
            proof {
                taken = taken + 1;
            }
        }
        let ghost kept = outside_of(queue, first, last);
        let mut i: usize = 0;
        proof {
            assert(queue.take(taken) =~= queue);
            assert(kept + dated(list, first).take(0) =~= kept);
        }
        while i < history.list.len()
            invariant
                traits::plain::<T>(),
                self.wf(),
                self.used_inputs() == old(self).used_inputs(),
                self.horizon() == old(self).horizon(),
                self.queued_inputs().len() == 0,
                list == history.list@,
                i <= list.len() <= u32::MAX,
                combined@ == in_order(kept + dated(list, first).take(i as int)),
            decreases list.len() - i,
        {
            let entry: (u32, T) = (first.wrapping_add(i as u32), traits::copy(&history.list[i]));
            proof {
                let next = kept + dated(list, first).take(i + 1);
                assert(next.drop_last() =~= kept + dated(list, first).take(i as int));
                assert(next.last() == entry);
            }
            insert_in_order(&mut combined, entry);
            i = i + 1;
        }
        let ghost all = combined@;
        proof {
            assert(dated(list, first).take(list.len() as int) =~= dated(list, first));
            assert(all == in_order(kept + dated(list, first)));
        }
        while combined.len() > 30
            invariant
                traits::plain::<T>(),
                combined@ == if all.len() <= 30 {
                    all
                } else {
                    all.skip(all.len() - combined@.len())
                },
                all.len() > 30 ==> 30 <= combined@.len() <= all.len(),
            decreases combined@.len(),
        {
            let _ = combined.pop_front();
        }
        let ghost newest = predicted_resource::newest(all, 30);
        proof {
            assert(combined@ =~= newest);
            assert(newest.take(0) =~= self.queued_inputs());
            assert(newest.skip(0) =~= combined@);
        }
        let ghost mut moved: int = 0;
        loop
            invariant
                traits::plain::<T>(),
                self.wf(),
                self.used_inputs() == old(self).used_inputs(),
                self.horizon() == old(self).horizon(),
                newest.len() <= 30,
                0 <= moved <= newest.len(),
                combined@ == newest.skip(moved),
                self.queued_inputs() == newest.take(moved),
            ensures
                moved == newest.len(),
            decreases newest.len() - moved,
        {
            let entry = match combined.pop_front() {
                Some(entry) => entry,
                None => {
                    break;
                },
            };
            proof {
                assert(newest.skip(moved).subrange(1, newest.skip(moved).len() as int)
                    =~= newest.skip(moved + 1));
                assert(newest.take(moved + 1) =~= newest.take(moved).push(entry));
            }
            self.push_queued(entry);
            proof {
                moved = moved + 1;
            }
        }
        proof {
            assert(newest.take(newest.len() as int) =~= newest);
        }
    }

    /// The input to use for a tick. Without a queued one the last one that was used is repeated.
    pub fn next(&mut self, t: RepliconTick) -> (r: Option<T>)
        requires
            traits::plain::<T>(),
            old(self).wf(),
        ensures
            final(self).wf(),
            final(self).horizon() == old(self).horizon(),
            final(self).queued_inputs() == old(self).queued_inputs().skip(
                due(old(self).queued_inputs(), t.0),
            ),
            match queued_for(old(self).queued_inputs(), t.0) {
                Some(input) => {
                    &&& r == Some(input)
                    &&& final(self).used_inputs() == used(old(self).used_inputs(), (t.0, input))
                },
                None => {
                    let past = old(self).used_inputs();
                    &&& final(self).used_inputs() == past
                    &&& r == if past.len() == 0 {
                        None
                    } else {
                        traits::repeat_of(past.last().1, tick::elapsed(t.0, past.last().0) as u32)
                    }
                },
            },
    {
        let ghost queue = self.queued_inputs();
        let mut newest: Option<(u32, T)> = None;
        let ghost mut taken: int = 0;
        proof {
            assert(queue.skip(0) =~= queue);
        }
        loop
            invariant
                traits::plain::<T>(),
                self.wf(),
                self.used_inputs() == old(self).used_inputs(),
                self.horizon() == old(self).horizon(),
                0 <= taken <= queue.len(),
                self.queued_inputs() == queue.skip(taken),
                due(queue, t.0) == taken + due(queue.skip(taken), t.0),
                newest == if taken == 0 {
                    None
                } else {
                    Some(queue[taken - 1])
                },
            ensures
                due(queue.skip(taken), t.0) == 0,
            decreases queue.len() - taken,
        {
            match self.queue(0) {
                Some((front, _)) => {
                    if tick::is_after(front.get(), t.get()) {
                        break;
                    }
                },
                None => {
                    break;
                },
            }
            proof {
                assert(queue.skip(taken).drop_first() =~= queue.skip(taken + 1));
            }
            newest = self.pop_queued();
            proof {
                taken = taken + 1;
            }
        }
        let hit: Option<T> = match newest {
            Some((from, input)) => if from == t.get() {
                Some(input)
            } else {
                traits::repeat(&input, t.get().wrapping_sub(from))
            },
            None => None,
        };
        if let Some(input) = hit {
            self.push_past((t.get(), traits::copy(&input)));
            return Some(input);
        }
        if self.past_len() == 0 {
            return None;
        }
        match self.past(self.past_len() - 1) {
            Some((from, input)) => traits::repeat(input, t.get().wrapping_sub(from.get())),
            None => None,
        }
    }
}

/// Entries lie in the order of their ticks.
pub open spec fn ordered<T>(entries: Seq<(u32, T)>) -> bool {
    forall|i: int, j: int|
        0 <= i < j < entries.len() ==> (#[trigger] entries[i]).0 <= (#[trigger] entries[j]).0
}

proof fn inserted_is_ordered<T>(entries: Seq<(u32, T)>, entry: (u32, T))
    requires
        ordered(entries),
    ensures
        ordered(inserted(entries, entry)),
        inserted(entries, entry).to_multiset() == entries.to_multiset().insert(entry),
        inserted(entries, entry).len() == entries.len() + 1,
        forall|i: int|
            0 <= i < inserted(entries, entry).len() ==> (#[trigger] inserted(entries, entry)[i]).0
                <= entry.0 || (entries.len() > 0 && inserted(entries, entry)[i].0
                <= entries.last().0),
    decreases entries.len(),
{
    broadcast use vstd::seq_lib::group_to_multiset_ensures;

    if entries.len() == 0 || entries.last().0 <= entry.0 {
        assert forall|i: int, j: int| 0 <= i < j < entries.len() + 1 implies (
        #[trigger] entries.push(entry)[i]).0 <= (#[trigger] entries.push(entry)[j]).0 by {
            if j == entries.len() && i < entries.len() - 1 {
                assert(entries[i].0 <= entries[entries.len() - 1].0);
            } else if j < entries.len() {
                assert(entries[i].0 <= entries[j].0);
            }
        }
    } else {
        let front = entries.drop_last();
        let part = inserted(front, entry);
        assert forall|i: int, j: int| 0 <= i < j < front.len() implies (#[trigger] front[i]).0 <= (
        #[trigger] front[j]).0 by {
            assert(entries[i].0 <= entries[j].0);
        }
        inserted_is_ordered(front, entry);
        assert(front.push(entries.last()) =~= entries);
        if front.len() > 0 {
            assert(entries[front.len() - 1].0 <= entries[entries.len() - 1].0);
        }
        let all = inserted(entries, entry);
        assert forall|i: int, j: int| 0 <= i < j < all.len() implies (#[trigger] all[i]).0 <= (
        #[trigger] all[j]).0 by {
            assert(all[i] == part[i]);
            if j < part.len() {
                assert(all[j] == part[j]);
            }
        }
        assert(all.to_multiset() =~= entries.to_multiset().insert(entry));
        assert forall|i: int| 0 <= i < all.len() implies (#[trigger] all[i]).0 <= entry.0
            || all[i].0 <= entries.last().0 by {
            if i < part.len() {
                assert(all[i] == part[i]);
            }
        }
    }
}

/// Ordering entries puts them in the order of their ticks and loses none.
pub proof fn in_order_is_ordered<T>(entries: Seq<(u32, T)>)
    ensures
        ordered(in_order(entries)),
        in_order(entries).to_multiset() == entries.to_multiset(),
        in_order(entries).len() == entries.len(),
    decreases entries.len(),
{
    broadcast use vstd::seq_lib::group_to_multiset_ensures;

    if entries.len() > 0 {
        let front = entries.drop_last();
        in_order_is_ordered(front);
        inserted_is_ordered(in_order(front), entries.last());
        assert(front.push(entries.last()) =~= entries);
    } else {
        assert(entries =~= in_order(entries));
    }
}

/// A queue stays in the order of its ticks, and holds at most thirty entries.
pub proof fn queue_is_ordered<T>(queue: Seq<(u32, T)>, list: Seq<T>, first: u32, last: u32)
    ensures
        ordered(queued_after(queue, list, first, last)),
        queued_after(queue, list, first, last).len() <= 30,
{
    let all = outside_of(queue, first, last) + dated(list, first);
    in_order_is_ordered(all);
    let sorted = in_order(all);
    let kept = queued_after(queue, list, first, last);
    assert forall|i: int, j: int| 0 <= i < j < kept.len() implies (#[trigger] kept[i]).0 <= (
    #[trigger] kept[j]).0 by {
        let skipped = sorted.len() - kept.len();
        assert(kept[i] == sorted[i + skipped]);
        assert(kept[j] == sorted[j + skipped]);
    }
}

/// The input that is queued for a tick is the one that is used for it, where the queue is in
/// order, has one entry for the tick, and spans less than half of all ticks.
pub proof fn queued_input_is_used<T: InputTrait>(queue: Seq<(u32, T)>, k: int)
    requires
        ordered(queue),
        0 <= k < queue.len(),
        k + 1 < queue.len() ==> queue[k].0 < queue[k + 1].0,
        queue.last().0 - queue.first().0 <= u32::MAX / 2,
    ensures
        due(queue, queue[k].0) == k + 1,
        queued_for(queue, queue[k].0) == Some(queue[k].1),
    decreases k,
{
    let t = queue[k].0;
    assert(queue[0].0 <= queue[k].0);
    assert(queue[k].0 <= queue[queue.len() - 1].0);
    let rest = queue.drop_first();
    if k == 0 {
        if rest.len() > 0 {
            assert(rest.first() == queue[1]);
            assert(queue[1].0 <= queue[queue.len() - 1].0);
        }
        assert(due(rest, t) == 0);
    } else {
        assert(rest.len() > 0);
        assert forall|i: int, j: int| 0 <= i < j < rest.len() implies (#[trigger] rest[i]).0 <= (
        #[trigger] rest[j]).0 by {
            assert(queue[i + 1].0 <= queue[j + 1].0);
        }
        assert(rest[k - 1] == queue[k]);
        if k + 1 < queue.len() {
            assert(rest[k] == queue[k + 1]);
        }
        assert(queue[0].0 <= queue[1].0);
        queued_input_is_used(rest, k - 1);
    }
}

proof fn held_is_the_only<T>(entries: Seq<(u32, T)>, k: int)
    requires
        0 <= k < entries.len(),
        forall|j: int|
            0 <= j < entries.len() && (#[trigger] entries[j]).0 == entries[k].0 ==> entries[j].1
                == entries[k].1,
    ensures
        held(entries, entries[k].0) == Some(entries[k].1),
    decreases entries.len(),
{
    if entries.first().0 == entries[k].0 {
        assert(entries[0].1 == entries[k].1);
    } else {
        let rest = entries.drop_first();
        assert(rest[k - 1] == entries[k]);
        assert forall|j: int|
            0 <= j < rest.len() && (#[trigger] rest[j]).0 == rest[k - 1].0 implies rest[j].1
            == rest[k - 1].1 by {
            assert(entries[j + 1] == rest[j]);
        }
        held_is_the_only(rest, k - 1);
    }
}

proof fn outside_of_is_outside<T>(entries: Seq<(u32, T)>, first: u32, last: u32)
    ensures
        forall|j: int|
            0 <= j < outside_of(entries, first, last).len() ==> outside(
                (#[trigger] outside_of(entries, first, last)[j]).0,
                first,
                last,
            ),
    decreases entries.len(),
{
    if entries.len() > 0 {
        outside_of_is_outside(entries.drop_last(), first, last);
        let front = outside_of(entries.drop_last(), first, last);
        let all = outside_of(entries, first, last);
        assert forall|j: int| 0 <= j < all.len() implies outside(
            (#[trigger] all[j]).0,
            first,
            last,
        ) by {
            if j < front.len() {
                assert(all[j] == front[j]);
            }
        }
    }
}

/// Inputs that were received are queued for their ticks, where there is room for all of them.
pub proof fn received_is_held<T>(queue: Seq<(u32, T)>, list: Seq<T>, first: u32, last: u32, i: int)
    requires
        0 <= i < list.len() <= u32::MAX / 2,
        last == first + list.len() - 1,
        outside_of(queue, first, last).len() + list.len() <= 30,
    ensures
        held(queued_after(queue, list, first, last), (first + i) as u32) == Some(list[i]),
{
    broadcast use vstd::seq_lib::group_to_multiset_ensures;

    let others = outside_of(queue, first, last);
    let all = others + dated(list, first);
    let sorted = queued_after(queue, list, first, last);
    let entry = ((first + i) as u32, list[i]);
    in_order_is_ordered(all);
    outside_of_is_outside(queue, first, last);
    assert(sorted == in_order(all));
    assert(all[others.len() + i] == entry);
    assert(all.contains(entry));
    assert(sorted.to_multiset().count(entry) > 0);
    assert(sorted.contains(entry));
    let k = choose|k: int| 0 <= k < sorted.len() && sorted[k] == entry;
    assert forall|j: int| 0 <= j < sorted.len() && (#[trigger] sorted[j]).0 == sorted[k].0 implies
        sorted[j].1 == sorted[k].1 by {
        assert(sorted.contains(sorted[j]));
        assert(all.to_multiset().count(sorted[j]) > 0);
        assert(all.contains(sorted[j]));
        let m = choose|m: int| 0 <= m < all.len() && all[m] == sorted[j];
        if m < others.len() {
            assert(outside(others[m].0, first, last));
            assert(false);
        } else {
            assert(all[m] == dated(list, first)[m - others.len()]);
        }
    }
    held_is_the_only(sorted, k);
}

/// Ordering entries that lie in the order of their ticks leaves them as they are.
proof fn ordered_stays<T>(entries: Seq<(u32, T)>)
    requires
        ordered(entries),
    ensures
        in_order(entries) == entries,
    decreases entries.len(),
{
    if entries.len() > 0 {
        let front = entries.drop_last();
        assert forall|i: int, j: int| 0 <= i < j < front.len() implies (#[trigger] front[i]).0 <= (
        #[trigger] front[j]).0 by {
            assert(entries[i].0 <= entries[j].0);
        }
        ordered_stays(front);
        if front.len() > 0 {
            assert(entries[front.len() - 1].0 <= entries[entries.len() - 1].0);
        }
        assert(front.push(entries.last()) =~= entries);
    } else {
        assert(in_order(entries) =~= entries);
    }
}

/// Part of what is joined can be ordered before.
proof fn ordering_in_part<T>(a: Seq<(u32, T)>, b: Seq<(u32, T)>)
    ensures
        in_order(in_order(a) + b) == in_order(a + b),
    decreases b.len(),
{
    in_order_is_ordered(a);
    if b.len() == 0 {
        assert(in_order(a) + b =~= in_order(a));
        assert(a + b =~= a);
        ordered_stays(in_order(a));
    } else {
        ordering_in_part(a, b.drop_last());
        assert((in_order(a) + b).drop_last() =~= in_order(a) + b.drop_last());
        assert((a + b).drop_last() =~= a + b.drop_last());
    }
}

/// Leaving out the entries of a range goes with putting one in its place.
proof fn inserted_outside<T>(entries: Seq<(u32, T)>, entry: (u32, T), first: u32, last: u32)
    requires
        ordered(entries),
    ensures
        outside_of(inserted(entries, entry), first, last) == if outside(entry.0, first, last) {
            inserted(outside_of(entries, first, last), entry)
        } else {
            outside_of(entries, first, last)
        },
    decreases entries.len(),
{
    let left = outside_of(entries, first, last);
    if entries.len() == 0 || entries.last().0 <= entry.0 {
        assert(entries.push(entry).drop_last() =~= entries);
        outside_of_is_part(entries, first, last);
        if left.len() > 0 {
            assert(entries.contains(left[left.len() - 1]));
            let k = choose|k: int| 0 <= k < entries.len() && entries[k] == left.last();
            if k < entries.len() - 1 {
                assert(entries[k].0 <= entries[entries.len() - 1].0);
            }
        }
    } else {
        let front = entries.drop_last();
        assert forall|i: int, j: int| 0 <= i < j < front.len() implies (#[trigger] front[i]).0 <= (
        #[trigger] front[j]).0 by {
            assert(entries[i].0 <= entries[j].0);
        }
        inserted_outside(front, entry, first, last);
        let all = inserted(entries, entry);
        assert(all.drop_last() =~= inserted(front, entry));
        let kept = outside_of(front, first, last);
        if outside(entries.last().0, first, last) {
            assert(left.drop_last() =~= kept);
        }
    }
}

/// What is left of entries was among them.
proof fn outside_of_is_part<T>(entries: Seq<(u32, T)>, first: u32, last: u32)
    ensures
        forall|j: int|
            0 <= j < outside_of(entries, first, last).len() ==> entries.contains(
                #[trigger] outside_of(entries, first, last)[j],
            ),
    decreases entries.len(),
{
    if entries.len() > 0 {
        let rest = entries.drop_last();
        outside_of_is_part(rest, first, last);
        let front = outside_of(rest, first, last);
        let all = outside_of(entries, first, last);
        assert forall|j: int| 0 <= j < all.len() implies entries.contains(#[trigger] all[j]) by {
            if j < front.len() {
                assert(all[j] == front[j]);
                assert(rest.contains(front[j]));
                let k = choose|k: int| 0 <= k < rest.len() && rest[k] == front[j];
                assert(entries[k] == all[j]);
            } else {
                assert(entries[entries.len() - 1] == all[j]);
            }
        }
    }
}

/// Leaving out the entries of a range goes with ordering them.
proof fn ordered_outside<T>(entries: Seq<(u32, T)>, first: u32, last: u32)
    ensures
        outside_of(in_order(entries), first, last) == in_order(outside_of(entries, first, last)),
    decreases entries.len(),
{
    if entries.len() > 0 {
        let front = entries.drop_last();
        ordered_outside(front, first, last);
        in_order_is_ordered(front);
        inserted_outside(in_order(front), entries.last(), first, last);
        let left = outside_of(front, first, last);
        assert(left.push(entries.last()).drop_last() =~= left);
    }
}

/// Where the first entries lie outside a range and the others within it, the first ones are left.
proof fn first_are_outside<T>(a: Seq<(u32, T)>, b: Seq<(u32, T)>, first: u32, last: u32)
    requires
        forall|j: int| 0 <= j < a.len() ==> outside((#[trigger] a[j]).0, first, last),
        forall|j: int| 0 <= j < b.len() ==> !outside((#[trigger] b[j]).0, first, last),
    ensures
        outside_of(a + b, first, last) == a,
    decreases a.len() + b.len(),
{
    let all = a + b;
    if b.len() > 0 {
        assert(all.drop_last() =~= a + b.drop_last());
        assert(all.last() == b[b.len() - 1]);
        first_are_outside(a, b.drop_last(), first, last);
    } else if a.len() > 0 {
        assert(all.drop_last() =~= a.drop_last() + b);
        assert(all.last() == a[a.len() - 1]);
        first_are_outside(a.drop_last(), b, first, last);
        assert(a.drop_last().push(a.last()) =~= a);
    } else {
        assert(all =~= a);
    }
}

/// Sending inputs again leaves the queue and the last tick that was heard of as they are, where there
/// is room for all of them.
pub proof fn resent_changes_nothing<T>(
    queue: Seq<(u32, T)>,
    horizon: Option<RepliconTick>,
    list: Seq<T>,
    first: u32,
    last: RepliconTick,
)
    requires
        last.0 == first + list.len() - 1,
        outside_of(queue, first, last.0).len() + list.len() <= 30,
    ensures
        queued_after(queued_after(queue, list, first, last.0), list, first, last.0)
            == queued_after(queue, list, first, last.0),
        heard_until(Some(heard_until(horizon, last)), last) == heard_until(horizon, last),
{
    let others = outside_of(queue, first, last.0);
    let sent = dated(list, first);
    outside_of_is_outside(queue, first, last.0);
    first_are_outside(others, sent, first, last.0);
    in_order_is_ordered(others + sent);
    in_order_is_ordered(others);
    ordered_outside(others + sent, first, last.0);
    assert(outside_of(in_order(others + sent), first, last.0) == in_order(others));
    ordering_in_part(others, sent);
}

/// Sending inputs again tells nothing new: once they are queued, and no input was used for their
/// ticks, none of them is a reason to roll back.
pub proof fn resent_is_not_new<T: InputTrait>(
    past: Seq<(u32, T)>,
    queue: Seq<(u32, T)>,
    list: Seq<T>,
    first: u32,
    last: u32,
    cur: u32,
    i: int,
)
    requires
        0 <= i <= list.len() <= u32::MAX / 2,
        last == first + list.len() - 1,
        outside_of(queue, first, last).len() + list.len() <= 30,
        forall|t: u32| first <= t <= last ==> #[trigger] held(past, t) is None,
        forall|a: T| #[trigger] PartialEqSpec::eq_spec(&a, &a),
    ensures
        earliest_novel(past, queued_after(queue, list, first, last), list, first, cur, i) is None,
    decreases list.len() - i,
{
    if i < list.len() {
        received_is_held(queue, list, first, last, i);
        assert(held(past, (first + i) as u32) is None);
        resent_is_not_new(past, queue, list, first, last, cur, i + 1);
    }
}

/// An input that is held for a tick is that of the first entry for the tick; where none is held,
/// there is no entry for it.
pub proof fn held_is_first<T>(entries: Seq<(u32, T)>, t: u32)
    ensures
        match held(entries, t) {
            Some(v) => exists|i: int|
                0 <= i < entries.len() && #[trigger] entries[i] == (t, v) && forall|j: int|
                    0 <= j < i ==> (#[trigger] entries[j]).0 != t,
            None => forall|i: int| 0 <= i < entries.len() ==> (#[trigger] entries[i]).0 != t,
        },
    decreases entries.len(),
{
    if entries.len() > 0 {
        let rest = entries.drop_first();
        if entries.first().0 == t {
            assert(entries[0] == (t, entries[0].1));
        } else {
            held_is_first(rest, t);
            match held(rest, t) {
                Some(v) => {
                    let i = choose|i: int|
                        0 <= i < rest.len() && #[trigger] rest[i] == (t, v) && forall|j: int|
                            0 <= j < i ==> (#[trigger] rest[j]).0 != t;
                    assert(entries[i + 1] == (t, v));
                    assert forall|j: int| 0 <= j < i + 1 implies (#[trigger] entries[j]).0 != t by {
                        if j > 0 {
                            assert(rest[j - 1] == entries[j]);
                        }
                    }
                },
                None => {
                    assert forall|j: int| 0 <= j < entries.len() implies (
                    #[trigger] entries[j]).0 != t by {
                        if j > 0 {
                            assert(rest[j - 1] == entries[j]);
                        }
                    }
                },
            }
        }
    }
}

/// An input for a tick is at odds with what was used there, or would be: with the input that is held
/// for it, used or queued, or, on any tick after the last one that was used, with the last used input
/// carried on to it. Where nothing was used yet and nothing is held, any input is.
pub open spec fn at_odds<T: InputTrait>(
    past: Seq<(u32, T)>,
    queue: Seq<(u32, T)>,
    t: u32,
    value: T,
) -> bool {
    if held(past, t) is Some {
        !PartialEqSpec::eq_spec(&held(past, t)->0, &value)
    } else if held(queue, t) is Some {
        !PartialEqSpec::eq_spec(&held(queue, t)->0, &value)
    } else if past.len() == 0 {
        true
    } else if t <= past[past.len() - 1].0 {
        false
    } else {
        let (from, input) = past[past.len() - 1];
        !PartialEqSpec::eq_spec(&traits::carried_on(input, (t - from) as u32), &value)
    }
}

/// Every misprediction is reported: where an input for a tick before the present is at odds with what
/// was used or would be, that tick or an earlier one is reported.
pub proof fn mispredictions_are_reported<T: InputTrait>(
    past: Seq<(u32, T)>,
    queue: Seq<(u32, T)>,
    list: Seq<T>,
    first: u32,
    cur: u32,
    from: int,
    i: int,
)
    requires
        0 <= from <= i < list.len(),
        first + i < cur,
        cur - first <= u32::MAX / 2,
        at_odds(past, queue, (first + i) as u32, list[i]),
    ensures
        earliest_novel(past, queue, list, first, cur, from) matches Some(t) && t.0 <= first + i,
    decreases i - from,
{
    if !is_novel(past, queue, (first + from) as u32, list[from]) {
        mispredictions_are_reported(past, queue, list, first, cur, from + 1, i);
    }
}

/// Only mispredictions are reported: the tick that is reported lies before the present, its input is
/// at odds with what was used or would be, and no earlier one is.
pub proof fn reported_is_mispredicted<T: InputTrait>(
    past: Seq<(u32, T)>,
    queue: Seq<(u32, T)>,
    list: Seq<T>,
    first: u32,
    cur: u32,
    from: int,
)
    requires
        0 <= from,
        first + list.len() - 1 <= u32::MAX,
        earliest_novel(past, queue, list, first, cur, from) is Some,
    ensures
        ({
            let t = (earliest_novel(past, queue, list, first, cur, from)->0).0;
            &&& first + from <= t < first + list.len()
            &&& tick::before(t, cur)
            &&& at_odds(past, queue, t, list[t - first])
            &&& forall|j: int|
                from <= j < t - first ==> !#[trigger] at_odds(
                    past,
                    queue,
                    (first + j) as u32,
                    list[j],
                )
        }),
    decreases list.len() - from,
{
    if !is_novel(past, queue, (first + from) as u32, list[from]) {
        reported_is_mispredicted(past, queue, list, first, cur, from + 1);
        let t = (earliest_novel(past, queue, list, first, cur, from)->0).0;
        assert forall|j: int| from <= j < t - first implies !#[trigger] at_odds(
            past,
            queue,
            (first + j) as u32,
            list[j],
        ) by {}
    }
}

proof fn outside_is_left<T>(entries: Seq<(u32, T)>, first: u32, last: u32, i: int)
    requires
        0 <= i < entries.len(),
        outside(entries[i].0, first, last),
    ensures
        outside_of(entries, first, last).contains(entries[i]),
    decreases entries.len(),
{
    let front = entries.drop_last();
    let left = outside_of(front, first, last);
    let all = outside_of(entries, first, last);
    if i < front.len() {
        outside_is_left(front, first, last, i);
        let k = choose|k: int| 0 <= k < left.len() && left[k] == entries[i];
        assert(all[k] == entries[i]);
    } else {
        assert(all[all.len() - 1] == entries[i]);
    }
}

/// An entry is queued or received: it was queued for a tick before or after those that were received,
/// or it is one of the received inputs with its tick.
pub open spec fn is_pending<T>(
    entry: (u32, T),
    queue: Seq<(u32, T)>,
    list: Seq<T>,
    first: u32,
    last: u32,
) -> bool {
    ||| queue.contains(entry) && (tick::before(entry.0, first) || tick::after(entry.0, last))
    ||| exists|i: int|
        0 <= i < list.len() && entry == (tick::advanced(first, i as u32), #[trigger] list[i])
}

/// Receiving inputs queues what was queued for other ticks and what was received, and nothing else.
/// Only where there are more than thirty of these, some are lost: then thirty are kept, and what is
/// lost is for no later tick than what is kept.
pub proof fn nothing_else_is_lost<T>(
    queue: Seq<(u32, T)>,
    list: Seq<T>,
    first: u32,
    last: u32,
    entry: (u32, T),
)
    ensures
        ({
            let after = queued_after(queue, list, first, last);
            &&& after.contains(entry) ==> is_pending(entry, queue, list, first, last)
            &&& is_pending(entry, queue, list, first, last) && !after.contains(entry) ==> {
                &&& after.len() == 30
                &&& forall|i: int| 0 <= i < after.len() ==> entry.0 <= (#[trigger] after[i]).0
            }
            &&& queue.len() + list.len() <= 30 && is_pending(entry, queue, list, first, last)
                ==> after.contains(entry)
        }),
{
    broadcast use vstd::seq_lib::group_to_multiset_ensures;

    let others = outside_of(queue, first, last);
    let sent = dated(list, first);
    let all = others + sent;
    let sorted = in_order(all);
    let after = queued_after(queue, list, first, last);
    in_order_is_ordered(all);
    outside_of_is_outside(queue, first, last);
    outside_of_is_part(queue, first, last);
    fewer_are_outside(queue, first, last);
    let skipped = sorted.len() - after.len();
    assert forall|i: int| 0 <= i < after.len() implies after[i] == sorted[i + skipped] by {}
    if after.contains(entry) {
        let k = choose|k: int| 0 <= k < after.len() && after[k] == entry;
        assert(sorted[k + skipped] == entry);
        assert(sorted.contains(entry));
        assert(all.to_multiset().count(entry) > 0);
        assert(all.contains(entry));
        let m = choose|m: int| 0 <= m < all.len() && all[m] == entry;
        if m < others.len() {
            assert(others[m] == entry);
            assert(queue.contains(others[m]));
        } else {
            let j = m - others.len();
            assert(sent[j] == entry);
            assert(entry == (tick::advanced(first, j as u32), list[j]));
        }
    }
    if is_pending(entry, queue, list, first, last) {
        assert(all.contains(entry)) by {
            if queue.contains(entry) && (tick::before(entry.0, first) || tick::after(
                entry.0,
                last,
            )) {
                let i = choose|i: int| 0 <= i < queue.len() && queue[i] == entry;
                outside_is_left(queue, first, last, i);
                let k = choose|k: int| 0 <= k < others.len() && others[k] == entry;
                assert(all[k] == entry);
            } else {
                let i = choose|i: int|
                    0 <= i < list.len() && entry == (
                        tick::advanced(first, i as u32),
                        #[trigger] list[i],
                    );
                assert(all[others.len() + i] == entry);
            }
        }
        assert(sorted.to_multiset().count(entry) > 0);
        assert(sorted.contains(entry));
        let p = choose|p: int| 0 <= p < sorted.len() && sorted[p] == entry;
        if p >= skipped {
            assert(after[p - skipped] == entry);
        } else {
            assert forall|i: int| 0 <= i < after.len() implies entry.0 <= (
            #[trigger] after[i]).0 by {
                assert(sorted[p].0 <= sorted[i + skipped].0);
            }
        }
    }
}

/// No more entries are left outside of some ticks than there are.
pub proof fn fewer_are_outside<T>(entries: Seq<(u32, T)>, first: u32, last: u32)
    ensures
        outside_of(entries, first, last).len() <= entries.len(),
    decreases entries.len(),
{
    if entries.len() > 0 {
        fewer_are_outside(entries.drop_last(), first, last);
    }
}

/// Taking what is due takes every entry at the front up to a tick, and stops at the first one for a
/// later tick. The last one that was taken is used: as it is for its own tick, repeated for a later
/// one. Without any that is due, none is used.
pub proof fn due_inputs_are_taken<T: InputTrait>(queue: Seq<(u32, T)>, t: u32)
    ensures
        ({
            let n = due(queue, t);
            &&& 0 <= n <= queue.len()
            &&& forall|i: int| 0 <= i < n ==> !tick::after((#[trigger] queue[i]).0, t)
            &&& n < queue.len() ==> tick::after(queue[n].0, t)
            &&& n == 0 ==> queued_for(queue, t) is None
            &&& n > 0 && queue[n - 1].0 == t ==> queued_for(queue, t) == Some(queue[n - 1].1)
            &&& n > 0 && queue[n - 1].0 < t ==> queued_for(queue, t) == traits::repeat_of(
                queue[n - 1].1,
                (t - queue[n - 1].0) as u32,
            )
        }),
    decreases queue.len(),
{
    if queue.len() > 0 && !tick::after(queue.first().0, t) {
        let rest = queue.drop_first();
        due_inputs_are_taken(rest, t);
        let n = due(queue, t);
        assert forall|i: int| 0 <= i < n implies !tick::after((#[trigger] queue[i]).0, t) by {
            if i > 0 {
                assert(rest[i - 1] == queue[i]);
            }
        }
        if n < queue.len() {
            assert(rest[n - 1] == queue[n]);
        }
    }
}

/// The input that was used last is remembered as the last one, with the two that were used before it.
pub proof fn used_is_remembered<T>(past: Seq<(u32, T)>, entry: (u32, T), k: int)
    requires
        past.len() <= 3,
        1 <= k <= 2,
    ensures
        ({
            let after = used(past, entry);
            &&& after.last() == entry
            &&& after.len() == if past.len() < 3 {
                past.len() + 1
            } else {
                3
            }
            &&& k <= past.len() ==> after[after.len() - 1 - k] == past[past.len() - k]
        }),
{
}

/// What was heard of last is the later of two ticks.
pub proof fn heard_of_the_later(prev: Option<RepliconTick>, last: RepliconTick)
    requires
        last.0 <= u32::MAX / 2,
        prev matches Some(p) ==> p.0 <= u32::MAX / 2,
    ensures
        heard_until(prev, last).0 >= last.0,
        prev matches Some(p) ==> heard_until(prev, last).0 >= p.0,
        heard_until(prev, last) == last || Some(heard_until(prev, last)) == prev,
{
}

} // verus!
