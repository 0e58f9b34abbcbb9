//! Bounded queues of ticks.
use arraydeque::{ArrayDeque, Wrapping};

use vstd::prelude::*;

verus! {

/// The last three ticks for which inputs were used.
#[verifier::external_body]
#[derive(Debug)]
pub struct PastTicks {
    ticks: ArrayDeque<u32, 3, Wrapping>,
}

/// The next thirty ticks for which there are inputs.
#[verifier::external_body]
#[derive(Debug)]
pub struct QueuedTicks {
    ticks: ArrayDeque<u32, 30>,
}

/// The ticks for which inputs were used, oldest first.
pub uninterp spec fn past_ticks(p: PastTicks) -> Seq<u32>;

/// The ticks for which there are inputs, first to last.
pub uninterp spec fn queued_ticks(q: QueuedTicks) -> Seq<u32>;

/// `ArrayDeque::new` makes an empty deque.
#[verifier::external_body]
pub(crate) fn past_new() -> (r: PastTicks)
    ensures
        past_ticks(r) == Seq::<u32>::empty(),
{
    PastTicks { ticks: ArrayDeque::new() }
}

/// `ArrayDeque::get` returns the element at an index from the front, where there is one.
#[verifier::external_body]
pub(crate) fn past_get(p: &PastTicks, index: usize) -> (r: Option<u32>)
    ensures
        r == if index < past_ticks(*p).len() {
            Some(past_ticks(*p)[index as int])
        } else {
            None
        },
{
    p.ticks.get(index).copied()
}

/// `ArrayDeque::push_back` of a wrapping deque adds an element at the back; a full deque, here
/// one of three elements, first loses the one at its front.
#[verifier::external_body]
pub(crate) fn past_push_back(p: &mut PastTicks, tick: u32)
    ensures
        past_ticks(*final(p)) == if past_ticks(*old(p)).len() < 3 {
            past_ticks(*old(p)).push(tick)
        } else {
            past_ticks(*old(p)).drop_first().push(tick)
        },
{
    p.ticks.push_back(tick);
}

/// `ArrayDeque::new` makes an empty deque.
#[verifier::external_body]
pub(crate) fn queued_new() -> (r: QueuedTicks)
    ensures
        queued_ticks(r) == Seq::<u32>::empty(),
{
    QueuedTicks { ticks: ArrayDeque::new() }
}

/// `ArrayDeque::get` returns the element at an index from the front, where there is one.
#[verifier::external_body]
pub(crate) fn queued_get(q: &QueuedTicks, index: usize) -> (r: Option<u32>)
    ensures
        r == if index < queued_ticks(*q).len() {
            Some(queued_ticks(*q)[index as int])
        } else {
            None
        },
{
    q.ticks.get(index).copied()
}

/// `ArrayDeque::push_back` of a saturating deque adds an element at the back; a full deque, here
/// one of thirty elements, stays as it is.
#[verifier::external_body]
pub(crate) fn queued_push_back(q: &mut QueuedTicks, tick: u32)
    ensures
        queued_ticks(*final(q)) == if queued_ticks(*old(q)).len() < 30 {
            queued_ticks(*old(q)).push(tick)
        } else {
            queued_ticks(*old(q))
        },
{
    let _ = q.ticks.push_back(tick);
}

/// `ArrayDeque::pop_front` removes the element at the front, where there is one, and returns it.
#[verifier::external_body]
pub(crate) fn queued_pop_front(q: &mut QueuedTicks) -> (r: Option<u32>)
    ensures
        r == if queued_ticks(*old(q)).len() > 0 {
            Some(queued_ticks(*old(q))[0])
        } else {
            None
        },
        queued_ticks(*final(q)) == if queued_ticks(*old(q)).len() > 0 {
            queued_ticks(*old(q)).drop_first()
        } else {
            queued_ticks(*old(q))
        },
{
    q.ticks.pop_front()
}

} // verus!
