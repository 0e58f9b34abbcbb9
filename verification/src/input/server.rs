//! Inputs on the server.
use super::client;
use super::history;
use super::history::InputHistory;
use super::message::{FutureInputs, HistoryFor, PastInputs};
use super::queue;
use super::queue::InputQueue;
use super::traits;
use super::traits::InputTrait;
use crate::history::confirmed::ConfirmedInputHorizon;
use crate::rollback::RollbackTarget;
use crate::tick;
use crate::tick::RepliconTick;

use vstd::prelude::*;

verus! {

/// The last tick that is confirmed; `u32::MAX` when nothing holds ticks back.
#[derive(Clone, Copy, Debug, PartialEq, Eq, Structural)]
pub struct ConfirmedHorizon(pub u32);

impl Default for ConfirmedHorizon {
    fn default() -> (r: Self)
        ensures
            r.0 == u32::MAX,
    {
        ConfirmedHorizon(u32::MAX)
    }
}

pub const SEAL_GRACE_TICKS: u32 = 2;

/// The entity that a client's inputs are for.
#[derive(Clone, Copy, Debug, PartialEq, Eq, Structural)]
pub struct InputTarget(pub u64);

impl InputTarget {
    pub fn all(entity: u64) -> (r: Self)
        ensures
            r.0 == entity,
    {
        InputTarget(entity)
    }
}

/// The entity that the inputs of a client are for: its target, or the client's own entity. The
/// inputs of a client without an entity are for none.
pub fn input_entity(client: Option<u64>, target: Option<InputTarget>) -> (r: Option<u64>)
    ensures
        r == match client {
            Some(entity) => match target {
                Some(target) => Some(target.0),
                None => Some(entity),
            },
            None => None,
        },
{
    match client {
        Some(entity) => match target {
            Some(target) => Some(target.0),
            None => Some(entity),
        },
        None => None,
    }
}

/// The input horizon to publish for an entity, where it is not published already.
pub fn publish_confirmed_input_horizon<T>(
    queue: &InputQueue<T>,
    existing: Option<ConfirmedInputHorizon>,
) -> (r: Option<ConfirmedInputHorizon>)
    ensures
        r == match queue.horizon() {
            Some(horizon) if existing != Some(ConfirmedInputHorizon(horizon.0)) => Some(
                ConfirmedInputHorizon(horizon.0),
            ),
            _ => None,
        },
{
    let horizon: u32 = match queue.received_horizon() {
        Some(horizon) => horizon.get(),
        None => return None,
    };
    match existing {
        Some(published) => if published.0 == horizon {
            None
        } else {
            Some(ConfirmedInputHorizon(horizon))
        },
        None => Some(ConfirmedInputHorizon(horizon)),
    }
}

/// A tick is too far in the confirmed past to be rolled back to.
pub open spec fn is_sealed(target: u32, confirmed: ConfirmedHorizon) -> bool {
    &&& confirmed.0 != u32::MAX
    &&& target + SEAL_GRACE_TICKS <= confirmed.0 || (target == 0 && confirmed.0
        < SEAL_GRACE_TICKS)
}

pub fn sealed(target: RepliconTick, confirmed: ConfirmedHorizon) -> (r: bool)
    ensures
        r == is_sealed(target.0, confirmed),
{
    confirmed.0 != u32::MAX && target.get() <= confirmed.0.saturating_sub(SEAL_GRACE_TICKS)
}

/// Receive the inputs of a client. The earliest tick for which they tell something new is rolled
/// back to, unless it is sealed.
pub fn receive_inputs<T: InputTrait>(
    message: &InputHistory<T>,
    input_queue: &mut InputQueue<T>,
    cur_tick: RepliconTick,
    confirmed: ConfirmedHorizon,
    rollback_target: &mut RollbackTarget,
)
    requires
        traits::comparable::<T>(),
        old(input_queue).wf(),
        message.list@.len() <= u32::MAX,
    ensures
        final(input_queue).wf(),
        received(*old(input_queue), *final(input_queue), *message),
        final(rollback_target).0 == rolled_back_to(
            *old(input_queue),
            *message,
            cur_tick,
            confirmed,
            old(rollback_target).0,
        ),
{
    if let Some(target) = input_queue.add(cur_tick, message) {
        if !sealed(target, confirmed) {
            rollback_target.0 = Some(tick::earlier(rollback_target.0, target));
        }
    }
}

/// The earliest tick for which inputs tell something new.
pub open spec fn novel_tick<T: InputTrait>(
    input_queue: InputQueue<T>,
    message: InputHistory<T>,
    cur_tick: RepliconTick,
) -> Option<RepliconTick> {
    if message.list@.len() == 0 {
        None
    } else {
        queue::earliest_novel(
            input_queue.used_inputs(),
            input_queue.queued_inputs(),
            message.list@,
            history::first_of(message.updated_at.0, message.list@.len() as int),
            cur_tick.0,
            0,
        )
    }
}

/// The target after inputs were received: the earliest tick for which they tell something new, unless
/// it is sealed or there is an earlier target.
pub open spec fn rolled_back_to<T: InputTrait>(
    input_queue: InputQueue<T>,
    message: InputHistory<T>,
    cur_tick: RepliconTick,
    confirmed: ConfirmedHorizon,
    before: Option<RepliconTick>,
) -> Option<RepliconTick> {
    match novel_tick(input_queue, message, cur_tick) {
        Some(target) if !is_sealed(target.0, confirmed) => Some(tick::earliest(before, target)),
        _ => before,
    }
}

/// What is queued after inputs were received.
pub open spec fn received<T: InputTrait>(
    before: InputQueue<T>,
    after: InputQueue<T>,
    message: InputHistory<T>,
) -> bool {
    &&& after.used_inputs() == before.used_inputs()
    &&& if message.list@.len() == 0 {
        &&& after.queued_inputs() == before.queued_inputs()
        &&& after.horizon() == before.horizon()
    } else {
        &&& after.queued_inputs() == queue::queued_after(
            before.queued_inputs(),
            message.list@,
            history::first_of(message.updated_at.0, message.list@.len() as int),
            message.updated_at.0,
        )
        &&& after.horizon() == Some(queue::heard_until(before.horizon(), message.updated_at))
    }
}

/// Store the present input of a player on the server, and queue it. Nothing is stored while ticks
/// are simulated again, nor a tick that is stored.
pub fn store_authority_inputs<T: InputTrait>(
    hist: &mut InputHistory<T>,
    input_queue: &mut InputQueue<T>,
    input: &T,
    t: RepliconTick,
    in_resim: bool,
)
    requires
        traits::comparable::<T>(),
        old(input_queue).wf(),
        old(hist).list@.len() <= u32::MAX,
        tick::after(t.0, old(hist).updated_at.0) ==> old(hist).list@.len() + tick::elapsed(
            t.0,
            old(hist).updated_at.0,
        ) <= u32::MAX,
    ensures
        final(input_queue).wf(),
        in_resim || t.0 == old(hist).updated_at.0 ==> *final(hist) == *old(hist)
            && *final(input_queue) == *old(input_queue),
        !in_resim && t.0 != old(hist).updated_at.0 ==> {
            &&& client::stored(old(hist).state(), final(hist).state(), t.0, *input)
            &&& received(*old(input_queue), *final(input_queue), *final(hist))
        },
{
    if in_resim {
        return;
    }
    if hist.updated_at().get() == t.get() {
        return;
    }
    client::store_inputs(hist, input, t);
    proof {
        let before = old(hist).state();
        if tick::after(before.1, t.0) {
            history::written_len((Seq::empty(), 0), hist.state(), t.0, *input);
        } else {
            history::written_len(before, hist.state(), t.0, *input);
        }
    }
    input_queue.add(t, hist);
}

/// The used inputs as offsets before a tick.
pub open spec fn past_offsets<T>(used: Seq<(u32, T)>, cur: u32) -> Seq<(u8, T)> {
    Seq::new(used.len(), |i: int| (((cur - used[i].0) % 256) as u8, used[i].1))
}

/// The first of the queued inputs, those for earlier ticks left out, as offsets after a tick.
pub open spec fn future_offsets<T>(queued: Seq<(u32, T)>, cur: u32, n: int) -> Seq<(u8, T)>
    decreases n,
{
    if n <= 0 {
        Seq::empty()
    } else {
        let front = future_offsets(queued, cur, n - 1);
        let (t, input) = queued[n - 1];
        if t >= cur {
            front.push((((t - cur) % 256) as u8, input))
        } else {
            front
        }
    }
}

/// Some input was used for a tick that is still to come.
pub open spec fn from_future<T>(used: Seq<(u32, T)>, cur: u32) -> bool {
    exists|i: int| 0 <= i < used.len() && tick::after((#[trigger] used[i]).0, cur)
}

fn low_byte(n: u32) -> (r: u8)
    ensures
        r == n % 256,
{
    proof {
        assert(n as u8 == n % 256) by (bit_vector);
    }
    #[verifier::truncate]
    (n as u8)
}

/// What to tell the clients of an entity's inputs: the used ones, and the first seven queued ones.
/// Nothing is told where there are none, or where an input was used for a tick that is still to
/// come.
pub fn send_inputs<T: InputTrait>(
    entity: u64,
    input_queue: &InputQueue<T>,
    cur_tick: RepliconTick,
) -> (r: Option<HistoryFor<T>>)
    requires
        traits::plain::<T>(),
        input_queue.wf(),
        !from_future(input_queue.used_inputs(), cur_tick.0) ==> forall|i: int|
            0 <= i < input_queue.used_inputs().len() ==> (
            #[trigger] input_queue.used_inputs()[i]).0 <= cur_tick.0,
    ensures
        ({
            let used = input_queue.used_inputs();
            let queued = input_queue.queued_inputs();
            let past = past_offsets(used, cur_tick.0);
            let future = future_offsets(
                queued,
                cur_tick.0,
                if queued.len() < 7 {
                    queued.len() as int
                } else {
                    7
                },
            );
            match r {
                Some(message) => {
                    &&& !from_future(used, cur_tick.0)
                    &&& past.len() > 0 || future.len() > 0
                    &&& message.wf()
                    &&& message.entity == entity
                    &&& message.tick == cur_tick
                    &&& message.past@ == past
                    &&& message.future@ == future
                },
                None => from_future(used, cur_tick.0) || (past.len() == 0 && future.len() == 0),
            }
        }),
{
    if uses_future(input_queue, cur_tick) {
        return None;
    }
    let future = collect_future(input_queue, cur_tick);
    let past = collect_past(input_queue, cur_tick);
    if past.len() == 0 && future.len() == 0 {
        return None;
    }
    Some(HistoryFor { entity, tick: cur_tick, past, future })
}

fn uses_future<T: InputTrait>(input_queue: &InputQueue<T>, cur_tick: RepliconTick) -> (r: bool)
    requires
        input_queue.wf(),
    ensures
        r == from_future(input_queue.used_inputs(), cur_tick.0),
{
    let mut i: usize = 0;
    while i < input_queue.past_len()
        invariant
            input_queue.wf(),
            i <= input_queue.used_inputs().len(),
            forall|j: int|
                0 <= j < i ==> !tick::after(
                    (#[trigger] input_queue.used_inputs()[j]).0,
                    cur_tick.0,
                ),
        decreases input_queue.used_inputs().len() - i,
    {
        if let Some((t, _)) = input_queue.past(i) {
            if tick::is_after(t.get(), cur_tick.get()) {
                proof {
                    assert(input_queue.used_inputs()[i as int].0 == t.0);
                }
                return true;
            }
        }
        i = i + 1;
    }
    false
}

fn collect_past<T: InputTrait>(input_queue: &InputQueue<T>, cur_tick: RepliconTick) -> (r:
    PastInputs<T>)
    requires
        traits::plain::<T>(),
        input_queue.wf(),
        forall|i: int|
            0 <= i < input_queue.used_inputs().len() ==> (
            #[trigger] input_queue.used_inputs()[i]).0 <= cur_tick.0,
    ensures
        r.wf(),
        r@ == past_offsets(input_queue.used_inputs(), cur_tick.0),
{
    let ghost used = input_queue.used_inputs();
    let mut past: PastInputs<T> = PastInputs::new();
    let mut i: usize = 0;
    proof {
        input_queue.bounded();
    }
    while i < input_queue.past_len()
        invariant
            traits::plain::<T>(),
            input_queue.wf(),
            used == input_queue.used_inputs(),
            i <= used.len() <= 3,
            past.wf(),
            past@ == past_offsets(used, cur_tick.0).take(i as int),
            forall|j: int| 0 <= j < used.len() ==> (#[trigger] used[j]).0 <= cur_tick.0,
        decreases used.len() - i,
    {
        if let Some((t, input)) = input_queue.past(i) {
            proof {
                assert(used[i as int].0 <= cur_tick.0);
            }
            past.push(low_byte(cur_tick.get() - t.get()), traits::copy(input));
        }
        proof {
            assert(past@ =~= past_offsets(used, cur_tick.0).take(i + 1));
        }
        i = i + 1;
    }
    proof {
        assert(past@ =~= past_offsets(used, cur_tick.0));
    }
    past
}

fn collect_future<T: InputTrait>(input_queue: &InputQueue<T>, cur_tick: RepliconTick) -> (r:
    FutureInputs<T>)
    requires
        traits::plain::<T>(),
        input_queue.wf(),
    ensures
        r.wf(),
        r@ == future_offsets(
            input_queue.queued_inputs(),
            cur_tick.0,
            if input_queue.queued_inputs().len() < 7 {
                input_queue.queued_inputs().len() as int
            } else {
                7
            },
        ),
{
    let ghost queued = input_queue.queued_inputs();
    let mut future: FutureInputs<T> = FutureInputs::new();
    let mut i: usize = 0;
    while i < 7 && i < input_queue.queue_len()
        invariant
            traits::plain::<T>(),
            input_queue.wf(),
            queued == input_queue.queued_inputs(),
            i <= 7,
            i <= queued.len(),
            future.wf(),
            future@.len() <= i,
            future@ == future_offsets(queued, cur_tick.0, i as int),
        decreases 7 - i,
    {
        if let Some((t, input)) = input_queue.queue(i) {
            if t.get() >= cur_tick.get() {
                future.push(low_byte(t.get() - cur_tick.get()), traits::copy(input));
            }
        }
        i = i + 1;
    }
    future
}

/// The input to use for a tick on the server. A player's own input is only read while ticks are
/// simulated again, from the history where it has one; otherwise the queue moves on. The inputs
/// of others come from the queue, no later than what is confirmed.
pub fn load_inputs<T: InputTrait>(
    input: &mut T,
    input_queue: &mut InputQueue<T>,
    hist: Option<&InputHistory<T>>,
    authority: bool,
    t: RepliconTick,
    confirmed: ConfirmedHorizon,
    in_resim: bool,
)
    requires
        traits::plain::<T>(),
        old(input_queue).wf(),
    ensures
        final(input_queue).wf(),
        final(input_queue).horizon() == old(input_queue).horizon(),
        authority && in_resim ==> {
            &&& *final(input_queue) == *old(input_queue)
            &&& *final(input) == match hist {
                Some(h) => match history::input_at(h.list@, h.updated_at.0, t.0, false) {
                    Some(i) => i,
                    None => *old(input),
                },
                None => *old(input),
            }
        },
        authority && !in_resim ==> {
            &&& *final(input) == *old(input)
            &&& moved_on(*old(input_queue), *final(input_queue), t.0)
        },
        !authority ==> {
            let remote = if t.0 < confirmed.0 {
                t.0
            } else {
                confirmed.0
            };
            &&& moved_on(*old(input_queue), *final(input_queue), remote)
            &&& *final(input) == match next_input(*old(input_queue), remote) {
                Some(i) => i,
                None => traits::blank_input::<T>(),
            }
        },
{
    if authority {
        if in_resim {
            if let Some(h) = hist {
                if let Some(historical) = h.get(t, false) {
                    *input = historical;
                }
            }
        } else {
            input_queue.next(t);
        }
        return;
    }
    let remote_tick: RepliconTick = RepliconTick::new(
        if t.get() < confirmed.0 {
            t.get()
        } else {
            confirmed.0
        },
    );
    *input =
    match input_queue.next(remote_tick) {
        Some(i) => i,
        None => traits::blank(),
    };
}

/// The input that a queue gives for a tick.
pub open spec fn next_input<T: InputTrait>(input_queue: InputQueue<T>, t: u32) -> Option<T> {
    let past = input_queue.used_inputs();
    match queue::queued_for(input_queue.queued_inputs(), t) {
        Some(input) => Some(input),
        None => if past.len() == 0 {
            None
        } else {
            traits::repeat_of(past.last().1, tick::elapsed(t, past.last().0) as u32)
        },
    }
}

/// What a queue holds after it gave the input for a tick.
pub open spec fn moved_on<T: InputTrait>(
    before: InputQueue<T>,
    after: InputQueue<T>,
    t: u32,
) -> bool {
    &&& after.queued_inputs() == before.queued_inputs().skip(
        queue::due(before.queued_inputs(), t),
    )
    &&& after.used_inputs() == match queue::queued_for(before.queued_inputs(), t) {
        Some(input) => queue::used(before.used_inputs(), (t, input)),
        None => before.used_inputs(),
    }
}

/// The offsets of the used inputs that are sent lead back to their ticks, for ticks less than 256
/// before the present.
pub proof fn past_offsets_lead_back<T>(used: Seq<(u32, T)>, cur: u32, i: int)
    requires
        0 <= i < used.len(),
        used[i].0 <= cur,
        cur - used[i].0 < 256,
    ensures
        cur - past_offsets(used, cur)[i].0 == used[i].0,
        past_offsets(used, cur)[i].1 == used[i].1,
{
}

/// The queued inputs that are sent are for the present or later ticks, and their offsets lead to
/// those ticks, where these come less than 256 after the present.
pub proof fn future_offsets_lead_on<T>(queued: Seq<(u32, T)>, cur: u32, n: int, i: int)
    requires
        0 <= n <= queued.len(),
        0 <= i < future_offsets(queued, cur, n).len(),
        forall|j: int| 0 <= j < n ==> (#[trigger] queued[j]).0 < cur + 256,
    ensures
        exists|j: int|
            0 <= j < n && #[trigger] queued[j] == (
                (cur + future_offsets(queued, cur, n)[i].0) as u32,
                future_offsets(queued, cur, n)[i].1,
            ),
    decreases n,
{
    let front = future_offsets(queued, cur, n - 1);
    if i < front.len() {
        future_offsets_lead_on(queued, cur, n - 1, i);
        let j = choose|j: int|
            0 <= j < n - 1 && #[trigger] queued[j] == (
                (cur + front[i].0) as u32,
                front[i].1,
            );
        assert(queued[j] == ((cur + future_offsets(queued, cur, n)[i].0) as u32, front[i].1));
    } else {
        assert(queued[n - 1].0 < cur + 256);
        assert(queued[n - 1] == (
            (cur + future_offsets(queued, cur, n)[i].0) as u32,
            future_offsets(queued, cur, n)[i].1,
        ));
    }
}

/// A tick is sealed exactly where something holds ticks back and the tick lies two ticks or more
/// before what is confirmed; the first tick is sealed as soon as anything is confirmed.
pub proof fn sealed_lies_two_ticks_back(target: u32, confirmed: ConfirmedHorizon)
    ensures
        confirmed.0 == u32::MAX ==> !is_sealed(target, confirmed),
        confirmed.0 < u32::MAX && target > 0 ==> (is_sealed(target, confirmed) <==> target + 2
            <= confirmed.0),
        confirmed.0 < u32::MAX ==> is_sealed(0, confirmed),
{
}

/// A misprediction that is not sealed is rolled back to: after late inputs were received of which one
/// is at odds with what was used, the target is that tick or an earlier one, unless the earliest such
/// tick is sealed.
pub proof fn late_inputs_roll_back<T: InputTrait>(
    input_queue: InputQueue<T>,
    message: InputHistory<T>,
    cur_tick: RepliconTick,
    confirmed: ConfirmedHorizon,
    before: Option<RepliconTick>,
    i: int,
)
    requires
        0 <= i < message.list@.len(),
        message.list@.len() <= message.updated_at.0 + 1,
        message.updated_at.0 <= u32::MAX / 2,
        cur_tick.0 <= u32::MAX / 2,
        before matches Some(p) ==> p.0 <= u32::MAX / 2,
        ({
            let t = message.updated_at.0 - (message.list@.len() - 1) + i;
            &&& t < cur_tick.0
            &&& queue::at_odds(
                input_queue.used_inputs(),
                input_queue.queued_inputs(),
                t as u32,
                message.list@[i],
            )
        }),
    ensures
        ({
            let t = message.updated_at.0 - (message.list@.len() - 1) + i;
            let target = rolled_back_to(input_queue, message, cur_tick, confirmed, before);
            &&& novel_tick(input_queue, message, cur_tick) matches Some(r) && {
                &&& r.0 <= t
                &&& confirmed.0 == u32::MAX || r.0 + 2 > confirmed.0 && r.0 > 0 ==> {
                    &&& target matches Some(m) && m.0 <= r.0
                }
            }
        }),
{
    let first = history::first_of(message.updated_at.0, message.list@.len() as int);
    queue::mispredictions_are_reported(
        input_queue.used_inputs(),
        input_queue.queued_inputs(),
        message.list@,
        first,
        cur_tick.0,
        0,
        i,
    );
}

/// Every queued input for the present or a later tick is sent, of those that are looked at, in the
/// order in which they are queued.
pub proof fn queued_inputs_are_sent<T>(queued: Seq<(u32, T)>, cur: u32, n: int, j: int)
    requires
        0 <= j < n <= queued.len(),
        cur <= queued[j].0 < cur + 256,
    ensures
        exists|i: int|
            0 <= i < future_offsets(queued, cur, n).len() && #[trigger] future_offsets(
                queued,
                cur,
                n,
            )[i] == ((queued[j].0 - cur) as u8, queued[j].1),
        future_offsets(queued, cur, n).len() <= n,
    decreases n,
{
    let front = future_offsets(queued, cur, n - 1);
    let all = future_offsets(queued, cur, n);
    offsets_are_no_more(queued, cur, n);
    if j < n - 1 {
        queued_inputs_are_sent(queued, cur, n - 1, j);
        let i = choose|i: int|
            0 <= i < front.len() && #[trigger] front[i] == (
                (queued[j].0 - cur) as u8,
                queued[j].1,
            );
        assert(all[i] == front[i]);
    } else {
        assert(all[all.len() - 1] == ((queued[j].0 - cur) as u8, queued[j].1));
    }
}

proof fn offsets_are_no_more<T>(queued: Seq<(u32, T)>, cur: u32, n: int)
    requires
        0 <= n,
    ensures
        future_offsets(queued, cur, n).len() <= n,
    decreases n,
{
    if n > 0 {
        offsets_are_no_more(queued, cur, n - 1);
    }
}

/// A queue gives the input that is queued for a tick, or else repeats the one that was used last.
pub proof fn next_is_queued_or_repeated<T: InputTrait>(input_queue: InputQueue<T>, t: u32)
    ensures
        ({
            let queued = queue::queued_for(input_queue.queued_inputs(), t);
            let used = input_queue.used_inputs();
            &&& queued is Some ==> next_input(input_queue, t) == queued
            &&& queued is None && used.len() == 0 ==> next_input(input_queue, t) is None
            &&& queued is None && used.len() > 0 && used[used.len() - 1].0 <= t ==> next_input(
                input_queue,
                t,
            ) == traits::repeat_of(
                used[used.len() - 1].1,
                (t - used[used.len() - 1].0) as u32,
            )
        }),
{
}

/// The target is only ever moved to an earlier tick, and only to the earliest tick of which the inputs
/// tell something new: where that tick is not sealed, the target is the earlier of the two, and
/// otherwise it stays.
pub proof fn target_is_the_earlier<T: InputTrait>(
    input_queue: InputQueue<T>,
    message: InputHistory<T>,
    cur_tick: RepliconTick,
    confirmed: ConfirmedHorizon,
    before: Option<RepliconTick>,
)
    ensures
        ({
            let target = rolled_back_to(input_queue, message, cur_tick, confirmed, before);
            match novel_tick(input_queue, message, cur_tick) {
                None => target == before,
                Some(r) => if is_sealed(r.0, confirmed) {
                    target == before
                } else {
                    &&& target is Some
                    &&& target == Some(r) || target == before
                    &&& !tick::after((target->0).0, r.0)
                    &&& before matches Some(p) ==> !tick::after((target->0).0, p.0)
                },
            }
        }),
{
}

/// A message without inputs tells nothing new. Of one with inputs, the earliest tick before the present
/// whose input is at odds with what was used is told, and no other.
pub proof fn novel_is_at_odds<T: InputTrait>(
    input_queue: InputQueue<T>,
    message: InputHistory<T>,
    cur_tick: RepliconTick,
)
    requires
        message.list@.len() <= message.updated_at.0 + 1,
    ensures
        message.list@.len() == 0 ==> novel_tick(input_queue, message, cur_tick) is None,
        novel_tick(input_queue, message, cur_tick) matches Some(r) ==> {
            let first = message.updated_at.0 - (message.list@.len() - 1);
            &&& first <= r.0 <= message.updated_at.0
            &&& tick::before(r.0, cur_tick.0)
            &&& queue::at_odds(
                input_queue.used_inputs(),
                input_queue.queued_inputs(),
                r.0,
                message.list@[r.0 - first],
            )
        },
{
    if novel_tick(input_queue, message, cur_tick) is Some {
        let first = history::first_of(message.updated_at.0, message.list@.len() as int);
        queue::reported_is_mispredicted(
            input_queue.used_inputs(),
            input_queue.queued_inputs(),
            message.list@,
            first,
            cur_tick.0,
            0,
        );
    }
}

/// Inputs that were received are queued for their ticks, in order, and heard of; what was used stays,
/// and a message without inputs changes nothing.
pub proof fn received_is_queued<T: InputTrait>(
    before: InputQueue<T>,
    after: InputQueue<T>,
    message: InputHistory<T>,
    i: int,
)
    requires
        received(before, after, message),
        message.updated_at.0 <= u32::MAX / 2,
        before.horizon() matches Some(h) ==> h.0 <= u32::MAX / 2,
    ensures
        after.used_inputs() == before.used_inputs(),
        message.list@.len() == 0 ==> after.queued_inputs() == before.queued_inputs()
            && after.horizon() == before.horizon(),
        message.list@.len() > 0 ==> {
            &&& queue::ordered(after.queued_inputs())
            &&& after.horizon() matches Some(h) && h.0 >= message.updated_at.0 && (h
                == message.updated_at || before.horizon() == Some(h))
            &&& before.horizon() matches Some(p) ==> (after.horizon()->0).0 >= p.0
        },
        0 <= i < message.list@.len() <= message.updated_at.0 + 1
            && before.queued_inputs().len() + message.list@.len() <= 30 ==> queue::held(
            after.queued_inputs(),
            (message.updated_at.0 - (message.list@.len() - 1) + i) as u32,
        ) == Some(message.list@[i]),
{
    let list = message.list@;
    if list.len() > 0 {
        let first = history::first_of(message.updated_at.0, list.len() as int);
        queue::queue_is_ordered(before.queued_inputs(), list, first, message.updated_at.0);
        queue::heard_of_the_later(before.horizon(), message.updated_at);
        queue::fewer_are_outside(before.queued_inputs(), first, message.updated_at.0);
        if 0 <= i < list.len() <= message.updated_at.0 + 1 && before.queued_inputs().len()
            + list.len() <= 30 {
            queue::received_is_held(
                before.queued_inputs(),
                list,
                first,
                message.updated_at.0,
                i,
            );
        }
    }
}

/// Once the input for a tick was given, only inputs for later ticks are first in the queue, those
/// behind them stay in their order, and the given input is the last one that was used.
pub proof fn given_is_used<T: InputTrait>(
    before: InputQueue<T>,
    after: InputQueue<T>,
    t: u32,
    i: int,
)
    requires
        moved_on(before, after, t),
        before.used_inputs().len() <= 3,
    ensures
        ({
            let (queued, left) = (before.queued_inputs(), after.queued_inputs());
            let gone = queued.len() - left.len();
            &&& 0 <= gone
            &&& left.len() > 0 ==> tick::after(left[0].0, t)
            &&& 0 <= i < gone ==> !tick::after(queued[i].0, t)
            &&& 0 <= i < left.len() ==> left[i] == queued[gone + i]
        }),
        match queue::queued_for(before.queued_inputs(), t) {
            Some(input) => after.used_inputs().last() == (t, input),
            None => after.used_inputs() == before.used_inputs(),
        },
{
    queue::due_inputs_are_taken(before.queued_inputs(), t);
    if queue::queued_for(before.queued_inputs(), t) is Some {
        queue::used_is_remembered(
            before.used_inputs(),
            (t, queue::queued_for(before.queued_inputs(), t)->0),
            1,
        );
    }
}

/// Nothing is told while an input was used for a tick that is still to come, and only then.
pub proof fn used_up_to_the_present<T>(used: Seq<(u32, T)>, cur: u32)
    requires
        cur <= u32::MAX / 2,
        forall|i: int| 0 <= i < used.len() ==> (#[trigger] used[i]).0 <= u32::MAX / 2,
    ensures
        from_future(used, cur) <==> !(forall|i: int|
            0 <= i < used.len() ==> (#[trigger] used[i]).0 <= cur),
{
    if from_future(used, cur) {
        let i = choose|i: int| 0 <= i < used.len() && tick::after((#[trigger] used[i]).0, cur);
        assert(used[i].0 > cur);
    }
    if !(forall|i: int| 0 <= i < used.len() ==> (#[trigger] used[i]).0 <= cur) {
        let i = choose|i: int| 0 <= i < used.len() && !((#[trigger] used[i]).0 <= cur);
        assert(tick::after(used[i].0, cur));
    }
}

/// All used inputs are sent, in their order, with the lower byte of how far they lie back.
pub proof fn used_inputs_are_sent<T>(used: Seq<(u32, T)>, cur: u32, i: int)
    requires
        0 <= i < used.len(),
    ensures
        past_offsets(used, cur).len() == used.len(),
        past_offsets(used, cur)[i].1 == used[i].1,
        (cur - used[i].0 - past_offsets(used, cur)[i].0) % 256 == 0,
{
}

/// Of the queued inputs that are looked at, those for the present and later ticks are sent, in their
/// order, with the lower byte of how far they lie ahead.
pub proof fn queued_are_sent_in_order<T>(queued: Seq<(u32, T)>, cur: u32, n: int, i: int)
    requires
        0 <= n <= queued.len(),
    ensures
        ({
            let coming = queued.take(n).filter(|e: (u32, T)| e.0 >= cur);
            let sent = future_offsets(queued, cur, n);
            &&& sent.len() == coming.len()
            &&& 0 <= i < sent.len() ==> {
                &&& sent[i].1 == coming[i].1
                &&& (coming[i].0 - cur - sent[i].0) % 256 == 0
            }
        }),
    decreases n,
{
    reveal(Seq::filter);
    if n > 0 {
        assert(queued.take(n).drop_last() =~= queued.take(n - 1));
        queued_are_sent_in_order(queued, cur, n - 1, i);
        let front = queued.take(n - 1).filter(|e: (u32, T)| e.0 >= cur);
        let last = future_offsets(queued, cur, n - 1).len();
        assert(last == front.len());
    }
}

/// Inputs go to the target of a client where it has one, and otherwise to its own entity; a client without
/// an entity has no inputs for anyone.
pub proof fn inputs_go_to_the_target(
    entity: u64,
    target: InputTarget,
    own: Option<u64>,
    other: Option<u64>,
    none: Option<u64>,
    maybe: Option<InputTarget>,
)
    requires
        call_ensures(input_entity, (Some(entity), None), own),
        call_ensures(input_entity, (Some(entity), Some(target)), other),
        call_ensures(input_entity, (None, maybe), none),
    ensures
        own == Some(entity),
        other == Some(target.0),
        none is None,
{
}

/// The last tick for which an input was received is published exactly where it is not published yet.
pub proof fn horizon_is_published_once<T>(
    queue: &InputQueue<T>,
    existing: Option<ConfirmedInputHorizon>,
    r: Option<ConfirmedInputHorizon>,
)
    requires
        call_ensures(publish_confirmed_input_horizon::<T>, (queue, existing), r),
    ensures
        queue.horizon() is None ==> r is None,
        queue.horizon() matches Some(h) ==> {
            let known = existing is Some && (existing->0).0 == h.0;
            &&& known ==> r is None
            &&& !known ==> r is Some && (r->0).0 == h.0
        },
{
}

} // verus!
