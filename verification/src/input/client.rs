//! Inputs on a client.
use super::history;
use super::history::InputHistory;
use super::message::HistoryFor;
use super::traits;
use super::traits::InputTrait;
use crate::rollback::RollbackTarget;
use crate::tick;
use crate::tick::RepliconTick;

use vstd::prelude::*;
use vstd::std_specs::cmp::PartialEqSpec;

verus! {

/// What is held after the input of the present tick was stored. A history of later ticks is
/// forgotten; a tick that is stored is not stored again.
pub open spec fn stored<T: InputTrait>(
    before: (Seq<T>, u32),
    after: (Seq<T>, u32),
    t: u32,
    input: T,
) -> bool {
    if t == before.1 {
        after == before
    } else if tick::after(before.1, t) {
        history::written((Seq::empty(), 0), after, t, input)
    } else {
        history::written(before, after, t, input)
    }
}

/// Store the input of the present tick.
pub fn store_inputs<T: InputTrait>(hist: &mut InputHistory<T>, input: &T, t: RepliconTick)
    requires
        traits::plain::<T>(),
    ensures
        stored(old(hist).state(), final(hist).state(), t.0, *input),
{
    let updated_at: u32 = hist.updated_at().get();
    if updated_at == t.get() {
        return;
    }
    if tick::is_after(updated_at, t.get()) {
        hist.reset();
    }
    hist.write(t, traits::copy(input));
}

/// The input to use for a tick. A player's own input is only read from the history while ticks
/// are simulated again, and is kept where the history has none. The inputs of others are read
/// from it, repeated, or blank.
pub open spec fn loaded<T: InputTrait>(
    state: (Seq<T>, u32),
    input: T,
    authority: bool,
    in_resim: bool,
    t: u32,
) -> T {
    if authority && !in_resim {
        input
    } else {
        match history::input_at(state.0, state.1, t, !authority) {
            Some(i) => i,
            None => if authority {
                input
            } else {
                traits::blank_input::<T>()
            },
        }
    }
}

/// Load the input for a tick.
pub fn load_inputs<T: InputTrait>(
    hist: &InputHistory<T>,
    input: &mut T,
    authority: bool,
    t: RepliconTick,
    in_resim: bool,
)
    requires
        traits::plain::<T>(),
    ensures
        *final(input) == loaded(hist.state(), *old(input), authority, in_resim, t.0),
{
    if authority && !in_resim {
        return;
    }
    match hist.get(t, !authority) {
        Some(i) => {
            *input = i;
        },
        None => {
            if !authority {
                *input = traits::blank();
            }
        },
    }
}

/// The inputs to send to the server, if there are any.
pub fn send_input_messages<T: InputTrait>(hist: &InputHistory<T>) -> (r: Option<InputHistory<T>>)
    requires
        traits::plain::<T>(),
    ensures
        match r {
            Some(message) => hist.list@.len() > 0 && message.state() == hist.state(),
            None => hist.list@.len() == 0,
        },
{
    if hist.is_empty() {
        return None;
    }
    let message = hist.clone();
    proof {
        let list = message.list@;
        assert forall|i: int| 0 <= i < list.len() implies list[i] == hist.list@[i] by {
            assert(cloned(hist.list@[i], list[i]));
        }
        assert(list =~= hist.list@);
    }
    Some(message)
}

/// The inputs for the first `n` ticks from `rt` ticks before `t` on: an input and its
/// repetitions.
pub open spec fn repeated_section<T: InputTrait>(
    t: u32,
    rt: u8,
    input: T,
    n: int,
) -> Seq<(RepliconTick, T)>
    decreases n,
{
    if n <= 0 {
        Seq::empty()
    } else {
        let front = repeated_section(t, rt, input, n - 1);
        match traits::repeat_of(input, (n - 1) as u32) {
            Some(i) => front.push((RepliconTick(tick::receded(t, (rt - (n - 1)) as u32)), i)),
            None => front,
        }
    }
}

/// How far the `i`th of some past inputs is repeated: up to the next one, or to the tick itself.
pub open spec fn until<T>(past: Seq<(u8, T)>, i: int) -> int {
    if i + 1 < past.len() {
        past[i + 1].0 as int
    } else {
        0
    }
}

/// The inputs that the first `n` past inputs stand for.
pub open spec fn past_section<T: InputTrait>(
    t: u32,
    past: Seq<(u8, T)>,
    n: int,
) -> Seq<(RepliconTick, T)>
    decreases n,
{
    if n <= 0 {
        Seq::empty()
    } else {
        let (rt, input) = past[n - 1];
        past_section(t, past, n - 1) + repeated_section(
            t,
            rt,
            input,
            rt - until(past, n - 1) + 1,
        )
    }
}

/// The inputs that a message stands for.
pub open spec fn told<T: InputTrait>(
    t: u32,
    past: Seq<(u8, T)>,
    future: Seq<(u8, T)>,
) -> Seq<(RepliconTick, T)> {
    past_section(t, past, past.len() as int) + Seq::new(
        future.len(),
        |i: int| (RepliconTick(tick::advanced(t, future[i].0 as u32)), future[i].1),
    )
}

/// Two inputs are equal, or there is neither.
pub open spec fn equal_inputs<T: InputTrait>(a: Option<T>, b: Option<T>) -> bool {
    match (a, b) {
        (Some(a), Some(b)) => PartialEqSpec::eq_spec(&a, &b),
        (None, None) => true,
        _ => false,
    }
}

/// The first tick from `t` on and before `cur` for which the input changed.
pub open spec fn first_change<T: InputTrait>(
    before: (Seq<T>, u32),
    after: (Seq<T>, u32),
    t: int,
    cur: int,
) -> Option<RepliconTick>
    decreases cur - t,
{
    if t >= cur {
        None
    } else if !equal_inputs(
        history::input_at(after.0, after.1, t as u32, true),
        history::input_at(before.0, before.1, t as u32, true),
    ) {
        Some(RepliconTick(t as u32))
    } else {
        first_change(before, after, t + 1, cur)
    }
}

/// The largest of the first `n` offsets.
pub open spec fn largest_offset<T>(past: Seq<(u8, T)>, n: int) -> int
    decreases n,
{
    if n <= 0 {
        0
    } else {
        let front = largest_offset(past, n - 1);
        if past[n - 1].0 > front {
            past[n - 1].0 as int
        } else {
            front
        }
    }
}

/// The first tick that past inputs can change.
pub open spec fn first_told<T>(t: u32, past: Seq<(u8, T)>) -> int {
    let offset = largest_offset(past, past.len() as int);
    if t >= offset {
        t - offset
    } else {
        0
    }
}

/// The target after a message for a tick was received: the first tick whose input changed, or an
/// earlier target.
pub open spec fn rolled_back_to<T: InputTrait>(
    before: (Seq<T>, u32),
    after: (Seq<T>, u32),
    t: u32,
    past: Seq<(u8, T)>,
    cur: u32,
    target: Option<RepliconTick>,
) -> Option<RepliconTick> {
    match first_change(before, after, first_told(t, past), cur as int) {
        Some(changed) => Some(tick::earliest(target, changed)),
        None => target,
    }
}

/// Receive what the server tells of the inputs of an entity that the player does not control. The
/// first present or earlier tick whose input changes is rolled back to.
pub fn receive_inputs<T: InputTrait>(
    message: &HistoryFor<T>,
    history: &mut InputHistory<T>,
    authority: bool,
    cur_tick: RepliconTick,
    rollback_target: &mut RollbackTarget,
)
    requires
        traits::comparable::<T>(),
        message.wf(),
    ensures
        authority ==> *final(history) == *old(history) && *final(rollback_target) == *old(
            rollback_target,
        ),
        !authority ==> {
            &&& history::section_replaced(
                old(history).state(),
                final(history).state(),
                told(message.tick.0, message.past@, message.future@),
            )
            &&& final(rollback_target).0 == rolled_back_to(
                old(history).state(),
                final(history).state(),
                message.tick.0,
                message.past@,
                cur_tick.0,
                old(rollback_target).0,
            )
        },
{
    if authority {
        return;
    }
    let first: u32 = first_told_tick(message);
    let cur: u32 = cur_tick.get();
    let before = inputs_between(history, first, cur);
    let ghost old_state = history.state();
    let section = told_inputs(message);
    history.replace_section(section);
    if let Some(target) = changed_from(history, &before, first, cur, Ghost(old_state)) {
        rollback_target.0 = Some(tick::earlier(rollback_target.0, target));
    }
}

/// The first tick that the past inputs of a message can change.
fn first_told_tick<T: InputTrait>(message: &HistoryFor<T>) -> (r: u32)
    requires
        message.wf(),
    ensures
        r == first_told(message.tick.0, message.past@),
{
    let mut largest: u8 = 0;
    let mut i: usize = 0;
    while i < message.past.len()
        invariant
            message.wf(),
            i <= message.past@.len(),
            largest == largest_offset(message.past@, i as int),
        decreases message.past@.len() - i,
    {
        let (rt, _) = message.past.get(i);
        if rt > largest {
            largest = rt;
        }
        i = i + 1;
    }
    message.tick.get().saturating_sub(largest as u32)
}

/// The inputs for the ticks from `first` on and before `cur`.
fn inputs_between<T: InputTrait>(history: &InputHistory<T>, first: u32, cur: u32) -> (r: Vec<
    Option<T>,
>)
    requires
        traits::plain::<T>(),
    ensures
        r@ == Seq::new(
            if first < cur {
                (cur - first) as nat
            } else {
                0
            },
            |i: int|
                history::input_at(
                    history.list@,
                    history.updated_at.0,
                    (first + i) as u32,
                    true,
                ),
        ),
{
    let mut r: Vec<Option<T>> = Vec::new();
    let mut t: u32 = first;
    while t < cur
        invariant
            traits::plain::<T>(),
            first <= t,
            first < cur ==> t <= cur,
            first >= cur ==> t == first,
            r@ == Seq::new(
                (t - first) as nat,
                |i: int|
                    history::input_at(
                        history.list@,
                        history.updated_at.0,
                        (first + i) as u32,
                        true,
                    ),
            ),
        decreases cur - t,
    {
        r.push(history.get(RepliconTick::new(t), true));
        t = t + 1;
    }
    r
}

/// The inputs that a message stands for.
fn told_inputs<T: InputTrait>(message: &HistoryFor<T>) -> (r: Vec<(RepliconTick, T)>)
    requires
        traits::plain::<T>(),
        message.wf(),
    ensures
        r@ == told(message.tick.0, message.past@, message.future@),
{
    let t: u32 = message.tick.get();
    let mut section: Vec<(RepliconTick, T)> = Vec::new();
    let ghost past = message.past@;
    let mut i: usize = 0;
    while i < message.past.len()
        invariant
            traits::plain::<T>(),
            message.wf(),
            past == message.past@,
            i <= past.len(),
            t == message.tick.0,
            section@ == past_section(t, past, i as int),
        decreases past.len() - i,
    {
        let (rt, input) = message.past.get(i);
        let until: u8 = if i + 1 < message.past.len() {
            let (next, _) = message.past.get(i + 1);
            next
        } else {
            0
        };
        if until <= rt {
            let n: u8 = rt - until;
            push_repeated(&mut section, t, rt, input, n);
        }
        proof {
            if until > rt {
                assert(repeated_section(t, rt, *input, rt - until + 1) =~= Seq::empty());
                assert(section@ =~= past_section(t, past, i as int) + repeated_section(
                    t,
                    rt,
                    *input,
                    rt - until + 1,
                ));
            }
        }
        i = i + 1;
    }
    let ghost front = section@;
    let ghost future = message.future@;
    let ghost tail = Seq::new(
        future.len(),
        |i: int| (RepliconTick(tick::advanced(t, future[i].0 as u32)), future[i].1),
    );
    let mut j: usize = 0;
    proof {
        assert(front + tail.take(0) =~= front);
    }
    while j < message.future.len()
        invariant
            traits::plain::<T>(),
            message.wf(),
            future == message.future@,
            j <= future.len(),
            t == message.tick.0,
            tail == Seq::new(
                future.len(),
                |i: int| (RepliconTick(tick::advanced(t, future[i].0 as u32)), future[i].1),
            ),
            section@ == front + tail.take(j as int),
        decreases future.len() - j,
    {
        let (rt, input) = message.future.get(j);
        let entry: (RepliconTick, T) = (
            RepliconTick::new(t.wrapping_add(rt as u32)),
            traits::copy(input),
        );
        section.push(entry);
        proof {
            assert(tail.take(j + 1) =~= tail.take(j as int).push(entry));
            assert(section@ =~= front + tail.take(j + 1));
        }
        j = j + 1;
    }
    proof {
        assert(tail.take(future.len() as int) =~= tail);
    }
    section
}

/// Add an input and its `n` repetitions.
fn push_repeated<T: InputTrait>(
    section: &mut Vec<(RepliconTick, T)>,
    t: u32,
    rt: u8,
    input: &T,
    n: u8,
)
    requires
        traits::plain::<T>(),
        n <= rt,
    ensures
        final(section)@ == old(section)@ + repeated_section(t, rt, *input, n + 1),
{
    let mut since: u32 = 0;
    let ghost before = section@;
    proof {
        assert(before + repeated_section(t, rt, *input, 0) =~= before);
    }
    while since <= n as u32
        invariant
            traits::plain::<T>(),
            n <= rt,
            since <= n + 1,
            section@ == before + repeated_section(t, rt, *input, since as int),
        decreases n + 1 - since,
    {
        if let Some(i) = traits::repeat(input, since) {
            let at: u32 = rt as u32 - since;
            section.push((RepliconTick::new(t.wrapping_sub(at)), i));
        }
        since = since + 1;
        proof {
            assert(section@ =~= before + repeated_section(t, rt, *input, since as int));
        }
    }
}

/// The first tick from `first` on and before `cur` for which the input is not what it was.
fn changed_from<T: InputTrait>(
    history: &InputHistory<T>,
    before: &Vec<Option<T>>,
    first: u32,
    cur: u32,
    old_state: Ghost<(Seq<T>, u32)>,
) -> (r: Option<RepliconTick>)
    requires
        traits::comparable::<T>(),
        before@ == Seq::new(
            if first < cur {
                (cur - first) as nat
            } else {
                0
            },
            |i: int|
                history::input_at(old_state@.0, old_state@.1, (first + i) as u32, true),
        ),
    ensures
        r == first_change(old_state@, history.state(), first as int, cur as int),
{
    let mut t: u32 = first;
    while t < cur
        invariant
            traits::comparable::<T>(),
            first <= t,
            before@ == Seq::new(
                if first < cur {
                    (cur - first) as nat
                } else {
                    0
                },
                |i: int|
                    history::input_at(old_state@.0, old_state@.1, (first + i) as u32, true),
            ),
            first_change(old_state@, history.state(), t as int, cur as int) == first_change(
                old_state@,
                history.state(),
                first as int,
                cur as int,
            ),
        decreases cur - t,
    {
        let now = history.get(RepliconTick::new(t), true);
        if !same_input(&now, &before[(t - first) as usize]) {
            return Some(RepliconTick::new(t));
        }
        t = t + 1;
    }
    None
}

fn same_input<T: InputTrait>(a: &Option<T>, b: &Option<T>) -> (r: bool)
    requires
        traits::comparable::<T>(),
    ensures
        r == equal_inputs(*a, *b),
{
    match (a, b) {
        (Some(a), Some(b)) => traits::same(a, b),
        (None, None) => true,
        _ => false,
    }
}

/// There is an input where there was none, none where there was one, or one that is not equal.
pub open spec fn is_changed<T: InputTrait>(
    before: (Seq<T>, u32),
    after: (Seq<T>, u32),
    t: u32,
) -> bool {
    let was = history::input_at(before.0, before.1, t, true);
    let now = history::input_at(after.0, after.1, t, true);
    ||| was is Some && now is None
    ||| was is None && now is Some
    ||| was is Some && now is Some && !PartialEqSpec::eq_spec(&now->0, &was->0)
}

proof fn changes_are_found<T: InputTrait>(
    before: (Seq<T>, u32),
    after: (Seq<T>, u32),
    t: int,
    cur: int,
    x: u32,
)
    requires
        0 <= t <= x < cur,
        is_changed(before, after, x),
    ensures
        first_change(before, after, t, cur) matches Some(m) && m.0 <= x,
    decreases cur - t,
{
    if t < x && first_change(before, after, t, cur) != Some(RepliconTick(t as u32)) {
        changes_are_found(before, after, t + 1, cur, x);
    }
}

proof fn found_is_changed<T: InputTrait>(
    before: (Seq<T>, u32),
    after: (Seq<T>, u32),
    t: int,
    cur: int,
)
    requires
        0 <= t,
        cur <= u32::MAX,
        first_change(before, after, t, cur) is Some,
    ensures
        ({
            let m = (first_change(before, after, t, cur)->0).0;
            &&& t <= m < cur
            &&& is_changed(before, after, m)
            &&& forall|x: u32| t <= x < m ==> !#[trigger] is_changed(before, after, x)
        }),
    decreases cur - t,
{
    if !is_changed(before, after, t as u32) {
        found_is_changed(before, after, t + 1, cur);
        let m = (first_change(before, after, t, cur)->0).0;
        assert forall|x: u32| t <= x < m implies !#[trigger] is_changed(before, after, x) by {
            if x > t {
                assert(t + 1 <= x);
            }
        }
    }
}

proof fn repeated_lies_after<T: InputTrait>(t: u32, rt: u8, input: T, n: int, e: int)
    requires
        rt <= t,
        n <= rt + 1,
        0 <= e < repeated_section(t, rt, input, n).len(),
    ensures
        t - rt <= repeated_section(t, rt, input, n)[e].0.0 <= t,
        exists|k: int|
            0 <= k < n && repeated_section(t, rt, input, n)[e].0.0 == t - rt + k
                && #[trigger] traits::repeat_of(input, k as u32) == Some(
                repeated_section(t, rt, input, n)[e].1,
            ),
    decreases n,
{
    let front = repeated_section(t, rt, input, n - 1);
    if n > 0 {
        if e < front.len() {
            repeated_lies_after(t, rt, input, n - 1, e);
            assert(repeated_section(t, rt, input, n)[e] == front[e]);
        } else {
            let k = n - 1;
            assert(traits::repeat_of(input, k as u32) == Some(
                repeated_section(t, rt, input, n)[e].1,
            ));
        }
    }
}

proof fn repeated_has<T: InputTrait>(t: u32, rt: u8, input: T, n: int, k: int)
    requires
        rt <= t,
        0 <= k < n <= rt + 1,
        traits::repeat_of(input, k as u32) is Some,
    ensures
        repeated_section(t, rt, input, n).contains(
            (RepliconTick((t - rt + k) as u32), traits::repeat_of(input, k as u32)->0),
        ),
    decreases n,
{
    let front = repeated_section(t, rt, input, n - 1);
    let all = repeated_section(t, rt, input, n);
    let entry = (RepliconTick((t - rt + k) as u32), traits::repeat_of(input, k as u32)->0);
    if k < n - 1 {
        repeated_has(t, rt, input, n - 1, k);
        let i = choose|i: int| 0 <= i < front.len() && front[i] == entry;
        assert(all[i] == entry);
    } else {
        assert(all[all.len() - 1] == entry);
    }
}

proof fn offsets_reach<T>(past: Seq<(u8, T)>, n: int, i: int)
    requires
        0 <= i < n <= past.len(),
    ensures
        past[i].0 <= largest_offset(past, n),
        largest_offset(past, n) <= 255,
    decreases n,
{
    if n > 1 {
        if i < n - 1 {
            offsets_reach(past, n - 1, i);
        } else {
            offsets_reach(past, n - 1, 0);
        }
    } else {
        assert(largest_offset(past, 0) == 0);
    }
}

/// A past input is told for a tick: an input was used some ticks before the tick of the message, and
/// its repetition goes for a tick up to the next one that was used.
pub open spec fn is_told_past<T: InputTrait>(
    t: u32,
    past: Seq<(u8, T)>,
    entry: (RepliconTick, T),
) -> bool {
    exists|p: int, k: int|
        {
            &&& 0 <= p < past.len()
            &&& 0 <= k
            &&& entry.0.0 == t - (#[trigger] past[p]).0 + k
            &&& #[trigger] traits::repeat_of(past[p].1, k as u32) == Some(entry.1)
            &&& entry.0.0 <= t - if p + 1 < past.len() {
                past[p + 1].0 as int
            } else {
                0
            }
        }
}

proof fn past_is_told_back<T: InputTrait>(t: u32, past: Seq<(u8, T)>, n: int, e: int)
    requires
        0 <= n <= past.len(),
        forall|p: int| 0 <= p < past.len() ==> (#[trigger] past[p]).0 <= t,
        0 <= e < past_section(t, past, n).len(),
    ensures
        is_told_past(t, past, past_section(t, past, n)[e]),
    decreases n,
{
    let front = past_section(t, past, n - 1);
    if n > 0 {
        let (rt, input) = past[n - 1];
        let count = rt - until(past, n - 1) + 1;
        let part = repeated_section(t, rt, input, count);
        if e < front.len() {
            past_is_told_back(t, past, n - 1, e);
            assert(past_section(t, past, n)[e] == front[e]);
        } else {
            let entry = part[e - front.len()];
            assert(past_section(t, past, n)[e] == entry);
            assert(past[n - 1].0 <= t);
            repeated_lies_after(t, rt, input, count, e - front.len());
            let k = choose|k: int|
                0 <= k < count && entry.0.0 == t - rt + k && #[trigger] traits::repeat_of(
                    input,
                    k as u32,
                ) == Some(entry.1);
            assert(entry.0.0 == t - past[n - 1].0 + k);
        }
    }
}

proof fn past_has<T: InputTrait>(t: u32, past: Seq<(u8, T)>, n: int, p: int, k: int)
    requires
        0 <= p < n <= past.len(),
        past[p].0 <= t,
        0 <= k,
        traits::repeat_of(past[p].1, k as u32) is Some,
        k <= past[p].0 - if p + 1 < past.len() {
            past[p + 1].0 as int
        } else {
            0
        },
    ensures
        past_section(t, past, n).contains(
            (
                RepliconTick((t - past[p].0 + k) as u32),
                traits::repeat_of(past[p].1, k as u32)->0,
            ),
        ),
    decreases n,
{
    let front = past_section(t, past, n - 1);
    let all = past_section(t, past, n);
    let entry = (
        RepliconTick((t - past[p].0 + k) as u32),
        traits::repeat_of(past[p].1, k as u32)->0,
    );
    let (rt, input) = past[n - 1];
    let part = repeated_section(t, rt, input, rt - until(past, n - 1) + 1);
    if p < n - 1 {
        past_has(t, past, n - 1, p, k);
        let i = choose|i: int| 0 <= i < front.len() && front[i] == entry;
        assert(all[i] == entry);
    } else {
        repeated_has(t, rt, input, rt - until(past, n - 1) + 1, k);
        let i = choose|i: int| 0 <= i < part.len() && part[i] == entry;
        assert(all[front.len() + i] == entry);
    }
}

/// A message tells exactly the past inputs, each repeated up to the next one or to the tick of the
/// message, and the inputs that are to come, each for its own tick.
pub proof fn message_is_told<T: InputTrait>(
    t: u32,
    past: Seq<(u8, T)>,
    future: Seq<(u8, T)>,
    entry: (RepliconTick, T),
)
    requires
        forall|p: int| 0 <= p < past.len() ==> (#[trigger] past[p]).0 <= t,
        t + 255 <= u32::MAX,
    ensures
        told(t, past, future).contains(entry) <==> is_told_past(t, past, entry) || exists|i: int|
            0 <= i < future.len() && entry.0.0 == t + (#[trigger] future[i]).0 && entry.1
                == future[i].1,
{
    let all = told(t, past, future);
    let section = past_section(t, past, past.len() as int);
    if all.contains(entry) {
        let e = choose|e: int| 0 <= e < all.len() && all[e] == entry;
        if e < section.len() {
            past_is_told_back(t, past, past.len() as int, e);
            assert(section[e] == entry);
        } else {
            let i = e - section.len();
            assert(entry.0.0 == t + future[i].0 && entry.1 == future[i].1);
        }
    }
    if is_told_past(t, past, entry) {
        let (p, k) = choose|p: int, k: int|
            {
                &&& 0 <= p < past.len()
                &&& 0 <= k
                &&& entry.0.0 == t - (#[trigger] past[p]).0 + k
                &&& #[trigger] traits::repeat_of(past[p].1, k as u32) == Some(entry.1)
                &&& entry.0.0 <= t - if p + 1 < past.len() {
                    past[p + 1].0 as int
                } else {
                    0
                }
            };
        past_has(t, past, past.len() as int, p, k);
        let i = choose|i: int| 0 <= i < section.len() && section[i] == entry;
        assert(all[i] == entry);
    }
    if exists|i: int|
        0 <= i < future.len() && entry.0.0 == t + (#[trigger] future[i]).0 && entry.1
            == future[i].1 {
        let i = choose|i: int|
            0 <= i < future.len() && entry.0.0 == t + (#[trigger] future[i]).0 && entry.1
                == future[i].1;
        assert(all[section.len() + i] == entry);
    }
}

/// No change is missed: where a message tells an input for a tick before the present, and the input
/// that is read there is not what it was, the target is that tick or an earlier one.
pub proof fn no_change_is_missed<T: InputTrait>(
    before: (Seq<T>, u32),
    after: (Seq<T>, u32),
    t: u32,
    past: Seq<(u8, T)>,
    future: Seq<(u8, T)>,
    cur: u32,
    target: Option<RepliconTick>,
    entry: (RepliconTick, T),
)
    requires
        forall|p: int| 0 <= p < past.len() ==> (#[trigger] past[p]).0 <= t,
        t + 255 <= u32::MAX / 2,
        cur <= u32::MAX / 2,
        target matches Some(p) ==> p.0 <= u32::MAX / 2,
        told(t, past, future).contains(entry),
        entry.0.0 < cur,
        is_changed(before, after, entry.0.0),
    ensures
        rolled_back_to(before, after, t, past, cur, target) matches Some(m) && m.0 <= entry.0.0,
{
    message_is_told(t, past, future, entry);
    let x = entry.0.0;
    assert(first_told(t, past) <= x) by {
        if is_told_past(t, past, entry) {
            let (p, k) = choose|p: int, k: int|
                {
                    &&& 0 <= p < past.len()
                    &&& 0 <= k
                    &&& entry.0.0 == t - (#[trigger] past[p]).0 + k
                    &&& #[trigger] traits::repeat_of(past[p].1, k as u32) == Some(entry.1)
                    &&& entry.0.0 <= t - if p + 1 < past.len() {
                        past[p + 1].0 as int
                    } else {
                        0
                    }
                };
            offsets_reach(past, past.len() as int, p);
        } else if past.len() > 0 {
            offsets_reach(past, past.len() as int, 0);
            assert(past[0].0 <= t);
        }
    }
    changes_are_found(before, after, first_told(t, past), cur as int, x);
}

/// A target is only set to a tick before the present whose input changed, and only where none that was
/// set lies before it.
pub proof fn targets_have_changed<T: InputTrait>(
    before: (Seq<T>, u32),
    after: (Seq<T>, u32),
    t: u32,
    past: Seq<(u8, T)>,
    cur: u32,
    target: Option<RepliconTick>,
)
    ensures
        ({
            let set = rolled_back_to(before, after, t, past, cur, target);
            &&& set != target ==> {
                &&& set matches Some(m) && m.0 < cur && is_changed(before, after, m.0)
            }
            &&& target matches Some(p) ==> (set matches Some(m) && !tick::after(m.0, p.0))
        }),
{
    if first_change(before, after, first_told(t, past), cur as int) is Some {
        assert(0 <= first_told(t, past));
        found_is_changed(before, after, first_told(t, past), cur as int);
    }
}

/// The input that was stored for a later tick is read back there; a history of later ticks is given
/// up for it.
pub proof fn stored_is_read<T: InputTrait>(
    before: (Seq<T>, u32),
    after: (Seq<T>, u32),
    t: u32,
    input: T,
    repeat: bool,
)
    requires
        stored(before, after, t, input),
        t != before.1,
        0 < t < u32::MAX / 2,
        before.1 <= u32::MAX / 2,
        before.0.len() <= before.1 + 1,
    ensures
        history::input_at(after.0, after.1, t, repeat) == Some(input),
        after.1 == t,
        t < before.1 ==> after.0 == seq![input],
{
    if t < before.1 {
        history::written_len((Seq::<T>::empty(), 0), after, t, input);
        history::written_is_read((Seq::<T>::empty(), 0), after, t, input, repeat);
        history::inputs_follow_each_other(after.0, after.1, t, repeat);
        assert(after.0 =~= seq![input]);
    } else {
        history::written_len(before, after, t, input);
        history::written_is_read(before, after, t, input, repeat);
    }
}

/// Which input is loaded for a tick. A player's own input stays outside of resimulation, and is the
/// recorded one in it where there is one. Everyone else's is the recorded one, its repetition after
/// the last record, or blank.
pub proof fn own_inputs_are_kept<T: InputTrait>(
    state: (Seq<T>, u32),
    input: T,
    authority: bool,
    in_resim: bool,
    t: u32,
)
    requires
        0 < state.0.len() <= state.1 + 1,
        state.1 <= u32::MAX / 2,
        t <= u32::MAX / 2,
    ensures
        ({
            let r = loaded(state, input, authority, in_resim, t);
            let ago = state.1 - t;
            let recorded = 0 <= ago < state.0.len();
            &&& authority && !in_resim ==> r == input
            &&& authority && in_resim && recorded ==> r == state.0[state.0.len() - 1 - ago]
            &&& authority && in_resim && !recorded ==> r == input
            &&& !authority && recorded ==> r == state.0[state.0.len() - 1 - ago]
            &&& !authority && ago < 0 && traits::repeating::<T>() ==> r == traits::carried_on(
                state.0.last(),
                (t - state.1) as u32,
            )
            &&& !authority && ago < 0 && !traits::repeating::<T>() ==> r
                == traits::blank_input::<T>()
            &&& !authority && ago >= state.0.len() ==> r == traits::blank_input::<T>()
        }),
{
    history::inputs_follow_each_other(state.0, state.1, t, !authority);
}

/// Without any recorded inputs a player's own input stays, and everyone else's is blank.
pub proof fn nothing_recorded_is_blank<T: InputTrait>(
    at: u32,
    input: T,
    authority: bool,
    in_resim: bool,
    t: u32,
)
    ensures
        loaded((Seq::<T>::empty(), at), input, authority, in_resim, t) == if authority {
            input
        } else {
            traits::blank_input::<T>()
        },
{
}

} // verus!
