//! Which ticks the server has confirmed.
use crate::bits;
use crate::tick;

use bevy_replicon::client::confirm_history::ConfirmHistory;
use bevy_replicon::client::server_mutate_ticks::ServerMutateTicks;

use vstd::prelude::*;

verus! {

#[verifier::external_type_specification]
#[verifier::external_body]
pub struct ExConfirmHistory(ConfirmHistory);

#[verifier::external_type_specification]
#[verifier::external_body]
pub struct ExServerMutateTicks(ServerMutateTicks);

/// The last tick that was received for an entity.
pub uninterp spec fn confirmed_last(h: ConfirmHistory) -> u32;

/// Which of the 64 ticks up to the last one were received for an entity; the least significant
/// bit is the last tick.
pub uninterp spec fn confirmed_mask(h: ConfirmHistory) -> u64;

/// The last tick that a mutation was received for.
pub uninterp spec fn mutated_last(h: ServerMutateTicks) -> u32;

/// For which of the 64 ticks up to the last one all mutations were received; the least
/// significant bit is the last tick.
pub uninterp spec fn mutated_mask(h: ServerMutateTicks) -> u64;

/// A tick was received: ticks after the last one were not, and those 64 or more before it count
/// as received.
pub open spec fn received(last: u32, mask: u64, t: u32) -> bool {
    let ago = tick::elapsed(last, t);
    !tick::after(t, last) && (ago >= 64 || bits::bit(mask, ago))
}

/// A tick from `start` to `end` was received. A range that starts after the last tick was not,
/// and one that starts 64 or more ticks before it counts as received.
pub open spec fn any_received(last: u32, mask: u64, start: u32, end: u32) -> bool {
    let oldest = tick::elapsed(last, start);
    let newest = if tick::after(last, end) {
        tick::elapsed(last, end)
    } else {
        0
    };
    !tick::after(start, last) && (oldest >= 64 || exists|ago: int|
        newest <= ago <= oldest && #[trigger] bits::bit(mask, ago))
}

/// `ConfirmHistory::last_tick` returns the last received tick.
#[verifier::external_body]
fn confirm_last_tick(confirm: &ConfirmHistory) -> (r: u32)
    ensures
        r == confirmed_last(*confirm),
{
    confirm.last_tick().get()
}

/// `ConfirmHistory::contains` tells whether a tick was received.
#[verifier::external_body]
fn confirm_contains(confirm: &ConfirmHistory, t: u32) -> (r: bool)
    ensures
        r == received(confirmed_last(*confirm), confirmed_mask(*confirm), t),
{
    confirm.contains(bevy_replicon::shared::replicon_tick::RepliconTick::new(t))
}

/// `ConfirmHistory::contains_any` tells whether any tick of a range was received. Its range must
/// not be reversed, and spans less than half of all ticks. It shifts by the number of ticks from
/// `start` up to `end` or the last tick, which must be below 64.
#[verifier::external_body]
fn confirm_contains_any(confirm: &ConfirmHistory, start: u32, end: u32) -> (r: bool)
    requires
        start == end || tick::after(end, start),
        tick::elapsed(confirmed_last(*confirm), start) == 63 ==> tick::after(
            confirmed_last(*confirm),
            end,
        ),
    ensures
        r == any_received(confirmed_last(*confirm), confirmed_mask(*confirm), start, end),
{
    confirm.contains_any(
        bevy_replicon::shared::replicon_tick::RepliconTick::new(start),
        bevy_replicon::shared::replicon_tick::RepliconTick::new(end),
    )
}

/// `ServerMutateTicks::contains_any` tells whether all mutations were received for any tick of a
/// range. Its range must not be reversed, and spans less than half of all ticks.
#[verifier::external_body]
fn mutate_contains_any(global: &ServerMutateTicks, start: u32, end: u32) -> (r: bool)
    requires
        start == end || tick::after(end, start),
    ensures
        r == any_received(mutated_last(*global), mutated_mask(*global), start, end),
{
    global.contains_any(
        bevy_replicon::shared::replicon_tick::RepliconTick::new(start),
        bevy_replicon::shared::replicon_tick::RepliconTick::new(end),
    )
}

/// A tick from `start` to `end` was received for an entity.
pub fn confirmed_in(confirm: &ConfirmHistory, start: u32, end: u32) -> (r: bool)
    requires
        start == end || tick::after(end, start),
    ensures
        r == any_received(confirmed_last(*confirm), confirmed_mask(*confirm), start, end),
{
    let last: u32 = confirm_last_tick(confirm);
    if last.wrapping_sub(start) != 63 || tick::is_after(last, end) {
        return confirm_contains_any(confirm, start, end);
    }
    // all 64 ticks: the oldest on its own, then the others
    let next: u32 = start.wrapping_add(1);
    let r = confirm_contains(confirm, start) || confirm_contains_any(confirm, next, end);
    proof {
        let mask = confirmed_mask(*confirm);
        assert(tick::elapsed(last, start) == 63);
        assert(tick::elapsed(last, next) == 62);
        if r {
            if received(last, mask, start) {
                assert(bits::bit(mask, 63));
            }
        } else {
            assert forall|ago: int| 0 <= ago <= 63 implies !#[trigger] bits::bit(mask, ago) by {}
        }
    }
    r
}

/// The authority is known at `start`: a tick from there to `end` was received, either for the
/// entity or for all entities.
pub open spec fn known_in(
    confirm: ConfirmHistory,
    global: ServerMutateTicks,
    start: u32,
    end: u32,
) -> bool {
    ||| any_received(confirmed_last(confirm), confirmed_mask(confirm), start, end)
    ||| any_received(mutated_last(global), mutated_mask(global), start, end)
}

/// Whether a tick from `start` to `end` was received, either for the entity or for all entities.
pub fn is_known_in(
    confirm: &ConfirmHistory,
    global: &ServerMutateTicks,
    start: u32,
    end: u32,
) -> (r: bool)
    requires
        start == end || tick::after(end, start),
    ensures
        r == known_in(*confirm, *global, start, end),
{
    confirmed_in(confirm, start, end) || mutate_contains_any(global, start, end)
}

/// A tick of a range was received exactly where one of its ticks was: the last tick and those before
/// it whose bits are set were, those after it were not, and those 64 or more before it count as
/// received. The range is short, and does not reach over the tick that is half of all ticks away.
pub proof fn some_tick_was_received(last: u32, mask: u64, start: u32, end: u32)
    requires
        start == end || tick::after(end, start),
        tick::elapsed(end, start) <= 64,
        tick::after(start, last) ==> tick::after(end, last),
    ensures
        any_received(last, mask, start, end) <==> exists|t: u32|
            tick::elapsed(t, start) <= tick::elapsed(end, start) && #[trigger] received(
                last,
                mask,
                t,
            ),
{
    if any_received(last, mask, start, end) {
        let oldest = tick::elapsed(last, start);
        if oldest >= 64 {
            assert(received(last, mask, start));
        } else {
            let newest = if tick::after(last, end) {
                tick::elapsed(last, end)
            } else {
                0
            };
            let ago = choose|ago: int|
                newest <= ago <= oldest && #[trigger] bits::bit(mask, ago);
            let t = tick::receded(last, ago as u32);
            assert(tick::elapsed(last, t) == ago);
            assert(received(last, mask, t));
            assert(tick::elapsed(t, start) <= tick::elapsed(end, start));
        }
    }
    if exists|t: u32|
        tick::elapsed(t, start) <= tick::elapsed(end, start) && #[trigger] received(last, mask, t) {
        let t = choose|t: u32|
            tick::elapsed(t, start) <= tick::elapsed(end, start) && #[trigger] received(
                last,
                mask,
                t,
            );
        let ago = tick::elapsed(last, t);
        assert(!tick::after(start, last));
        if tick::elapsed(last, start) < 64 {
            assert(bits::bit(mask, ago));
        }
    }
}

/// Which ticks were received: the bit for each of the 64 ticks up to the last one says so; those after
/// the last one were not, and those further back count as received.
pub proof fn received_by_its_bit(last: u32, mask: u64, ago: u32)
    requires
        ago <= u32::MAX / 2,
    ensures
        ago < 64 ==> (received(last, mask, tick::receded(last, ago)) <==> bits::bit(
            mask,
            ago as int,
        )),
        ago >= 64 ==> received(last, mask, tick::receded(last, ago)),
        ago > 0 ==> !received(last, mask, tick::advanced(last, ago)),
{
}

} // verus!
