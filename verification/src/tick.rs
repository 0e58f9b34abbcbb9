//! Ticks of the replicated simulation.
use vstd::prelude::*;

verus! {

/// A tick of the replicated simulation. Ticks wrap around.
#[derive(Clone, Copy, Debug, PartialEq, Eq, Structural)]
pub struct RepliconTick(pub u32);

impl RepliconTick {
    pub fn new(value: u32) -> (r: Self)
        ensures
            r.0 == value,
    {
        RepliconTick(value)
    }

    pub fn get(self) -> (r: u32)
        ensures
            r == self.0,
    {
        self.0
    }
}

impl Default for RepliconTick {
    fn default() -> (r: Self)
        ensures
            r.0 == 0,
    {
        RepliconTick(0)
    }
}

/// The ticks from `earlier` to `later`, going round.
pub open spec fn elapsed(later: u32, earlier: u32) -> int {
    if later >= earlier {
        later - earlier
    } else {
        later - earlier + 0x1_0000_0000
    }
}

/// A tick comes after another when it is reached from it within half of all ticks.
pub open spec fn after(a: u32, b: u32) -> bool {
    0 < elapsed(a, b) <= u32::MAX / 2
}

/// A tick comes before another when it is another one and does not come after it. Two ticks that are
/// half of all ticks apart come before each other.
pub open spec fn before(a: u32, b: u32) -> bool {
    a != b && !after(a, b)
}

/// The tick some ticks later, going round.
pub open spec fn advanced(t: u32, ticks: u32) -> u32 {
    if t + ticks <= u32::MAX {
        (t + ticks) as u32
    } else {
        (t + ticks - 0x1_0000_0000) as u32
    }
}

/// The tick some ticks before, going round.
pub open spec fn receded(t: u32, ticks: u32) -> u32 {
    if t >= ticks {
        (t - ticks) as u32
    } else {
        (t - ticks + 0x1_0000_0000) as u32
    }
}

/// `Ord::cmp` of `bevy_replicon`'s `RepliconTick`, through `>`: the difference is taken going
/// round, and the tick is the greater one when the difference is positive and at most half of
/// `u32::MAX`.
#[verifier::external_body]
pub(crate) fn is_after(a: u32, b: u32) -> (r: bool)
    ensures
        r == after(a, b),
{
    bevy_replicon::shared::replicon_tick::RepliconTick::new(a)
        > bevy_replicon::shared::replicon_tick::RepliconTick::new(b)
}

/// Whether a tick comes before another.
pub(crate) fn is_before(a: u32, b: u32) -> (r: bool)
    ensures
        r == before(a, b),
{
    a != b && !is_after(a, b)
}

/// The earlier of a tick and one that may have been there before.
pub open spec fn earliest(prev: Option<RepliconTick>, t: RepliconTick) -> RepliconTick {
    match prev {
        Some(p) if !after(p.0, t.0) => p,
        _ => t,
    }
}

pub(crate) fn earlier(prev: Option<RepliconTick>, t: RepliconTick) -> (r: RepliconTick)
    ensures
        r == earliest(prev, t),
{
    match prev {
        Some(p) => if is_after(p.get(), t.get()) {
            t
        } else {
            p
        },
        None => t,
    }
}

/// No tick comes after itself, and no two ticks come after each other. A tick comes before those that
/// come after it, and else only before the tick that is just as far from it in both directions.
pub proof fn after_is_asymmetric(a: u32, b: u32)
    ensures
        !(after(a, b) && after(b, a)),
        !after(a, a),
        after(a, b) ==> before(b, a),
        before(a, b) ==> after(b, a) || elapsed(a, b) == elapsed(b, a),
{
}

/// Ticks are counted going round: going on by some ticks and back again leads to the same tick, and
/// the ticks that have elapsed lead from the earlier tick to the later one.
pub proof fn counted_going_round(t: u32, other: u32, ticks: u32)
    ensures
        receded(advanced(t, ticks), ticks) == t,
        advanced(receded(t, ticks), ticks) == t,
        elapsed(advanced(t, ticks), t) == ticks,
        0 <= elapsed(t, other) <= u32::MAX,
        advanced(other, elapsed(t, other) as u32) == t,
        t + ticks <= u32::MAX ==> advanced(t, ticks) == t + ticks,
        ticks <= t ==> receded(t, ticks) == t - ticks,
{
}

/// Ticks less than half of all ticks apart are ordered like numbers, and a tick that comes after
/// another is reached from it within half of all ticks.
pub proof fn ordered_like_numbers(a: u32, b: u32)
    ensures
        a < b && b - a <= 0x7fff_ffff ==> before(a, b) && after(b, a) && !after(a, b),
        a < b && b - a > 0x8000_0000 ==> before(b, a) && after(a, b) && !after(b, a),
        after(b, a) <==> exists|n: u32| 1 <= n <= 0x7fff_ffff && b == #[trigger] advanced(a, n),
        a == b ==> !before(a, b) && !after(a, b),
{
    if after(b, a) {
        assert(b == advanced(a, elapsed(b, a) as u32));
    }
}

/// The earlier of two ticks is one of them, and comes after neither.
pub proof fn earliest_is_least(prev: Option<RepliconTick>, t: RepliconTick)
    ensures
        earliest(prev, t) == t || Some(earliest(prev, t)) == prev,
        prev is None ==> earliest(prev, t) == t,
        !after(earliest(prev, t).0, t.0),
        prev matches Some(p) ==> !after(earliest(prev, t).0, p.0),
{
}

} // verus!
