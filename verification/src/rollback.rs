//! How far the simulation is rolled back, and what is run on the way.
use crate::history::load;
use crate::history::load::DivergenceEntity;
use crate::history::registry::RollbackRegistry;
use crate::tick;
use crate::tick::RepliconTick;

use bevy_replicon::client::server_mutate_ticks::ServerMutateTicks;

use vstd::prelude::*;

verus! {

/// The tick from which state is loaded.
#[derive(Clone, Copy, Debug, PartialEq, Eq, Structural)]
pub struct LoadFrom(pub RepliconTick);

/// The tick for which state is stored.
#[derive(Clone, Copy, Debug, PartialEq, Eq, Structural)]
pub struct StoreFor(pub RepliconTick);

impl LoadFrom {
    pub fn get(&self) -> (r: u32)
        ensures
            r == self.0.0,
    {
        self.0.get()
    }
}

impl StoreFor {
    pub fn get(&self) -> (r: u32)
        ensures
            r == self.0.0,
    {
        self.0.get()
    }
}

pub const DEFAULT_ROLLBACK_FRAMES: u8 = 15;

pub const TEST_ROLLBACK_FRAMES: u8 = 5;

/// The number of frames that can be rolled back, at most 60.
#[derive(Clone, Copy, Debug, PartialEq, Eq, Structural)]
pub struct RollbackFrames(u8);

impl Default for RollbackFrames {
    fn default() -> (r: Self)
        ensures
            r@ == DEFAULT_ROLLBACK_FRAMES,
    {
        RollbackFrames(DEFAULT_ROLLBACK_FRAMES)
    }
}

impl View for RollbackFrames {
    type V = int;

    closed spec fn view(&self) -> int {
        self.0 as int
    }
}

impl RollbackFrames {
    #[verifier::type_invariant]
    spec fn within_limit(self) -> bool {
        self.0 <= 60
    }

    /// More than 60 frames are taken for 60.
    pub fn new(frames: u8) -> (r: Self)
        ensures
            r@ == if frames < 60 {
                frames as int
            } else {
                60
            },
    {
        RollbackFrames(
            if frames < 60 {
                frames
            } else {
                60
            },
        )
    }

    pub fn max_frames(&self) -> (r: u8)
        ensures
            r == self@,
            r <= 60,
    {
        proof {
            use_type_invariant(self);
        }
        self.0
    }

    /// The number of ticks that a history holds.
    pub fn history_size(&self) -> (r: usize)
        ensures
            r == self@ + 2,
            2 <= r <= 62,
    {
        proof {
            use_type_invariant(self);
        }
        self.0 as usize + 2
    }
}

/// The tick to roll back to, if any.
#[derive(Clone, Copy, Debug, PartialEq, Eq, Structural)]
pub struct RollbackTarget(pub Option<RepliconTick>);

impl Default for RollbackTarget {
    fn default() -> (r: Self)
        ensures
            r.0 is None,
    {
        RollbackTarget(None)
    }
}

/// How many ticks were asked to be rolled back.
#[derive(Clone, Copy, Debug, PartialEq, Eq, Structural)]
pub struct RequestedRollback(pub i16);

impl Default for RequestedRollback {
    fn default() -> (r: Self)
        ensures
            r.0 == 0,
    {
        RequestedRollback(0)
    }
}

/// Whether a rollback was asked for.
pub fn rollback_requested(target: &RollbackTarget) -> (r: bool)
    ensures
        r == (target.0 is Some),
{
    target.0.is_some()
}

/// A target after ticks were confirmed: the earliest of them.
pub open spec fn merged(target: Option<RepliconTick>, confirms: Seq<RepliconTick>) -> Option<
    RepliconTick,
>
    decreases confirms.len(),
{
    if confirms.len() == 0 {
        target
    } else {
        let message = confirms.last();
        match merged(target, confirms.drop_last()) {
            Some(t) if !tick::after(t.0, message.0) => Some(t),
            _ => Some(message),
        }
    }
}

/// Merge confirmed ticks into the target.
pub fn merge_confirms(
    target: Option<RepliconTick>,
    confirms: &[RepliconTick],
) -> (r: Option<RepliconTick>)
    ensures
        r == merged(target, confirms@),
{
    let mut result: Option<RepliconTick> = target;
    let mut i: usize = 0;
    proof {
        assert(confirms@.take(0) =~= Seq::empty());
    }
    while i < confirms.len()
        invariant
            i <= confirms@.len(),
            result == merged(target, confirms@.take(i as int)),
        decreases confirms@.len() - i,
    {
        let message_tick: RepliconTick = confirms[i];
        proof {
            assert(confirms@.take(i + 1).drop_last() =~= confirms@.take(i as int));
        }
        result =
        match result {
            Some(t) => if tick::is_after(t.get(), message_tick.get()) {
                Some(message_tick)
            } else {
                Some(t)
            },
            None => Some(message_tick),
        };
        i = i + 1;
    }
    proof {
        assert(confirms@.take(confirms@.len() as int) =~= confirms@);
    }
    result
}

/// The tick that a rollback would start from: the target, or the present without one, but no
/// earlier than the histories reach.
pub open spec fn limited(target: Option<RepliconTick>, tick: RepliconTick, frames: int) -> u32 {
    let wanted = match target {
        Some(t) => t.0,
        None => tick.0,
    };
    let depth = frames - 2;
    let min = if tick.0 >= depth {
        tick.0 - depth
    } else {
        0
    };
    if wanted >= min {
        wanted
    } else {
        min as u32
    }
}

/// The lower 16 bits of a number, read as a signed number.
pub open spec fn low_bits(d: int) -> int {
    let m = d % 0x1_0000;
    if m >= 0x8000 {
        m - 0x1_0000
    } else {
        m
    }
}

fn truncated(d: i64) -> (r: i16)
    ensures
        r == low_bits(d as int),
{
    let u: u16 = #[verifier::truncate]
    (d as u16);
    let r: i16 = #[verifier::truncate]
    (d as i16);
    proof {
        assert(d as u16 == d % 0x1_0000) by (bit_vector);
        assert(if u >= 0x8000 {
            r == u - 0x1_0000
        } else {
            r == u
        }) by (bit_vector)
            requires
                u == d as u16,
                r == d as i16,
        ;
    }
    r
}

/// What becomes of a target that was limited to a tick. A past target that the state does not
/// contradict is dropped, unless the target was asked for beforehand.
pub open spec fn settled(
    merged: Option<RepliconTick>,
    target: u32,
    tick: RepliconTick,
    dropped: bool,
) -> (RollbackTarget, RequestedRollback) {
    if target == tick.0 {
        (RollbackTarget(merged), RequestedRollback(0))
    } else if dropped {
        (RollbackTarget(None), RequestedRollback(0))
    } else {
        (
            RollbackTarget(Some(RepliconTick(target))),
            RequestedRollback(low_bits(tick.0 - target) as i16),
        )
    }
}

/// A rollback is only made where the state of an entity contradicts the prediction. Targets that
/// were asked for beforehand and future targets are not gated, nor is anything without entities
/// to compare.
pub open spec fn gated(
    eager: Option<RepliconTick>,
    target: u32,
    tick: RepliconTick,
    entities: int,
) -> bool {
    target < tick.0 && eager is None && entities > 0
}

/// Whether a rollback to a target is only made where the state of an entity contradicts the prediction.
pub fn is_gated(
    eager: Option<RepliconTick>,
    target: u32,
    tick: RepliconTick,
    entities: usize,
) -> (r: bool)
    ensures
        r == gated(eager, target, tick, entities as int),
{
    // Only past targets are gated: a future target has no predicted counterpart to
    // compare, and gating past targets on real divergence avoids a chronic depth-1
    // rollback every tick at zero latency (the global confirm lands one tick late).
    target < tick.get() && eager.is_none() && entities > 0
}

/// Settle on a target, given whether a rollback to it would change any state.
pub fn settle_target(
    eager: Option<RepliconTick>,
    merged: Option<RepliconTick>,
    tick: RepliconTick,
    frames: RollbackFrames,
    entities: usize,
    would_change: bool,
) -> (r: (RollbackTarget, RequestedRollback))
    requires
        frames@ >= 2,
    ensures
        ({
            let target = limited(merged, tick, frames@);
            r == settled(
                merged,
                target,
                tick,
                gated(eager, target, tick, entities as int) && !would_change,
            )
        }),
{
    let target: u32 = limit_target(merged, tick, frames);
    let requested: i16 = truncated(tick.get() as i64 - target as i64);
    if target == tick.get() {
        return (RollbackTarget(merged), RequestedRollback(requested));
    }
    if is_gated(eager, target, tick, entities) && !would_change {
        return (RollbackTarget(None), RequestedRollback(0));
    }
    (RollbackTarget(Some(RepliconTick::new(target))), RequestedRollback(requested))
}

/// The tick that a rollback would start from.
pub fn limit_target(
    target: Option<RepliconTick>,
    tick: RepliconTick,
    frames: RollbackFrames,
) -> (r: u32)
    requires
        frames@ >= 2,
    ensures
        r == limited(target, tick, frames@),
{
    let min: u32 = tick.get().saturating_sub(frames.max_frames() as u32 - 2);
    let wanted: u32 = match target {
        Some(t) => t.get(),
        None => tick.get(),
    };
    if wanted >= min {
        wanted
    } else {
        min
    }
}

/// Calculate the tick to roll back to from the ticks that were confirmed, for single entities and
/// for all of them.
pub fn calculate_rollback_target<'a, T: PartialEq, W: Fn(&T, &T) -> bool>(
    individual_confirms: &[RepliconTick],
    global_confirms: &[RepliconTick],
    tick: RepliconTick,
    frames: RollbackFrames,
    rollback_target: &mut RollbackTarget,
    requested_info: &mut RequestedRollback,
    diverged: &[DivergenceEntity<'a, T>],
    registry: &RollbackRegistry<W>,
    global_confirm: &ServerMutateTicks,
)
    requires
        frames@ >= 2,
        ({
            let all = merged(merged(old(rollback_target).0, individual_confirms@), global_confirms@);
            let target = limited(all, tick, frames@);
            gated(old(rollback_target).0, target, tick, diverged@.len() as int)
                ==> load::can_scan_all(
                diverged@,
                load::scan_of(registry, global_confirm, RepliconTick(target), tick),
            )
        }),
    ensures
        ({
            let all = merged(merged(old(rollback_target).0, individual_confirms@), global_confirms@);
            let target = limited(all, tick, frames@);
            let scan = load::scan_of(registry, global_confirm, RepliconTick(target), tick);
            let result = (*final(rollback_target), *final(requested_info));
            if gated(old(rollback_target).0, target, tick, diverged@.len() as int) {
                ||| result == settled(all, target, tick, false) && load::scan_answers(
                    diverged@,
                    scan,
                    true,
                )
                ||| result == settled(all, target, tick, true) && load::scan_answers(
                    diverged@,
                    scan,
                    false,
                )
            } else {
                result == settled(all, target, tick, false)
            }
        }),
{
    // An eager target (input-divergence in `receive_inputs`) is a proven
    // misprediction and must bypass the state-divergence gate below, whose
    // confirmed-state comparison lags the input by the replication delay.
    let eager_in: Option<RepliconTick> = rollback_target.0;
    let individual = merge_confirms(eager_in, individual_confirms);
    let all = merge_confirms(individual, global_confirms);
    let target: u32 = limit_target(all, tick, frames);
    let would_change: bool = if is_gated(eager_in, target, tick, diverged.len()) {
        load::rollback_would_change_state(
            diverged,
            registry,
            global_confirm,
            RepliconTick::new(target),
            tick,
        )
    } else {
        true
    };
    let (new_target, requested) = settle_target(
        eager_in,
        all,
        tick,
        frames,
        diverged.len(),
        would_change,
    );
    *rollback_target = new_target;
    *requested_info = requested;
}

/// Rolling back never goes further than the histories reach: a target is at most two frames less
/// than the limit before the present, and a target that was asked for is never dropped. With a
/// limit of two frames a past target is limited to the present, and then left as it was.
pub proof fn target_is_within_reach(
    eager: Option<RepliconTick>,
    merged: Option<RepliconTick>,
    tick: RepliconTick,
    frames: int,
    entities: int,
    would_change: bool,
)
    requires
        frames >= 2,
    ensures
        ({
            let target = limited(merged, tick, frames);
            let r = settled(
                merged,
                target,
                tick,
                gated(eager, target, tick, entities) && !would_change,
            );
            &&& frames > 2 || target != tick.0 ==> (r.0.0 matches Some(t) ==> t.0 + (frames - 2)
                >= tick.0)
            &&& eager is Some && merged is Some ==> r.0.0 is Some
            &&& r.0.0 is None ==> r.1.0 == 0
        }),
{
}

/// No confirmed tick comes before the merged target, and the target is one of them or the one
/// before. Ticks that lie within half of all ticks of each other are compared.
pub proof fn merged_is_earliest(
    target: Option<RepliconTick>,
    confirms: Seq<RepliconTick>,
    base: u32,
)
    requires
        target matches Some(t) ==> tick::elapsed(t.0, base) <= u32::MAX / 2,
        forall|i: int|
            0 <= i < confirms.len() ==> tick::elapsed((#[trigger] confirms[i]).0, base) <= u32::MAX
                / 2,
    ensures
        merged(target, confirms) is None <==> target is None && confirms.len() == 0,
        merged(target, confirms) matches Some(m) ==> {
            &&& Some(m) == target || confirms.contains(m)
            &&& tick::elapsed(m.0, base) <= u32::MAX / 2
            &&& target matches Some(t) ==> !tick::after(m.0, t.0)
            &&& forall|i: int|
                0 <= i < confirms.len() ==> !tick::after(m.0, (#[trigger] confirms[i]).0)
        },
    decreases confirms.len(),
{
    if confirms.len() > 0 {
        let front = confirms.drop_last();
        assert forall|i: int| 0 <= i < front.len() implies tick::elapsed(
            (#[trigger] front[i]).0,
            base,
        ) <= u32::MAX / 2 by {
            assert(front[i] == confirms[i]);
        }
        merged_is_earliest(target, front, base);
        let m = merged(target, confirms)->0;
        let last = confirms[confirms.len() - 1];
        assert(tick::elapsed(last.0, base) <= u32::MAX / 2);
        if merged(target, front) is Some {
            let f = merged(target, front)->0;
            if front.contains(f) {
                let k = choose|k: int| 0 <= k < front.len() && front[k] == f;
                assert(confirms[k] == f);
            }
            assert forall|i: int| 0 <= i < confirms.len() implies !tick::after(
                m.0,
                (#[trigger] confirms[i]).0,
            ) by {
                if i < front.len() {
                    assert(front[i] == confirms[i]);
                    assert(tick::elapsed(confirms[i].0, base) <= u32::MAX / 2);
                }
            }
        }
    }
}

/// The schedules that run around a rollback.
#[derive(Clone, Copy, Debug, PartialEq, Eq, Hash, Structural)]
pub enum RollbackSchedule {
    PreRollback,
    Rollback,
    PostRollback,
    PreResimulation,
    PostResimulation,
    BackToPresent,
}

/// A step of a rollback.
#[derive(Clone, Copy, Debug, PartialEq, Eq, Structural)]
pub enum RollbackStep {
    /// The generic clock shows the fixed time
    UseFixedTime,
    /// The generic clock shows the virtual time
    UseVirtualTime,
    /// Run a schedule
    Run(RollbackSchedule),
    /// Run the simulation
    Simulate,
    /// There is no target any more
    ClearTarget,
    /// State is loaded from this tick
    LoadFrom(LoadFrom),
    /// This is the present tick
    SetTick(RepliconTick),
    /// State counts as loaded
    InsertAlreadyLoaded,
    /// State has to be loaded
    RemoveAlreadyLoaded,
    /// The simulation runs again
    InsertResimulating,
    /// The simulation does not run again
    RemoveResimulating,
}

/// The steps that lead back to a tick. The target is only cleared once `PreRollback` has run:
/// what runs there reads it.
pub open spec fn leading_back(start: u32) -> Seq<RollbackStep> {
    seq![
        RollbackStep::UseFixedTime,
        RollbackStep::Run(RollbackSchedule::PreRollback),
        RollbackStep::ClearTarget,
        RollbackStep::LoadFrom(LoadFrom(RepliconTick(load::tick_before(start)))),
        RollbackStep::SetTick(RepliconTick(start)),
        RollbackStep::Run(RollbackSchedule::Rollback),
        RollbackStep::Run(RollbackSchedule::PostRollback),
        RollbackStep::InsertAlreadyLoaded,
    ]
}

/// The steps that simulate a tick again.
pub open spec fn resimulating(t: u32) -> Seq<RollbackStep> {
    seq![
        RollbackStep::LoadFrom(LoadFrom(RepliconTick(load::tick_before(t)))),
        RollbackStep::SetTick(RepliconTick(t)),
        RollbackStep::InsertResimulating,
        RollbackStep::Run(RollbackSchedule::PreResimulation),
        RollbackStep::RemoveAlreadyLoaded,
        RollbackStep::Simulate,
        RollbackStep::Run(RollbackSchedule::PostResimulation),
        RollbackStep::RemoveResimulating,
    ]
}

/// The steps that simulate the ticks from `first` to `last` again.
pub open spec fn resimulating_all(first: int, last: int) -> Seq<RollbackStep>
    decreases last - first + 1,
{
    if first > last {
        Seq::empty()
    } else {
        resimulating(first as u32) + resimulating_all(first + 1, last)
    }
}

/// The steps that end a rollback.
pub open spec fn returning() -> Seq<RollbackStep> {
    seq![RollbackStep::Run(RollbackSchedule::BackToPresent), RollbackStep::UseVirtualTime]
}

/// All steps of a rollback. A future target runs no ticks again.
pub open spec fn rollback_steps(start: u32, real_tick: u32) -> Seq<RollbackStep> {
    leading_back(start) + resimulating_all(start as int, real_tick as int) + returning()
}

/// Where a rollback is.
#[derive(Clone, Copy, Debug, PartialEq, Eq, Structural)]
enum RollbackStage {
    LeadingBack,
    Resimulating,
    Returning,
}

/// A rollback that is under way.
pub struct RollbackRun {
    real_tick: u32,
    stage: RollbackStage,
    /// The tick that is simulated again, or the tick to start from
    tick: u64,
    /// The number of steps that were made of the stage
    made: u8,
}

impl RollbackRun {
    /// The steps that are left to make.
    pub closed spec fn left(&self) -> Seq<RollbackStep> {
        match self.stage {
            RollbackStage::LeadingBack => leading_back(self.tick as u32).skip(self.made as int)
                + resimulating_all(self.tick as int, self.real_tick as int) + returning(),
            RollbackStage::Resimulating => if self.tick <= self.real_tick {
                resimulating(self.tick as u32).skip(self.made as int) + resimulating_all(
                    self.tick + 1,
                    self.real_tick as int,
                ) + returning()
            } else {
                returning()
            },
            RollbackStage::Returning => returning().skip(self.made as int),
        }
    }

    #[verifier::type_invariant]
    spec fn on_track(self) -> bool {
        match self.stage {
            RollbackStage::LeadingBack => self.made < 8 && self.tick <= u32::MAX,
            RollbackStage::Resimulating => self.made < 8 && (self.tick > self.real_tick
                ==> self.made == 0) && self.tick <= u32::MAX + 1,
            RollbackStage::Returning => self.made <= 2,
        }
    }

    /// A rollback from the present to a tick.
    pub fn new(start: RepliconTick, real_tick: RepliconTick) -> (r: Self)
        ensures
            r.left() == rollback_steps(start.0, real_tick.0),
    {
        let r = RollbackRun {
            real_tick: real_tick.get(),
            stage: RollbackStage::LeadingBack,
            tick: start.get() as u64,
            made: 0,
        };
        proof {
            assert(leading_back(start.0).skip(0) =~= leading_back(start.0));
        }
        r
    }

    /// The next step to make.
    pub fn next_step(&mut self) -> (r: Option<RollbackStep>)
        ensures
            match r {
                Some(step) => old(self).left() == seq![step] + final(self).left(),
                None => old(self).left().len() == 0 && final(self).left().len() == 0,
            },
    {
        proof {
            use_type_invariant(&*self);
        }
        match self.stage {
            RollbackStage::LeadingBack => {
                let start: u32 = self.tick as u32;
                let step = leading_back_step(start, self.made);
                let made: u8 = self.made;
                if made == 7 {
                    *self = RollbackRun {
                        real_tick: self.real_tick,
                        stage: RollbackStage::Resimulating,
                        tick: self.tick,
                        made: 0,
                    };
                    proof {
                        assert(leading_back(start).skip(7) =~= seq![step]);
                        if self.tick <= self.real_tick {
                            assert(resimulating(start).skip(0) =~= resimulating(start));
                        }
                        assert(old(self).left() =~= seq![step] + self.left());
                    }
                } else {
                    *self = RollbackRun {
                        real_tick: self.real_tick,
                        stage: RollbackStage::LeadingBack,
                        tick: self.tick,
                        made: made + 1,
                    };
                    proof {
                        assert(leading_back(start).skip(made as int) =~= seq![step]
                            + leading_back(start).skip(made + 1));
                        assert(old(self).left() =~= seq![step] + self.left());
                    }
                }
                Some(step)
            },
            RollbackStage::Resimulating => {
                if self.tick > self.real_tick as u64 {
                    *self = RollbackRun {
                        real_tick: self.real_tick,
                        stage: RollbackStage::Returning,
                        tick: self.tick,
                        made: 1,
                    };
                    proof {
                        assert(old(self).left() =~= seq![
                            RollbackStep::Run(RollbackSchedule::BackToPresent),
                        ] + self.left());
                    }
                    return Some(RollbackStep::Run(RollbackSchedule::BackToPresent));
                }
                let t: u32 = self.tick as u32;
                let made: u8 = self.made;
                let step = resimulating_step(t, made);
                if made == 7 {
                    *self = RollbackRun {
                        real_tick: self.real_tick,
                        stage: RollbackStage::Resimulating,
                        tick: self.tick + 1,
                        made: 0,
                    };
                    proof {
                        assert(resimulating(t).skip(7) =~= seq![step]);
                        if self.tick <= self.real_tick {
                            assert(resimulating((t + 1) as u32).skip(0) =~= resimulating(
                                (t + 1) as u32,
                            ));
                        }
                        assert(old(self).left() =~= seq![step] + self.left());
                    }
                } else {
                    *self = RollbackRun {
                        real_tick: self.real_tick,
                        stage: RollbackStage::Resimulating,
                        tick: self.tick,
                        made: made + 1,
                    };
                    proof {
                        assert(resimulating(t).skip(made as int) =~= seq![step]
                            + resimulating(t).skip(made + 1));
                        assert(old(self).left() =~= seq![step] + self.left());
                    }
                }
                Some(step)
            },
            RollbackStage::Returning => {
                let made: u8 = self.made;
                if made == 2 {
                    return None;
                }
                let step = if made == 0 {
                    RollbackStep::Run(RollbackSchedule::BackToPresent)
                } else {
                    RollbackStep::UseVirtualTime
                };
                *self = RollbackRun {
                    real_tick: self.real_tick,
                    stage: RollbackStage::Returning,
                    tick: self.tick,
                    made: made + 1,
                };
                proof {
                    assert(returning().skip(made as int) =~= seq![step] + returning().skip(made + 1));
                }
                Some(step)
            },
        }
    }
}

fn leading_back_step(start: u32, made: u8) -> (r: RollbackStep)
    requires
        made < 8,
    ensures
        r == leading_back(start)[made as int],
{
    match made {
        0 => RollbackStep::UseFixedTime,
        1 => RollbackStep::Run(RollbackSchedule::PreRollback),
        2 => RollbackStep::ClearTarget,
        3 => RollbackStep::LoadFrom(LoadFrom(RepliconTick::new(start.saturating_sub(1)))),
        4 => RollbackStep::SetTick(RepliconTick::new(start)),
        5 => RollbackStep::Run(RollbackSchedule::Rollback),
        6 => RollbackStep::Run(RollbackSchedule::PostRollback),
        _ => RollbackStep::InsertAlreadyLoaded,
    }
}

fn resimulating_step(t: u32, made: u8) -> (r: RollbackStep)
    requires
        made < 8,
    ensures
        r == resimulating(t)[made as int],
{
    match made {
        0 => RollbackStep::LoadFrom(LoadFrom(RepliconTick::new(t.saturating_sub(1)))),
        1 => RollbackStep::SetTick(RepliconTick::new(t)),
        2 => RollbackStep::InsertResimulating,
        3 => RollbackStep::Run(RollbackSchedule::PreResimulation),
        4 => RollbackStep::RemoveAlreadyLoaded,
        5 => RollbackStep::Simulate,
        6 => RollbackStep::Run(RollbackSchedule::PostResimulation),
        _ => RollbackStep::RemoveResimulating,
    }
}

/// The present tick after a step.
pub open spec fn tick_after(step: RollbackStep, present: u32) -> u32 {
    match step {
        RollbackStep::SetTick(t) => t.0,
        _ => present,
    }
}

/// The present tick after some steps.
pub open spec fn tick_after_all(steps: Seq<RollbackStep>, present: u32) -> u32
    decreases steps.len(),
{
    if steps.len() == 0 {
        present
    } else {
        tick_after_all(steps.drop_first(), tick_after(steps.first(), present))
    }
}

/// The ticks that some steps simulate.
pub open spec fn simulated(steps: Seq<RollbackStep>, present: u32) -> Seq<u32>
    decreases steps.len(),
{
    if steps.len() == 0 {
        Seq::empty()
    } else {
        let rest = simulated(steps.drop_first(), tick_after(steps.first(), present));
        if steps.first() is Simulate {
            seq![present] + rest
        } else {
            rest
        }
    }
}

proof fn steps_in_turn(a: Seq<RollbackStep>, b: Seq<RollbackStep>, present: u32)
    ensures
        tick_after_all(a + b, present) == tick_after_all(b, tick_after_all(a, present)),
        simulated(a + b, present) == simulated(a, present) + simulated(
            b,
            tick_after_all(a, present),
        ),
    decreases a.len(),
{
    if a.len() == 0 {
        assert(a + b =~= b);
        assert(simulated(a, present) + simulated(b, present) =~= simulated(b, present));
    } else {
        let next = tick_after(a.first(), present);
        assert((a + b).drop_first() =~= a.drop_first() + b);
        steps_in_turn(a.drop_first(), b, next);
        assert(simulated(a + b, present) =~= simulated(a, present) + simulated(
            b,
            tick_after_all(a, present),
        ));
    }
}

proof fn one_tick_again(t: u32, present: u32)
    ensures
        tick_after_all(resimulating(t), present) == t,
        simulated(resimulating(t), present) == seq![t],
{
    reveal_with_fuel(tick_after_all, 9);
    reveal_with_fuel(simulated, 9);
    assert(simulated(resimulating(t), present) =~= seq![t]);
}

proof fn ticks_again(first: int, last: int, present: u32)
    requires
        0 <= first,
        last <= u32::MAX,
    ensures
        first <= last ==> tick_after_all(resimulating_all(first, last), present) == last,
        first > last ==> tick_after_all(resimulating_all(first, last), present) == present,
        simulated(resimulating_all(first, last), present) == Seq::new(
            if first <= last {
                (last - first + 1) as nat
            } else {
                0
            },
            |i: int| (first + i) as u32,
        ),
    decreases last - first + 1,
{
    if first <= last {
        let t = first as u32;
        steps_in_turn(resimulating(t), resimulating_all(first + 1, last), present);
        one_tick_again(t, present);
        ticks_again(first + 1, last, t);
        assert(simulated(resimulating_all(first, last), present) =~= Seq::new(
            (last - first + 1) as nat,
            |i: int| (first + i) as u32,
        ));
    } else {
        assert(simulated(resimulating_all(first, last), present) =~= Seq::new(
            0,
            |i: int| (first + i) as u32,
        ));
    }
}

/// A rollback simulates the ticks from its start to the present one after the other, each of them
/// once. Then the present is what it was; a future target becomes the present, and nothing is
/// simulated.
pub proof fn rollback_returns_to_present(start: u32, real_tick: u32, present: u32)
    ensures
        tick_after_all(rollback_steps(start, real_tick), present) == if start <= real_tick {
            real_tick
        } else {
            start
        },
        simulated(rollback_steps(start, real_tick), present) == Seq::new(
            if start <= real_tick {
                (real_tick - start + 1) as nat
            } else {
                0
            },
            |i: int| (start + i) as u32,
        ),
{
    let back = leading_back(start);
    let again = resimulating_all(start as int, real_tick as int);
    steps_in_turn(back + again, returning(), present);
    steps_in_turn(back, again, present);
    assert(tick_after_all(back, present) == start && simulated(back, present) =~= Seq::<
        u32,
    >::empty()) by {
        reveal_with_fuel(tick_after_all, 9);
        reveal_with_fuel(simulated, 9);
    }
    ticks_again(start as int, real_tick as int, start);
    let now = tick_after_all(back + again, present);
    assert(tick_after_all(returning(), now) == now && simulated(returning(), now) =~= Seq::<
        u32,
    >::empty()) by {
        reveal_with_fuel(tick_after_all, 3);
        reveal_with_fuel(simulated, 3);
    }
    assert(simulated(rollback_steps(start, real_tick), present) =~= simulated(again, start));
}

/// What the steps of a rollback leave for what runs in between to see.
pub struct RollbackView {
    /// The present tick
    pub present: u32,
    /// The tick that state is loaded from
    pub loads_from: Option<u32>,
    /// There is a target
    pub has_target: bool,
    /// State counts as loaded
    pub already_loaded: bool,
    /// The simulation runs again
    pub in_resimulation: bool,
    /// The generic clock shows the fixed time
    pub shows_fixed_time: bool,
}

/// What there is to see after a step.
pub open spec fn seen_after(view: RollbackView, step: RollbackStep) -> RollbackView {
    match step {
        RollbackStep::UseFixedTime => RollbackView { shows_fixed_time: true, ..view },
        RollbackStep::UseVirtualTime => RollbackView { shows_fixed_time: false, ..view },
        RollbackStep::Run(_) => view,
        RollbackStep::Simulate => view,
        RollbackStep::ClearTarget => RollbackView { has_target: false, ..view },
        RollbackStep::LoadFrom(from) => RollbackView { loads_from: Some(from.0.0), ..view },
        RollbackStep::SetTick(t) => RollbackView { present: t.0, ..view },
        RollbackStep::InsertAlreadyLoaded => RollbackView { already_loaded: true, ..view },
        RollbackStep::RemoveAlreadyLoaded => RollbackView { already_loaded: false, ..view },
        RollbackStep::InsertResimulating => RollbackView { in_resimulation: true, ..view },
        RollbackStep::RemoveResimulating => RollbackView { in_resimulation: false, ..view },
    }
}

/// What there is to see after some steps.
pub open spec fn seen_after_all(view: RollbackView, steps: Seq<RollbackStep>) -> RollbackView
    decreases steps.len(),
{
    if steps.len() == 0 {
        view
    } else {
        seen_after_all(seen_after(view, steps.first()), steps.drop_first())
    }
}

/// State is loaded from the tick before the present one; before the first tick there is none, and it
/// is loaded from itself.
pub open spec fn loads_the_tick_before(view: RollbackView) -> bool {
    view.loads_from matches Some(from) && (from + 1 == view.present || (from == 0 && view.present
        == 0))
}

/// What has to be seen when a step is made, in a rollback from `real_tick` to `start`.
pub open spec fn ready_for(
    step: RollbackStep,
    view: RollbackView,
    start: u32,
    real_tick: u32,
) -> bool {
    match step {
        RollbackStep::Run(RollbackSchedule::PreRollback) => view.has_target
            && view.shows_fixed_time,
        RollbackStep::Run(RollbackSchedule::Rollback)
        | RollbackStep::Run(RollbackSchedule::PostRollback) => {
            &&& !view.has_target
            &&& view.shows_fixed_time
            &&& view.present == start
            &&& loads_the_tick_before(view)
        },
        RollbackStep::Run(RollbackSchedule::PreResimulation) => {
            &&& !view.has_target
            &&& view.shows_fixed_time
            &&& view.in_resimulation
            &&& view.already_loaded <==> view.present == start
            &&& start <= view.present <= real_tick
            &&& loads_the_tick_before(view)
        },
        RollbackStep::Simulate | RollbackStep::Run(RollbackSchedule::PostResimulation) => {
            &&& !view.has_target
            &&& view.shows_fixed_time
            &&& view.in_resimulation
            &&& !view.already_loaded
            &&& start <= view.present <= real_tick
            &&& loads_the_tick_before(view)
        },
        RollbackStep::Run(RollbackSchedule::BackToPresent) => {
            &&& !view.has_target
            &&& !view.in_resimulation
            &&& view.shows_fixed_time
            &&& view.present == if start <= real_tick {
                real_tick
            } else {
                start
            }
        },
        _ => true,
    }
}

/// Every step finds what it has to see.
spec fn all_ready(
    steps: Seq<RollbackStep>,
    view: RollbackView,
    start: u32,
    real_tick: u32,
) -> bool
    decreases steps.len(),
{
    steps.len() > 0 ==> {
        &&& ready_for(steps.first(), view, start, real_tick)
        &&& all_ready(steps.drop_first(), seen_after(view, steps.first()), start, real_tick)
    }
}

proof fn ready_in_turn(
    a: Seq<RollbackStep>,
    b: Seq<RollbackStep>,
    view: RollbackView,
    start: u32,
    real_tick: u32,
)
    ensures
        seen_after_all(view, a + b) == seen_after_all(seen_after_all(view, a), b),
        all_ready(a + b, view, start, real_tick) <==> all_ready(a, view, start, real_tick)
            && all_ready(b, seen_after_all(view, a), start, real_tick),
    decreases a.len(),
{
    if a.len() == 0 {
        assert(a + b =~= b);
    } else {
        assert((a + b).drop_first() =~= a.drop_first() + b);
        ready_in_turn(a.drop_first(), b, seen_after(view, a.first()), start, real_tick);
    }
}

proof fn ready_at(
    steps: Seq<RollbackStep>,
    view: RollbackView,
    start: u32,
    real_tick: u32,
    k: int,
)
    requires
        all_ready(steps, view, start, real_tick),
        0 <= k < steps.len(),
    ensures
        ready_for(steps[k], seen_after_all(view, steps.take(k)), start, real_tick),
    decreases k,
{
    if k > 0 {
        let rest = steps.drop_first();
        assert(steps.take(k).drop_first() =~= rest.take(k - 1));
        ready_at(rest, seen_after(view, steps.first()), start, real_tick, k - 1);
    }
}

/// What there is to see before a tick is simulated again.
spec fn before_again(view: RollbackView, first: int, start: u32) -> bool {
    &&& !view.has_target
    &&& view.shows_fixed_time
    &&& !view.in_resimulation
    &&& view.already_loaded <==> first == start
}

proof fn again_is_ready(view: RollbackView, first: int, start: u32, real_tick: u32)
    requires
        start <= first <= real_tick + 1,
        before_again(view, first, start),
    ensures
        ({
            let steps = resimulating_all(first, real_tick as int);
            let end = seen_after_all(view, steps);
            &&& all_ready(steps, view, start, real_tick)
            &&& before_again(end, real_tick + 1, start)
            &&& end.present == if first <= real_tick {
                real_tick
            } else {
                view.present
            }
        }),
    decreases real_tick - first + 1,
{
    if first <= real_tick {
        let t = first as u32;
        let one = resimulating(t);
        let rest = resimulating_all(first + 1, real_tick as int);
        let next = seen_after_all(view, one);
        assert(all_ready(one, view, start, real_tick) && before_again(next, first + 1, start)
            && next.present == t) by {
            reveal_with_fuel(all_ready, 9);
            reveal_with_fuel(seen_after_all, 9);
        }
        ready_in_turn(one, rest, view, start, real_tick);
        again_is_ready(next, first + 1, start, real_tick);
    }
}

/// Whatever runs during a rollback finds the state that it needs. The target is still there for what
/// runs before the rollback, and gone after. The rollback, and every tick that is simulated again,
/// loads from the tick before; ticks are simulated as ones that are simulated again, and the state
/// only counts as loaded already for what runs before the first of them. In the end nothing is
/// simulated again any more, and the clock shows the virtual time.
pub proof fn rollback_finds_its_state(start: u32, real_tick: u32, before: RollbackView, k: int)
    requires
        before.has_target,
        !before.in_resimulation,
        0 <= k < rollback_steps(start, real_tick).len(),
    ensures
        ({
            let steps = rollback_steps(start, real_tick);
            let end = seen_after_all(before, steps);
            &&& ready_for(steps[k], seen_after_all(before, steps.take(k)), start, real_tick)
            &&& !end.has_target && !end.in_resimulation && !end.shows_fixed_time
            &&& end.already_loaded <==> start > real_tick
        }),
{
    let back = leading_back(start);
    let again = resimulating_all(start as int, real_tick as int);
    let ready = seen_after_all(before, back);
    assert(all_ready(back, before, start, real_tick) && before_again(ready, start as int, start)
        && ready.present == start) by {
        reveal_with_fuel(all_ready, 9);
        reveal_with_fuel(seen_after_all, 9);
    }
    let done = seen_after_all(ready, again);
    if start <= real_tick {
        again_is_ready(ready, start as int, start, real_tick);
    } else {
        assert(again =~= Seq::empty());
    }
    assert(all_ready(returning(), done, start, real_tick)) by {
        reveal_with_fuel(all_ready, 3);
    }
    ready_in_turn(back, again, before, start, real_tick);
    ready_in_turn(back + again, returning(), before, start, real_tick);
    assert(seen_after_all(done, returning()) == (RollbackView { shows_fixed_time: false, ..done }))
        by {
        reveal_with_fuel(seen_after_all, 3);
    }
    ready_at(rollback_steps(start, real_tick), before, start, real_tick, k);
}

/// A step runs something.
pub open spec fn runs(step: RollbackStep) -> bool {
    step is Run || step is Simulate
}

/// What runs for ticks that are simulated again.
pub open spec fn run_again(ticks: int) -> Seq<RollbackStep>
    decreases ticks,
{
    if ticks <= 0 {
        Seq::empty()
    } else {
        seq![
            RollbackStep::Run(RollbackSchedule::PreResimulation),
            RollbackStep::Simulate,
            RollbackStep::Run(RollbackSchedule::PostResimulation),
        ] + run_again(ticks - 1)
    }
}

proof fn runs_in_turn(a: Seq<RollbackStep>, b: Seq<RollbackStep>)
    ensures
        (a + b).filter(|s: RollbackStep| runs(s)) == a.filter(|s: RollbackStep| runs(s))
            + b.filter(|s: RollbackStep| runs(s)),
{
    Seq::filter_distributes_over_add(a, b, |s: RollbackStep| runs(s));
}

proof fn runs_of_again(first: int, last: int)
    ensures
        resimulating_all(first, last).filter(|s: RollbackStep| runs(s)) == run_again(
            last - first + 1,
        ),
    decreases last - first + 1,
{
    reveal(Seq::filter);
    let f = |s: RollbackStep| runs(s);
    if first <= last {
        let one = resimulating(first as u32);
        let rest = resimulating_all(first + 1, last);
        runs_in_turn(one, rest);
        runs_of_again(first + 1, last);
        assert(one.filter(f) =~= seq![
            RollbackStep::Run(RollbackSchedule::PreResimulation),
            RollbackStep::Simulate,
            RollbackStep::Run(RollbackSchedule::PostResimulation),
        ]) by {
            filter_of_eight(one, f);
        }
        assert(resimulating_all(first, last).filter(f) =~= run_again(last - first + 1));
    } else {
        assert(resimulating_all(first, last).filter(f) =~= run_again(last - first + 1));
    }
}

/// The steps of eight that a predicate picks.
proof fn filter_of_eight(steps: Seq<RollbackStep>, f: spec_fn(RollbackStep) -> bool)
    requires
        steps.len() == 8,
    ensures
        steps.filter(f) == (picked(steps[0], f) + picked(steps[1], f)) + (picked(steps[2], f) + picked(
            steps[3],
            f,
        )) + (picked(steps[4], f) + picked(steps[5], f)) + (picked(steps[6], f) + picked(
            steps[7],
            f,
        )),
{
    filter_of_two(steps.take(2), f);
    filter_of_two(steps.subrange(2, 4), f);
    filter_of_two(steps.subrange(4, 6), f);
    filter_of_two(steps.skip(6), f);
    Seq::filter_distributes_over_add(steps.take(2), steps.subrange(2, 4), f);
    assert(steps.take(2) + steps.subrange(2, 4) =~= steps.take(4));
    Seq::filter_distributes_over_add(steps.take(4), steps.subrange(4, 6), f);
    assert(steps.take(4) + steps.subrange(4, 6) =~= steps.take(6));
    Seq::filter_distributes_over_add(steps.take(6), steps.skip(6), f);
    assert(steps.take(6) + steps.skip(6) =~= steps);
}

spec fn picked(step: RollbackStep, f: spec_fn(RollbackStep) -> bool) -> Seq<RollbackStep> {
    if f(step) {
        seq![step]
    } else {
        Seq::empty()
    }
}

proof fn filter_of_two(steps: Seq<RollbackStep>, f: spec_fn(RollbackStep) -> bool)
    requires
        steps.len() == 2,
    ensures
        steps.filter(f) == picked(steps[0], f) + picked(steps[1], f),
{
    reveal(Seq::filter);
    let front = steps.drop_last();
    assert(front.drop_last() =~= Seq::empty());
    assert(front.drop_last().filter(f) =~= Seq::empty());
    assert(front.filter(f) =~= picked(steps[0], f));
    assert(steps.filter(f) =~= picked(steps[0], f) + picked(steps[1], f));
}

/// A rollback runs the schedules before it, its own and those after it once, then those around every
/// tick with the simulation in between, and the last one once.
pub proof fn rollback_runs_in_order(start: u32, real_tick: u32)
    ensures
        rollback_steps(start, real_tick).filter(|s: RollbackStep| runs(s)) == seq![
            RollbackStep::Run(RollbackSchedule::PreRollback),
            RollbackStep::Run(RollbackSchedule::Rollback),
            RollbackStep::Run(RollbackSchedule::PostRollback),
        ] + run_again(real_tick - start + 1) + seq![
            RollbackStep::Run(RollbackSchedule::BackToPresent),
        ],
{
    let f = |s: RollbackStep| runs(s);
    let back = leading_back(start);
    let again = resimulating_all(start as int, real_tick as int);
    runs_in_turn(back, again);
    runs_in_turn(back + again, returning());
    runs_of_again(start as int, real_tick as int);
    filter_of_eight(back, f);
    filter_of_two(returning(), f);
    assert(back.filter(f) =~= seq![
        RollbackStep::Run(RollbackSchedule::PreRollback),
        RollbackStep::Run(RollbackSchedule::Rollback),
        RollbackStep::Run(RollbackSchedule::PostRollback),
    ]);
    assert(returning().filter(f) =~= seq![RollbackStep::Run(RollbackSchedule::BackToPresent)]);
}

/// What a rollback is settled on. Without any tick to go back to there is none. A tick within reach is
/// kept exactly, one before that is raised to the first tick within reach, which is two frames less
/// than the limit before the present, or the first tick of all. How far it lies back is asked for. A
/// past tick is dropped only where nobody asked for it and there are entities to compare, none of
/// which would change; later ticks are never dropped.
pub proof fn settled_within_reach(
    eager: Option<RepliconTick>,
    merged: Option<RepliconTick>,
    tick: RepliconTick,
    frames: int,
    entities: int,
    would_change: bool,
)
    requires
        2 <= frames,
        0 <= entities,
    ensures
        ({
            let limit = limited(merged, tick, frames);
            let r = settled(
                merged,
                limit,
                tick,
                gated(eager, limit, tick, entities) && !would_change,
            );
            let kept = eager is Some || entities == 0 || would_change;
            match merged {
                None => r.0.0 is None && r.1.0 == 0,
                Some(t) => if t.0 == tick.0 {
                    r.0.0 == Some(t) && r.1.0 == 0
                } else if t.0 > tick.0 {
                    &&& r.0.0 == Some(t)
                    &&& t.0 - tick.0 <= 0x8000 ==> r.1.0 == tick.0 - t.0
                    &&& (tick.0 - t.0 - r.1.0) % 0x1_0000 == 0
                } else if !kept {
                    r.1.0 == 0 && (r.0.0 is None || (frames == 2 && r.0.0 == Some(t)))
                } else if tick.0 - t.0 <= frames - 2 {
                    &&& r.0.0 == Some(t)
                    &&& tick.0 - t.0 < 0x8000 ==> r.1.0 == tick.0 - t.0
                    &&& (tick.0 - t.0 - r.1.0) % 0x1_0000 == 0
                } else if frames == 2 {
                    r.0.0 == Some(t) && r.1.0 == 0
                } else {
                    &&& r.0.0 matches Some(raised) && raised.0 == tick.0 - (frames - 2)
                    &&& frames - 2 < 0x8000 ==> r.1.0 == frames - 2
                    &&& (frames - 2 - r.1.0) % 0x1_0000 == 0
                },
            }
        }),
{
}

/// A number is cut to its lower 16 bits, which leaves it as it is where it fits.
pub proof fn low_bits_fit(d: int)
    ensures
        -0x8000 <= low_bits(d) < 0x8000,
        (d - low_bits(d)) % 0x1_0000 == 0,
        -0x8000 <= d < 0x8000 ==> low_bits(d) == d,
{
}

} // verus!
