use bevy_rewind::component_index::ComponentId;
use bevy_rewind::history::authoritative::AuthoritativeHistory;
use bevy_rewind::history::component::HistoryComponent;
use bevy_rewind::history::component_history::ComponentHistory;
use bevy_rewind::history::load::DivergenceEntity;
use bevy_rewind::history::predicted::{
    store_components, store_initial, update_archetype_cache, Archetype, ArchetypeCache,
    PredictedHistory,
};
use bevy_rewind::history::registry::RollbackRegistry;
use bevy_rewind::predicted_resource::save_initial;
use bevy_rewind::rollback::{
    calculate_rollback_target, merge_confirms, rollback_requested, settle_target, RollbackRun,
    RollbackStep,
};
use bevy_rewind::{
    LoadFrom, RepliconTick, RequestedRollback, ResourceHistory, RollbackFrames, RollbackSchedule,
    RollbackTarget, StoreFor, TickData, TEST_ROLLBACK_FRAMES,
};

use bevy_replicon::client::confirm_history::ConfirmHistory;
use bevy_replicon::client::server_mutate_ticks::ServerMutateTicks;

#[derive(Clone, PartialEq, Eq, Debug)]
enum Val {
    A(u16),
    B,
}

struct B;

const PREDICTED: ComponentId = 0;
const HISTORY: ComponentId = 1;
const COMP_A: ComponentId = 2;
const COMP_B: ComponentId = 3;

type Registry = RollbackRegistry<fn(&Val, &Val) -> bool>;

fn a(v: u16) -> TickData<Val> {
    TickData::Value(Val::A(v))
}

fn tick(tick: u32) -> RepliconTick {
    RepliconTick::new(tick)
}

fn frames() -> RollbackFrames {
    RollbackFrames::new(TEST_ROLLBACK_FRAMES)
}

fn comp_history(
    first_tick: u32,
    data: impl IntoIterator<Item = TickData<Val>>,
) -> ComponentHistory<Val> {
    let data = data.into_iter();
    let len = data.size_hint().0;
    let component = HistoryComponent::<fn(&Val, &Val) -> bool>::new::<u16>();
    let mut comp_hist = ComponentHistory::from_component(&component, len.max(5) as u8);
    for (offset, v) in data.enumerate() {
        let tick = first_tick + offset as u32;
        match v {
            TickData::Value(v) => comp_hist.write(tick, v),
            TickData::Removed => comp_hist.mark_removed(tick),
            TickData::Missing => unreachable!(),
        }
    }
    comp_hist
}

fn confirm_history(confirmed: impl IntoIterator<Item = u32>) -> ConfirmHistory {
    let new = bevy_replicon::shared::replicon_tick::RepliconTick::new;
    let mut confirm = ConfirmHistory::new(new(0));
    for tick in confirmed {
        confirm.confirm(new(tick));
    }
    confirm
}

#[derive(Clone, Copy, PartialEq, Eq, Debug)]
enum Schedule {
    Rollback(RollbackSchedule),
    FixedUpdate,
}

/// A simulation that makes the steps of rollbacks
struct App {
    tick: RepliconTick,
    target: RollbackTarget,
    requested: RequestedRollback,
    load_from: Option<LoadFrom>,
    already_loaded: bool,
    resimulating: bool,
    /// What the generic clock shows, in microseconds
    delta: u32,
    schedules: Vec<Schedule>,
    runs: Vec<u32>,
    deltas: Vec<u32>,
    loads: Vec<bool>,
}

const FIXED: u32 = 15625;
const VIRTUAL: u32 = 16000;

fn init_app() -> App {
    App {
        tick: tick(15),
        target: RollbackTarget::default(),
        requested: RequestedRollback::default(),
        load_from: None,
        already_loaded: false,
        resimulating: false,
        delta: VIRTUAL,
        schedules: vec![],
        runs: vec![],
        deltas: vec![],
        loads: vec![],
    }
}

impl App {
    fn simulate(&mut self) {
        self.schedules.push(Schedule::FixedUpdate);
        self.runs.push(self.tick.get());
        self.deltas.push(self.delta);
    }

    fn make(&mut self, step: RollbackStep) {
        match step {
            RollbackStep::UseFixedTime => self.delta = FIXED,
            RollbackStep::UseVirtualTime => self.delta = VIRTUAL,
            RollbackStep::Run(schedule) => {
                self.schedules.push(Schedule::Rollback(schedule));
                if schedule == RollbackSchedule::PreRollback {
                    assert!(rollback_requested(&self.target));
                }
                if schedule == RollbackSchedule::PreResimulation {
                    assert!(self.resimulating);
                    self.loads.push(false);
                    if !self.already_loaded {
                        self.loads.push(true);
                    }
                }
            }
            RollbackStep::Simulate => self.simulate(),
            RollbackStep::ClearTarget => self.target = RollbackTarget(None),
            RollbackStep::LoadFrom(load_from) => self.load_from = Some(load_from),
            RollbackStep::SetTick(tick) => self.tick = tick,
            RollbackStep::InsertAlreadyLoaded => self.already_loaded = true,
            RollbackStep::RemoveAlreadyLoaded => self.already_loaded = false,
            RollbackStep::InsertResimulating => self.resimulating = true,
            RollbackStep::RemoveResimulating => self.resimulating = false,
        }
    }

    /// One frame, with one step of the simulation
    fn update(&mut self) {
        calculate_rollback_target::<Val, fn(&Val, &Val) -> bool>(
            &[],
            &[],
            self.tick,
            frames(),
            &mut self.target,
            &mut self.requested,
            &[],
            &Registry::new(),
            &ServerMutateTicks::default(),
        );
        if rollback_requested(&self.target) {
            let mut run = RollbackRun::new(self.target.0.unwrap(), self.tick);
            while let Some(step) = run.next_step() {
                self.make(step);
            }
            assert!(run.next_step().is_none());
            assert!(!self.resimulating);
            assert!(!rollback_requested(&self.target));
        }
        assert_eq!(VIRTUAL, self.delta);
        self.delta = FIXED;
        self.simulate();
        self.delta = VIRTUAL;
    }
}

#[test]
fn rollback_order() {
    let mut app = init_app();

    app.target = RollbackTarget(Some(tick(14)));
    app.update();

    let of = Schedule::Rollback;
    assert_eq!(
        app.schedules,
        [
            of(RollbackSchedule::PreRollback),
            of(RollbackSchedule::Rollback),
            of(RollbackSchedule::PostRollback),
            of(RollbackSchedule::PreResimulation),
            Schedule::FixedUpdate,
            of(RollbackSchedule::PostResimulation),
            of(RollbackSchedule::PreResimulation),
            Schedule::FixedUpdate,
            of(RollbackSchedule::PostResimulation),
            of(RollbackSchedule::BackToPresent),
            Schedule::FixedUpdate,
        ]
    );
}

#[test]
fn rollback_uses_fixed_deltas() {
    let mut app = init_app();

    app.update();

    assert_eq!(app.delta, 16000);
    assert_eq!(app.runs, [15]);
    assert_eq!(app.deltas, [15625]);

    app.target = RollbackTarget(Some(tick(14)));
    app.update();

    assert_eq!(app.delta, 16000);
    assert_eq!(app.runs, [15, 14, 15, 15]);
    assert_eq!(app.deltas, [15625, 15625, 15625, 15625]);
}

#[test]
fn load_new_not_on_first_frame() {
    let mut app = init_app();

    app.target = RollbackTarget(Some(tick(13)));
    app.update();

    assert_eq!(app.loads, [false, false, true, false, true]);
}

#[test]
fn fast_forward() {
    let mut app = init_app();

    app.update();

    assert_eq!(app.tick, tick(15));
    assert_eq!(app.runs, [15]);

    app.target = RollbackTarget(Some(tick(20)));
    app.update();

    assert_eq!(app.tick, tick(20));
    assert_eq!(app.runs, [15, 20]);
}

#[test]
fn registers_and_stores_predicted_component() {
    let mut registry = Registry::new();
    registry.register::<u16>(COMP_A);
    registry.register::<B>(COMP_B);
    let mut cache = ArchetypeCache::new();
    let mut archetypes = vec![Archetype { id: 0, components: vec![PREDICTED, HISTORY, COMP_A] }];
    let mut history = PredictedHistory::default();
    let (value_a, value_b) = (Val::A(1), Val::B);
    let store_for = StoreFor(tick(15));

    update_archetype_cache(&archetypes, PREDICTED, HISTORY, &mut cache, &registry);
    let entry = &cache.list[0];
    store_components(&mut history, entry, &[Some(&value_a)], &registry, store_for, frames());
    store_initial(&mut history, entry, &[&value_a], &registry, store_for, frames());

    archetypes.push(Archetype { id: 1, components: vec![PREDICTED, HISTORY, COMP_A, COMP_B] });
    update_archetype_cache(&archetypes, PREDICTED, HISTORY, &mut cache, &registry);
    let entry = &cache.list[1];
    store_initial(&mut history, entry, &[&value_a, &value_b], &registry, store_for, frames());

    assert!(history.contains_key(&COMP_A));
    assert!(history.contains_key(&COMP_B));
}

#[test]
fn registers_and_seeds_predicted_resource() {
    #[derive(Clone, Debug, PartialEq)]
    struct R(u32);

    let mut history = ResourceHistory::default();
    let store_for = StoreFor(tick(15));

    save_initial(&R(7), &mut history, store_for);
    let len_after_seed = history.list.len();
    save_initial(&R(7), &mut history, store_for);
    let len_after_second = history.list.len();

    assert_eq!(1, len_after_seed);
    assert_eq!(1, len_after_second);
}

fn calculate(
    individual: &[u32],
    global: &[u32],
    target: Option<u32>,
    pred: [TickData<Val>; 3],
    auth: [TickData<Val>; 3],
) -> (Option<u32>, i16) {
    let mut registry = Registry::new();
    registry.register_with_tolerance::<u16>(COMP_A, |a: &Val, b: &Val| a == b);

    let mut predicted = PredictedHistory::default();
    predicted.insert(COMP_A, comp_history(12, pred));
    let mut authoritative = AuthoritativeHistory::default();
    authoritative.insert(COMP_A, comp_history(12, auth));
    let confirmed = confirm_history([12, 13, 14]);
    let entity = DivergenceEntity {
        predicted: &predicted,
        authoritative: &authoritative,
        confirmed: &confirmed,
        horizon: None,
    };

    let ticks = |list: &[u32]| list.iter().map(|&t| tick(t)).collect::<Vec<_>>();
    let mut target = RollbackTarget(target.map(tick));
    let mut requested = RequestedRollback::default();
    calculate_rollback_target(
        &ticks(individual),
        &ticks(global),
        tick(15),
        frames(),
        &mut target,
        &mut requested,
        &[entity],
        &registry,
        &ServerMutateTicks::default(),
    );
    (target.0.map(|t| t.get()), requested.0)
}

#[test]
fn divergence_gate_suppresses_via_confirm_message() {
    let same = || [a(5), a(5), a(5)];
    assert_eq!((None, 0), calculate(&[], &[14, 13, 20], None, same(), same()));
}

#[test]
fn divergence_gate_lets_mispredictions_through() {
    let pred = [a(5), a(5), a(5)];
    let auth = [a(5), a(5), a(6)];
    assert_eq!((Some(13), 2), calculate(&[14], &[13, 20], None, pred, auth));
}

#[test]
fn divergence_gate_is_bypassed_by_an_eager_target() {
    let same = || [a(5), a(5), a(5)];
    assert_eq!((Some(14), 1), calculate(&[], &[], Some(14), same(), same()));
    assert_eq!((Some(13), 2), calculate(&[13], &[], Some(14), same(), same()));
}

#[test]
fn divergence_gate_lets_future_targets_through() {
    let same = || [a(5), a(5), a(5)];
    assert_eq!((Some(18), -3), calculate(&[18], &[20], None, same(), same()));
}

#[test]
fn targets_stay_within_the_frames() {
    // With 5 frames a rollback from 15 goes back to 12 at most.
    let pred = [a(5), a(5), a(5)];
    let auth = [a(5), a(5), a(6)];
    assert_eq!((Some(12), 3), calculate(&[3], &[], None, pred, auth));
}

#[test]
fn earliest_confirm_is_kept() {
    assert_eq!(None, merge_confirms(None, &[]));
    assert_eq!(Some(tick(4)), merge_confirms(None, &[tick(7), tick(4), tick(9)]));
    assert_eq!(Some(tick(3)), merge_confirms(Some(tick(3)), &[tick(7), tick(4)]));
    // Ticks wrap around.
    assert_eq!(
        Some(tick(u32::MAX - 1)),
        merge_confirms(None, &[tick(2), tick(u32::MAX - 1)])
    );
}

#[test]
fn settled_targets() {
    let settle = |eager: Option<u32>, all: Option<u32>, entities: usize, changes: bool| {
        let (target, requested) = settle_target(
            eager.map(tick),
            all.map(tick),
            tick(15),
            frames(),
            entities,
            changes,
        );
        (target.0.map(|t| t.get()), requested.0)
    };
    // The present is no target, but it stays where it was asked for.
    assert_eq!((None, 0), settle(None, None, 1, true));
    assert_eq!((Some(15), 0), settle(Some(15), Some(15), 1, true));
    // Without entities nothing is gated.
    assert_eq!((Some(14), 1), settle(None, Some(14), 0, false));
    assert_eq!((None, 0), settle(None, Some(14), 1, false));
    assert_eq!((Some(14), 1), settle(None, Some(14), 1, true));
    assert_eq!((Some(14), 1), settle(Some(14), Some(14), 1, false));
}

#[test]
fn every_rollback_ends_at_the_present() {
    for start in [0, 10, 14, 15, 16, 20] {
        let mut app = init_app();
        let mut run = RollbackRun::new(tick(start), app.tick);
        app.target = RollbackTarget(Some(tick(start)));
        while let Some(step) = run.next_step() {
            app.make(step);
        }
        assert_eq!(start.max(15), app.tick.get());
        assert_eq!(app.runs, (start..=15).collect::<Vec<_>>());
        assert_eq!(VIRTUAL, app.delta);
        if start <= 15 {
            assert_eq!(Some(LoadFrom(tick(14))), app.load_from);
            assert!(!app.already_loaded);
        } else {
            assert!(app.already_loaded);
        }
    }
}
