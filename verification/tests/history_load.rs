use bevy_rewind::component_index::ComponentId;
use bevy_rewind::history::authoritative::AuthoritativeHistory;
use bevy_rewind::history::batch::{InsertBatch, RemoveBatch};
use bevy_rewind::history::component::HistoryComponent;
use bevy_rewind::history::component_history::ComponentHistory;
use bevy_rewind::history::load::{
    self as history_load, load_and_clear_prediction, load_confirmed_authoritative,
    rollback_would_change_state, DivergenceEntity, DivergenceScan,
};
use bevy_rewind::history::predicted::PredictedHistory;
use bevy_rewind::history::registry::RollbackRegistry;
use bevy_rewind::history::ConfirmedInputHorizon;
use bevy_rewind::{LoadFrom, TickData};

use bevy_replicon::client::confirm_history::ConfirmHistory;
use bevy_replicon::client::server_mutate_ticks::ServerMutateTicks;
use bevy_replicon::shared::replicon_tick::RepliconTick;

#[derive(Clone, PartialEq, Eq, Debug)]
struct A(u16);

type Registry = RollbackRegistry<fn(&A, &A) -> bool>;

const COMP_A: ComponentId = 7;

fn a(v: u16) -> TickData<A> {
    TickData::Value(A(v))
}

fn r_tick(tick: u32) -> RepliconTick {
    RepliconTick::new(tick)
}

fn comp_history(
    first_tick: u32,
    data: impl IntoIterator<Item = TickData<A>>,
) -> ComponentHistory<A> {
    let data = data.into_iter();
    let len = data.size_hint().0;
    let component = HistoryComponent::<fn(&A, &A) -> bool>::new::<A>();
    let mut comp_hist = ComponentHistory::from_component(&component, len.max(5) as u8);

    for (offset, v) in data.enumerate() {
        let tick = first_tick + offset as u32;
        match v {
            TickData::Value(v) => comp_hist.write(tick, v),
            TickData::Removed => comp_hist.mark_removed(tick),
            TickData::Missing => unreachable!(),
        }
    }
    comp_hist
}

fn pred_history(
    first_tick: u32,
    comp_id: ComponentId,
    data: impl IntoIterator<Item = TickData<A>>,
) -> PredictedHistory<A> {
    let mut pred_hist = PredictedHistory::default();
    pred_hist.insert(comp_id, comp_history(first_tick, data));
    pred_hist
}

fn auth_history(
    first_tick: u32,
    comp_id: ComponentId,
    data: impl IntoIterator<Item = TickData<A>>,
) -> AuthoritativeHistory<A> {
    let mut auth_hist = AuthoritativeHistory::default();
    auth_hist.insert(comp_id, comp_history(first_tick, data));
    auth_hist
}

fn confirm_history(confirmed: impl IntoIterator<Item = u32>) -> ConfirmHistory {
    let mut confirm = ConfirmHistory::new(RepliconTick::new(0));
    for tick in confirmed.into_iter() {
        confirm.confirm(RepliconTick::new(tick));
    }
    confirm
}

#[derive(Default)]
struct Entity {
    predicted: bool,
    pred_hist: Option<PredictedHistory<A>>,
    auth_hist: Option<AuthoritativeHistory<A>>,
    confirm: Option<ConfirmHistory>,
    horizon: Option<ConfirmedInputHorizon>,
    disabled: bool,
    value: Option<A>,
}

impl Entity {
    fn apply(&mut self, inserts: InsertBatch<A>, removes: RemoveBatch) {
        assert_eq!(inserts.ids.len(), inserts.values.len());
        for (id, value) in inserts.ids.into_iter().zip(inserts.values) {
            assert_eq!(COMP_A, id);
            self.value = Some(value);
        }
        for id in removes.ids {
            assert_eq!(COMP_A, id);
            self.value = None;
        }
    }
}

enum System {
    LoadAndClearPrediction,
    LoadConfirmedAuthoritative,
    ReinsertPredicted,
}

/// Entities on which a system is run
struct App {
    registry: Registry,
    load_from: LoadFrom,
    global: ServerMutateTicks,
    system: System,
    entities: Vec<Entity>,
}

impl App {
    fn spawn(&mut self, entity: Entity) -> usize {
        self.entities.push(entity);
        self.entities.len() - 1
    }

    fn update(&mut self) {
        for entity in self.entities.iter_mut().filter(|e| e.predicted) {
            let (inserts, removes) = match self.system {
                System::LoadAndClearPrediction => {
                    let Some(pred_hist) = entity.pred_hist.as_mut() else {
                        continue;
                    };
                    load_and_clear_prediction(
                        pred_hist,
                        entity.auth_hist.as_ref().zip(entity.confirm.as_ref()),
                        entity.horizon.as_ref(),
                        entity.disabled,
                        &self.registry,
                        &self.load_from,
                        &self.global,
                    )
                }
                System::LoadConfirmedAuthoritative => load_confirmed_authoritative(
                    entity.auth_hist.as_ref().unwrap(),
                    entity.confirm.as_ref().unwrap(),
                    entity.horizon.as_ref(),
                    &self.registry,
                    &self.load_from,
                    &self.global,
                ),
                System::ReinsertPredicted => {
                    let present: Vec<ComponentId> =
                        entity.value.iter().map(|_| COMP_A).collect();
                    let inserts = history_load::reinsert_predicted(
                        &present,
                        entity.pred_hist.as_ref().unwrap(),
                        &self.registry,
                        &self.load_from,
                    );
                    (inserts, RemoveBatch::new())
                }
            };
            entity.apply(inserts, removes);
        }
    }

    fn value(&self, e: usize) -> Option<&A> {
        self.entities[e].value.as_ref()
    }

    fn history_len(&self, e: usize) -> usize {
        self.entities[e].pred_hist.as_ref().unwrap().get(&COMP_A).unwrap().len()
    }
}

fn init_app(load_from: u32, system: System) -> (App, ComponentId) {
    let (registry, comp_id) = registry_with();
    let app = App {
        registry,
        load_from: LoadFrom(bevy_rewind::RepliconTick::new(load_from)),
        global: ServerMutateTicks::default(),
        system,
        entities: vec![],
    };
    (app, comp_id)
}

#[test]
fn load_predicted_no_authoritative() {
    let (mut app, comp_a) = init_app(0, System::LoadAndClearPrediction);

    let pred_hist = pred_history(0, comp_a, [a(5)]);
    let e1 = app.spawn(Entity { predicted: true, pred_hist: Some(pred_hist), value: Some(A(1)), ..Entity::default() });

    app.update();

    assert_eq!(Some(&A(5)), app.value(e1));
}

#[test]
fn load_predicted_missing_authoritative() {
    let (mut app, comp_a) = init_app(1, System::LoadAndClearPrediction);

    let pred_hist = pred_history(1, comp_a, [a(5)]);
    let auth_hist = auth_history(0, comp_a, []);
    let confirm = confirm_history([0, 1, 2]);
    let e1 = app.spawn(Entity { predicted: true, pred_hist: Some(pred_hist), auth_hist: Some(auth_hist), confirm: Some(confirm), value: Some(A(0)), ..Entity::default() });

    app.update();

    assert_eq!(Some(&A(5)), app.value(e1));
}

#[test]
fn load_predicted_unconfirmed_authoritative() {
    let (mut app, comp_a) = init_app(1, System::LoadAndClearPrediction);

    let pred_hist = pred_history(1, comp_a, [a(5)]);
    let auth_hist = auth_history(1, comp_a, [a(10), a(15)]);
    let confirm = confirm_history([0, 2]);
    let e1 = app.spawn(Entity { predicted: true, pred_hist: Some(pred_hist), auth_hist: Some(auth_hist), confirm: Some(confirm), value: Some(A(0)), ..Entity::default() });

    app.update();

    assert_eq!(Some(&A(5)), app.value(e1));
}

#[test]
fn load_authoritative_direct_confirm() {
    let (mut app, comp_a) = init_app(0, System::LoadAndClearPrediction);

    let pred_hist = pred_history(0, comp_a, []);
    let auth_hist = auth_history(0, comp_a, [a(5)]);
    let confirm = confirm_history([0]);
    let e1 = app.spawn(Entity { predicted: true, pred_hist: Some(pred_hist), auth_hist: Some(auth_hist), confirm: Some(confirm), value: Some(A(1)), ..Entity::default() });

    app.update();

    assert_eq!(Some(&A(5)), app.value(e1));
}

#[test]
fn load_authoritative_direct_global_confirm() {
    let (mut app, comp_a) = init_app(0, System::LoadAndClearPrediction);

    let pred_hist = pred_history(0, comp_a, []);
    let auth_hist = auth_history(0, comp_a, [a(5)]);
    let confirm = confirm_history([]);
    let e1 = app.spawn(Entity { predicted: true, pred_hist: Some(pred_hist), auth_hist: Some(auth_hist), confirm: Some(confirm), value: Some(A(1)), ..Entity::default() });

    app.global.confirm(r_tick(0), 1);

    app.update();

    assert_eq!(Some(&A(5)), app.value(e1));
}

#[test]
fn load_authoritative_future_empty_confirm() {
    let (mut app, comp_a) = init_app(0, System::LoadAndClearPrediction);

    let pred_hist = pred_history(0, comp_a, []);
    let auth_hist = auth_history(0, comp_a, [a(5)]);
    let confirm = confirm_history([1]);
    let e1 = app.spawn(Entity { predicted: true, pred_hist: Some(pred_hist), auth_hist: Some(auth_hist), confirm: Some(confirm), value: Some(A(1)), ..Entity::default() });

    app.update();

    assert_eq!(Some(&A(5)), app.value(e1));
}

#[test]
fn load_authoritative_future_empty_global_confirm() {
    let (mut app, comp_a) = init_app(0, System::LoadAndClearPrediction);

    let pred_hist = pred_history(0, comp_a, []);
    let auth_hist = auth_history(0, comp_a, [a(5)]);
    let confirm = confirm_history([]);
    let e1 = app.spawn(Entity { predicted: true, pred_hist: Some(pred_hist), auth_hist: Some(auth_hist), confirm: Some(confirm), value: Some(A(1)), ..Entity::default() });

    app.global.confirm(r_tick(1), 1);

    app.update();

    assert_eq!(Some(&A(5)), app.value(e1));
}

#[test]
fn remove_predicted() {
    let (mut app, comp_a) = init_app(0, System::LoadAndClearPrediction);

    let pred_hist = pred_history(0, comp_a, [TickData::Removed]);
    let e1 = app.spawn(Entity { predicted: true, pred_hist: Some(pred_hist), value: Some(A(1)), ..Entity::default() });

    app.update();

    assert_eq!(None, app.value(e1));
}

#[test]
fn remove_authoritative() {
    let (mut app, comp_a) = init_app(0, System::LoadAndClearPrediction);

    let pred_hist = pred_history(0, comp_a, [a(2)]);
    let auth_hist = auth_history(0, comp_a, [TickData::Removed]);
    let confirm = confirm_history([0]);
    let e1 = app.spawn(Entity { predicted: true, pred_hist: Some(pred_hist), auth_hist: Some(auth_hist), confirm: Some(confirm), value: Some(A(1)), ..Entity::default() });

    app.update();

    assert_eq!(None, app.value(e1));
}

#[test]
fn insert_predicted() {
    let (mut app, comp_a) = init_app(0, System::LoadAndClearPrediction);

    let pred_hist = pred_history(0, comp_a, [a(5)]);
    let e1 = app.spawn(Entity { predicted: true, pred_hist: Some(pred_hist), ..Entity::default() });

    app.update();

    assert_eq!(Some(&A(5)), app.value(e1));
}

#[test]
fn insert_authoritative() {
    let (mut app, comp_a) = init_app(0, System::LoadAndClearPrediction);

    let pred_hist = pred_history(0, comp_a, []);
    let auth_hist = auth_history(0, comp_a, [a(5)]);
    let confirm = confirm_history([0]);
    let e1 = app.spawn(Entity { predicted: true, pred_hist: Some(pred_hist), auth_hist: Some(auth_hist), confirm: Some(confirm), ..Entity::default() });

    app.update();

    assert_eq!(Some(&A(5)), app.value(e1));
}

#[test]
fn change_detection() {}

#[test]
fn clears_predicted() {
    let (mut app, comp_a) = init_app(1, System::LoadAndClearPrediction);

    let pred_hist = pred_history(0, comp_a, [a(4), a(5), a(6)]);
    let e1 = app.spawn(Entity { predicted: true, pred_hist: Some(pred_hist), value: Some(A(1)), ..Entity::default() });

    app.update();

    assert_eq!(Some(&A(5)), app.value(e1));
    assert_eq!(
        2,
        app.history_len(e1)
    );

    app.load_from = LoadFrom(bevy_rewind::RepliconTick::new(0));
    app.update();

    assert_eq!(Some(&A(4)), app.value(e1));
    assert_eq!(
        1,
        app.history_len(e1)
    );
}

#[test]
fn retains_predicted_for_reinsert() {
    let (mut app, comp_a) = init_app(0, System::LoadAndClearPrediction);

    let pred_hist = pred_history(2, comp_a, [a(4), a(5), a(6)]);
    let e1 = app.spawn(Entity { predicted: true, pred_hist: Some(pred_hist), value: Some(A(1)), ..Entity::default() });

    app.update();

    assert_eq!(None, app.value(e1));
    assert_eq!(
        1,
        app.history_len(e1)
    );

    app.load_from = LoadFrom(bevy_rewind::RepliconTick::new(2));
    app.update();
    assert_eq!(Some(&A(4)), app.value(e1));
}

#[test]
fn load_predicted_authoritative_lacks_this_component() {
    let (mut app, comp_a) = init_app(1, System::LoadAndClearPrediction);

    let pred_hist = pred_history(1, comp_a, [a(5)]);
    let auth_hist = AuthoritativeHistory::default();
    let confirm = confirm_history([1]);
    let e1 = app.spawn(Entity { predicted: true, pred_hist: Some(pred_hist), auth_hist: Some(auth_hist), confirm: Some(confirm), value: Some(A(0)), ..Entity::default() });

    app.update();

    assert_eq!(Some(&A(5)), app.value(e1));
}

#[test]
fn load_predicted_auth_present_but_fully_unconfirmed() {
    let (mut app, comp_a) = init_app(1, System::LoadAndClearPrediction);

    let pred_hist = pred_history(1, comp_a, [a(5)]);
    let auth_hist = auth_history(1, comp_a, [a(9)]);
    let confirm = confirm_history([]);
    let e1 = app.spawn(Entity { predicted: true, pred_hist: Some(pred_hist), auth_hist: Some(auth_hist), confirm: Some(confirm), value: Some(A(0)), ..Entity::default() });

    app.update();

    assert_eq!(Some(&A(5)), app.value(e1));
}

#[test]
fn load_beyond_horizon_keeps_prediction() {
    let (mut app, comp_a) = init_app(2, System::LoadAndClearPrediction);

    let pred_hist = pred_history(2, comp_a, [a(5)]);
    let auth_hist = auth_history(2, comp_a, [a(9)]);
    let confirm = confirm_history([2]);
    let horizon = ConfirmedInputHorizon(1);
    let e1 = app.spawn(Entity { predicted: true, pred_hist: Some(pred_hist), auth_hist: Some(auth_hist), confirm: Some(confirm), horizon: Some(horizon), value: Some(A(0)), ..Entity::default() });

    app.update();

    assert_eq!(Some(&A(5)), app.value(e1));
}

#[test]
fn removed_on_disabled_entity_skips_remove() {
    let (mut app, comp_a) = init_app(0, System::LoadAndClearPrediction);

    let pred_hist = pred_history(0, comp_a, [a(2)]);
    let auth_hist = auth_history(0, comp_a, [TickData::Removed]);
    let confirm = confirm_history([0]);
    let e1 = app.spawn(Entity { predicted: true, pred_hist: Some(pred_hist), auth_hist: Some(auth_hist), confirm: Some(confirm), value: Some(A(1)), disabled: true, ..Entity::default() });

    app.update();

    assert_eq!(Some(&A(1)), app.value(e1));
}

#[test]
fn missing_on_disabled_entity_skips_remove() {
    let (mut app, comp_a) = init_app(0, System::LoadAndClearPrediction);

    let pred_hist = pred_history(2, comp_a, [a(5)]);
    let e1 = app.spawn(Entity { predicted: true, pred_hist: Some(pred_hist), value: Some(A(1)), disabled: true, ..Entity::default() });

    app.update();

    assert_eq!(Some(&A(1)), app.value(e1));
}

#[test]
fn skip_unpredicted() {
    let (mut app, comp_a) = init_app(0, System::LoadAndClearPrediction);

    let pred_hist = pred_history(0, comp_a, [a(5)]);
    let e1 = app.spawn(Entity { pred_hist: Some(pred_hist), value: Some(A(1)), ..Entity::default() });

    app.update();

    assert_eq!(Some(&A(1)), app.value(e1));
}

#[test]
fn load_confirmed_authoritative_value() {
    let (mut app, comp_a) = init_app(1, System::LoadConfirmedAuthoritative);

    let auth_hist = auth_history(1, comp_a, [a(5)]);
    let confirm = confirm_history([1]);
    let e1 = app.spawn(Entity { predicted: true, auth_hist: Some(auth_hist), confirm: Some(confirm), value: Some(A(1)), ..Entity::default() });

    app.update();

    assert_eq!(Some(&A(5)), app.value(e1));
}

#[test]
fn load_confirmed_confirmed_gap() {
    let (mut app, comp_a) = init_app(1, System::LoadConfirmedAuthoritative);

    let auth_hist = auth_history(0, comp_a, [a(5)]);
    let confirm = confirm_history([1]);
    let e1 = app.spawn(Entity { predicted: true, auth_hist: Some(auth_hist), confirm: Some(confirm), value: Some(A(1)), ..Entity::default() });

    app.update();

    assert_eq!(Some(&A(5)), app.value(e1));
}

#[test]
fn load_globally_confirmed_confirmed_gap() {
    let (mut app, comp_a) = init_app(1, System::LoadConfirmedAuthoritative);

    let auth_hist = auth_history(0, comp_a, [a(5)]);
    let confirm = confirm_history([]);
    let e1 = app.spawn(Entity { predicted: true, auth_hist: Some(auth_hist), confirm: Some(confirm), value: Some(A(1)), ..Entity::default() });

    app.global.confirm(r_tick(1), 1);

    app.update();

    assert_eq!(Some(&A(5)), app.value(e1));
}

#[test]
fn load_confirmed_skips_unconfirmed() {
    let (mut app, comp_a) = init_app(1, System::LoadConfirmedAuthoritative);

    let auth_hist = auth_history(0, comp_a, [a(5)]);
    let confirm = confirm_history([]);
    let e1 = app.spawn(Entity { predicted: true, auth_hist: Some(auth_hist), confirm: Some(confirm), value: Some(A(1)), ..Entity::default() });

    app.update();

    assert_eq!(Some(&A(1)), app.value(e1));
}

#[test]
fn load_confirmed_beyond_horizon_skips() {
    let (mut app, comp_a) = init_app(2, System::LoadConfirmedAuthoritative);

    let auth_hist = auth_history(2, comp_a, [a(9)]);
    let confirm = confirm_history([2]);
    let horizon = ConfirmedInputHorizon(1);
    let e1 = app.spawn(Entity { predicted: true, auth_hist: Some(auth_hist), confirm: Some(confirm), horizon: Some(horizon), value: Some(A(1)), ..Entity::default() });

    app.update();

    assert_eq!(Some(&A(1)), app.value(e1));
}

#[test]
fn load_confirmed_removed() {
    let (mut app, comp_a) = init_app(0, System::LoadConfirmedAuthoritative);

    let auth_hist = auth_history(0, comp_a, [TickData::Removed]);
    let confirm = confirm_history([0]);
    let e1 = app.spawn(Entity { predicted: true, auth_hist: Some(auth_hist), confirm: Some(confirm), value: Some(A(1)), ..Entity::default() });

    app.update();

    assert_eq!(None, app.value(e1));
}

#[test]
fn load_confirmed_missing_at_load_point() {
    let (mut app, comp_a) = init_app(4, System::LoadConfirmedAuthoritative);

    let auth_hist = auth_history(5, comp_a, [a(9)]);
    let confirm = confirm_history([4]);
    let e1 = app.spawn(Entity { predicted: true, auth_hist: Some(auth_hist), confirm: Some(confirm), value: Some(A(1)), ..Entity::default() });

    app.update();

    assert_eq!(Some(&A(1)), app.value(e1));
}

#[test]
fn reinsert_predicted() {
    let (mut app, comp_a) = init_app(0, System::ReinsertPredicted);

    let pred_hist = pred_history(0, comp_a, [a(5)]);
    let e1 = app.spawn(Entity { predicted: true, pred_hist: Some(pred_hist), ..Entity::default() });

    app.update();

    assert_eq!(Some(&A(5)), app.value(e1));
}

#[test]
fn reinsert_skips_component_already_present() {
    let (mut app, comp_a) = init_app(0, System::ReinsertPredicted);

    let pred_hist = pred_history(0, comp_a, [a(5)]);
    let e1 = app.spawn(Entity { predicted: true, pred_hist: Some(pred_hist), value: Some(A(1)), ..Entity::default() });

    app.update();

    assert_eq!(Some(&A(1)), app.value(e1));
}

#[test]
fn reinsert_skips_missing_value() {
    let (mut app, comp_a) = init_app(0, System::ReinsertPredicted);

    let pred_hist = pred_history(5, comp_a, [a(5)]);
    let e1 = app.spawn(Entity { predicted: true, pred_hist: Some(pred_hist), ..Entity::default() });

    app.update();

    assert_eq!(None, app.value(e1));
}

fn scan<'a>(
    registry: &'a Registry,
    global_confirm: &'a ServerMutateTicks,
    lo: u32,
    hi: u32,
) -> DivergenceScan<'a, fn(&A, &A) -> bool> {
    DivergenceScan {
        registry,
        global_confirm,
        lo,
        hi,
    }
}

fn registry_with() -> (Registry, ComponentId) {
    let mut registry = Registry::default();
    registry.register::<A>(COMP_A);
    (registry, COMP_A)
}

#[test]
fn entity_diverged_on_confirmed_value_mismatch() {
    let (registry, comp_a) = registry_with();
    let global = ServerMutateTicks::default();

    let pred = pred_history(0, comp_a, [a(5)]);
    let auth = auth_history(0, comp_a, [a(9)]);
    let confirm = confirm_history([0]);

    assert!(scan(&registry, &global, 0, 0).entity_diverged(&pred, &auth, &confirm, None));
}

#[test]
fn entity_not_diverged_when_prediction_matches() {
    let (registry, comp_a) = registry_with();
    let global = ServerMutateTicks::default();

    let pred = pred_history(0, comp_a, [a(5)]);
    let auth = auth_history(0, comp_a, [a(5)]);
    let confirm = confirm_history([0]);

    assert!(!scan(&registry, &global, 0, 0).entity_diverged(&pred, &auth, &confirm, None));
}

#[test]
fn entity_diverged_when_authoritative_removes_a_present_component() {
    let (registry, comp_a) = registry_with();
    let global = ServerMutateTicks::default();

    let pred = pred_history(0, comp_a, [a(5)]);
    let auth = auth_history(0, comp_a, [TickData::Removed]);
    let confirm = confirm_history([0]);

    assert!(scan(&registry, &global, 0, 0).entity_diverged(&pred, &auth, &confirm, None));
}

#[test]
fn entity_not_diverged_when_both_removed() {
    let (registry, comp_a) = registry_with();
    let global = ServerMutateTicks::default();

    let pred = pred_history(0, comp_a, [TickData::Removed]);
    let auth = auth_history(0, comp_a, [TickData::Removed]);
    let confirm = confirm_history([0]);

    assert!(!scan(&registry, &global, 0, 0).entity_diverged(&pred, &auth, &confirm, None));
}

#[test]
fn entity_not_diverged_when_authoritative_unconfirmed() {
    let (registry, comp_a) = registry_with();
    let global = ServerMutateTicks::default();

    let pred = pred_history(1, comp_a, [a(5)]);
    let auth = auth_history(1, comp_a, [a(9), a(15)]);
    let confirm = confirm_history([0, 2]);

    assert!(!scan(&registry, &global, 1, 1).entity_diverged(&pred, &auth, &confirm, None));
}

#[test]
fn entity_diverged_honours_global_confirmation() {
    let (registry, comp_a) = registry_with();
    let mut global = ServerMutateTicks::default();
    global.confirm(r_tick(0), 1);

    let pred = pred_history(0, comp_a, [a(5)]);
    let auth = auth_history(0, comp_a, [a(9)]);
    let confirm = confirm_history([]);

    assert!(scan(&registry, &global, 0, 0).entity_diverged(&pred, &auth, &confirm, None));
}

#[test]
fn entity_diverged_finds_divergence_later_in_range() {
    let (registry, comp_a) = registry_with();
    let global = ServerMutateTicks::default();

    let pred = pred_history(0, comp_a, [a(5), a(5), a(5)]);
    let auth = auth_history(0, comp_a, [a(5), a(5), a(9)]);
    let confirm = confirm_history([0, 1, 2]);

    assert!(scan(&registry, &global, 0, 2).entity_diverged(&pred, &auth, &confirm, None));
}

#[test]
fn entity_not_diverged_past_confirmed_input_horizon() {
    let (registry, comp_a) = registry_with();
    let global = ServerMutateTicks::default();

    let pred = pred_history(0, comp_a, [a(5), a(5), a(5)]);
    let auth = auth_history(0, comp_a, [a(5), a(5), a(9)]);
    let confirm = confirm_history([0, 1, 2]);
    let horizon = ConfirmedInputHorizon(1);

    assert!(!scan(&registry, &global, 0, 2).entity_diverged(
        &pred,
        &auth,
        &confirm,
        Some(&horizon)
    ));
}

#[test]
fn entity_diverged_within_confirmed_input_horizon() {
    let (registry, comp_a) = registry_with();
    let global = ServerMutateTicks::default();

    let pred = pred_history(0, comp_a, [a(5), a(5), a(5)]);
    let auth = auth_history(0, comp_a, [a(5), a(5), a(9)]);
    let confirm = confirm_history([0, 1, 2]);
    let horizon = ConfirmedInputHorizon(2);

    assert!(scan(&registry, &global, 0, 2).entity_diverged(&pred, &auth, &confirm, Some(&horizon)));
}

#[test]
fn entity_diverged_when_prediction_missing() {
    let (registry, comp_a) = registry_with();
    let global = ServerMutateTicks::default();

    let pred = pred_history(5, comp_a, [a(5)]);
    let auth = auth_history(0, comp_a, [a(9)]);
    let confirm = confirm_history([0]);

    assert!(scan(&registry, &global, 0, 0).entity_diverged(&pred, &auth, &confirm, None));
}

#[test]
fn entity_not_diverged_when_authoritative_missing_at_load_point() {
    let (registry, comp_a) = registry_with();
    let global = ServerMutateTicks::default();

    let pred = pred_history(4, comp_a, [a(5)]);
    let auth = auth_history(5, comp_a, [a(9)]);
    let confirm = confirm_history([4]);

    assert!(!scan(&registry, &global, 4, 4).entity_diverged(&pred, &auth, &confirm, None));
}

#[test]
fn rollback_would_change_state_detects_self_predicted_divergence() {
    let (registry, comp_a) = registry_with();
    let global = ServerMutateTicks::default();

    let pred = pred_history(0, comp_a, [a(5)]);
    let auth = auth_history(0, comp_a, [a(9)]);
    let confirm = confirm_history([0]);
    let entity = DivergenceEntity {
        predicted: &pred,
        authoritative: &auth,
        confirmed: &confirm,
        horizon: None,
    };

    let tick = bevy_rewind::RepliconTick::new(1);
    assert!(rollback_would_change_state(&[entity], &registry, &global, tick, tick));
}

#[test]
fn rollback_would_change_state_false_without_entities() {
    let (registry, _comp_a) = registry_with();
    let global = ServerMutateTicks::default();

    let tick = bevy_rewind::RepliconTick::new(1);
    assert!(!rollback_would_change_state(&[], &registry, &global, tick, tick));
}

#[test]
fn tolerance_decides_divergence() {
    let mut registry = Registry::new();
    registry.register_with_tolerance::<A>(COMP_A, |a: &A, b: &A| a.0.abs_diff(b.0) <= 2);
    let global = ServerMutateTicks::default();

    let auth = auth_history(0, COMP_A, [a(9)]);
    let confirm = confirm_history([0]);

    let near = pred_history(0, COMP_A, [a(7)]);
    assert!(!scan(&registry, &global, 0, 0).entity_diverged(&near, &auth, &confirm, None));
    let far = pred_history(0, COMP_A, [a(6)]);
    assert!(scan(&registry, &global, 0, 0).entity_diverged(&far, &auth, &confirm, None));
}

#[test]
fn divergence_is_looked_for_between_start_and_present() {
    let (registry, comp_a) = registry_with();
    let global = ServerMutateTicks::default();

    let pred = pred_history(10, comp_a, [a(1), a(2), a(3)]);
    let auth = auth_history(10, comp_a, [a(1), a(2), a(9)]);
    let confirm = confirm_history([10, 11, 12]);
    let changes = |start: u32, real: u32| {
        let entity = DivergenceEntity {
            predicted: &pred,
            authoritative: &auth,
            confirmed: &confirm,
            horizon: None,
        };
        rollback_would_change_state(
            &[entity],
            &registry,
            &global,
            bevy_rewind::RepliconTick::new(start),
            bevy_rewind::RepliconTick::new(real),
        )
    };

    // Only tick 12 differs, which is loaded by a rollback to 13.
    assert!(changes(11, 13));
    assert!(changes(13, 13));
    assert!(!changes(11, 12));
}

#[test]
fn a_batch_of_confirmations_reaches_over_64_ticks() {
    let (registry, comp_a) = registry_with();
    let global = ServerMutateTicks::default();

    // No record up to the end of the window: a confirmation anywhere in it counts.
    let auth = auth_history(0, comp_a, [a(9)]);
    let pred = pred_history(0, comp_a, [a(5)]);
    for confirmed in [1, 30, 63] {
        let confirm = confirm_history([confirmed]);
        assert!(scan(&registry, &global, 0, 0).entity_diverged(&pred, &auth, &confirm, None));
    }
}

#[test]
fn loads_stay_within_tolerance_without_divergence() {
    let mut registry = Registry::new();
    registry.register_with_tolerance::<A>(COMP_A, |a: &A, b: &A| a.0.abs_diff(b.0) <= 2);
    let global = ServerMutateTicks::default();

    let auth = auth_history(0, COMP_A, [a(9), a(4), TickData::Removed]);
    let confirm = confirm_history([0, 1, 2]);
    let predictions = || pred_history(0, COMP_A, [a(7), a(5), TickData::Removed]);

    assert!(!scan(&registry, &global, 0, 2).entity_diverged(
        &predictions(),
        &auth,
        &confirm,
        None
    ));
    for (tick, loaded) in [(0, Some(A(9))), (1, Some(A(4))), (2, None)] {
        let (inserts, removes) = load_and_clear_prediction(
            &mut predictions(),
            Some((&auth, &confirm)),
            None,
            false,
            &registry,
            &LoadFrom(bevy_rewind::RepliconTick::new(tick)),
            &global,
        );
        assert_eq!(loaded, inserts.values.into_iter().next());
        assert_eq!(loaded.is_none(), !removes.is_empty());
    }
}

#[test]
fn states_change_where_any_entity_diverged() {
    let (registry, comp_a) = registry_with();
    let global = ServerMutateTicks::default();
    let auth = auth_history(4, comp_a, [a(9)]);
    let confirm = confirm_history([4]);
    let same = pred_history(4, comp_a, [a(9)]);
    let other = pred_history(4, comp_a, [a(5)]);

    for predictions in [[&same, &same], [&same, &other], [&other, &same], [&other, &other]] {
        let diverged = predictions.map(|pred| {
            scan(&registry, &global, 3, 4).entity_diverged(pred, &auth, &confirm, None)
        });
        let entities = predictions.map(|predicted| DivergenceEntity {
            predicted,
            authoritative: &auth,
            confirmed: &confirm,
            horizon: None,
        });
        let (start, present) =
            (bevy_rewind::RepliconTick::new(4), bevy_rewind::RepliconTick::new(5));
        assert_eq!(
            diverged.contains(&true),
            rollback_would_change_state(&entities, &registry, &global, start, present),
        );
    }
}

#[test]
fn past_the_horizon_nothing_is_looked_up() {
    let registry = Registry::new();
    let (inserts, removes) = load_confirmed_authoritative(
        &auth_history(2, COMP_A, [a(9)]),
        &confirm_history([2]),
        Some(&ConfirmedInputHorizon(1)),
        &registry,
        &LoadFrom(bevy_rewind::RepliconTick::new(2)),
        &ServerMutateTicks::default(),
    );
    assert!(inserts.is_empty() && removes.is_empty());
}
