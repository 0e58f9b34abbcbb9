use bevy_rewind::entity_management::{
    disable_unspawned_during_rollback, reenable_at_spawn_tick, stamp_spawned_at, Presence,
    SpawnedAt,
};
use bevy_rewind::rollback::{RollbackRun, RollbackStep};
use bevy_rewind::{RepliconTick, RollbackSchedule, RollbackTarget};

fn tick(v: u32) -> RepliconTick {
    RepliconTick::new(v)
}

#[derive(Clone, Copy)]
struct Entity {
    spawned_at: Option<SpawnedAt>,
    presence: Presence,
}

/// Predicted entities that are rolled back
struct App {
    tick: RepliconTick,
    target: RollbackTarget,
    resimulating: bool,
    entities: Vec<Option<Entity>>,
    unspawned_at_post_rollback: Vec<usize>,
}

fn init_app(start_tick: u32) -> App {
    App {
        tick: tick(start_tick),
        target: RollbackTarget::default(),
        resimulating: false,
        entities: vec![],
        unspawned_at_post_rollback: vec![],
    }
}

impl App {
    fn spawn(&mut self, spawned_at: Option<SpawnedAt>) -> usize {
        let mut entity = Entity { spawned_at, presence: Presence::new() };
        self.add_predicted(&mut entity);
        self.entities.push(Some(entity));
        self.entities.len() - 1
    }

    fn add_predicted(&self, entity: &mut Entity) {
        if let Some(stamp) = stamp_spawned_at(entity.spawned_at, self.tick, self.resimulating) {
            entity.spawned_at = Some(stamp);
        }
    }

    fn get(&mut self, e: usize) -> &mut Entity {
        self.entities[e].as_mut().unwrap()
    }

    fn run(&mut self, schedule: RollbackSchedule) {
        for (e, slot) in self.entities.iter_mut().enumerate() {
            let Some(entity) = slot else {
                continue;
            };
            let spawned_at = entity.spawned_at.unwrap();
            match schedule {
                RollbackSchedule::PreRollback => {
                    if !entity.presence.disabled
                        && disable_unspawned_during_rollback(spawned_at, &self.target)
                    {
                        entity.presence.insert_unspawned();
                    }
                }
                RollbackSchedule::PostRollback => {
                    if entity.presence.unspawned {
                        self.unspawned_at_post_rollback.push(e);
                    }
                }
                RollbackSchedule::PreResimulation => {
                    if entity.presence.unspawned && reenable_at_spawn_tick(spawned_at, self.tick) {
                        entity.presence.remove_unspawned();
                    }
                }
                RollbackSchedule::BackToPresent => {
                    if entity.presence.despawn_unspawned_entities() {
                        *slot = None;
                    }
                }
                RollbackSchedule::Rollback | RollbackSchedule::PostResimulation => {}
            }
        }
    }

    fn roll_back(&mut self, target: u32) {
        self.target = RollbackTarget(Some(tick(target)));
        let mut run = RollbackRun::new(tick(target), self.tick);
        while let Some(step) = run.next_step() {
            match step {
                RollbackStep::Run(schedule) => self.run(schedule),
                RollbackStep::SetTick(tick) => self.tick = tick,
                RollbackStep::ClearTarget => self.target = RollbackTarget(None),
                _ => {}
            }
        }
    }
}

#[test]
fn spawned_at_stamped_on_predicted_add() {
    let mut app = init_app(10);

    let e = app.spawn(None);

    let stamped = app
        .get(e)
        .spawned_at
        .expect("SpawnedAt should be stamped on Predicted-add");
    assert_eq!(stamped, SpawnedAt(tick(10)));
}

#[test]
fn spawned_at_skipped_during_resim() {
    let mut app = init_app(10);
    app.resimulating = true;

    let e = app.spawn(None);

    assert!(
        app.get(e).spawned_at.is_none(),
        "SpawnedAt should not be stamped while Resimulating is present"
    );
}

#[test]
fn preexisting_spawned_at_is_not_overwritten() {
    let mut app = init_app(10);

    let e = app.spawn(Some(SpawnedAt(tick(3))));

    assert_eq!(
        app.get(e).spawned_at,
        Some(SpawnedAt(tick(3))),
        "a pre-existing SpawnedAt must not be overwritten by the observer"
    );
}

#[test]
fn rollback_past_spawn_marks_entity_unspawned() {
    let mut app = init_app(15);
    let e = app.spawn(None);
    app.get(e).spawned_at = Some(SpawnedAt(tick(10)));

    app.roll_back(5);

    let probed = &app.unspawned_at_post_rollback;
    assert!(
        probed.contains(&e),
        "entity (spawned at 10) should be Unspawned in PostRollback when rollback targets tick 5; \
         saw {:?}",
        probed,
    );
}

#[test]
fn rollback_to_spawn_tick_or_later_does_not_unspawn() {
    let mut app = init_app(15);
    let e = app.spawn(None);
    app.get(e).spawned_at = Some(SpawnedAt(tick(10)));

    app.roll_back(11);

    assert!(app.unspawned_at_post_rollback.is_empty());
    assert!(
        !app.get(e).presence.unspawned,
        "entity spawned at 10 should not be Unspawned when rollback targets tick 11 (LoadFrom=10)"
    );
}

#[test]
fn resim_reenables_unspawned_at_spawn_tick() {
    let mut app = init_app(15);
    let e = app.spawn(None);
    app.get(e).spawned_at = Some(SpawnedAt(tick(10)));

    app.roll_back(8);

    let presence = app.get(e).presence;
    assert!(
        !presence.unspawned,
        "entity should have shed Unspawned during resim crossing its spawn tick"
    );
    assert!(
        !presence.disabled,
        "Disabled should have been removed by the on_remove hook on Unspawned"
    );
}

#[test]
fn spawned_at_preserved_across_resim_readd() {
    let mut app = init_app(10);
    let e = app.spawn(None);
    assert_eq!(app.get(e).spawned_at, Some(SpawnedAt(tick(10))));

    app.tick = tick(25);
    app.resimulating = true;
    let mut entity = *app.get(e);
    app.add_predicted(&mut entity);

    assert_eq!(
        entity.spawned_at,
        Some(SpawnedAt(tick(10))),
        "Original SpawnedAt should survive a resim-driven re-add of Predicted"
    );
}
