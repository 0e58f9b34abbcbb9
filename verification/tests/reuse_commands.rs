use bevy_rewind::entity_management::Presence;
use bevy_rewind::reuse::{disable_or_despawn, Removal, ReuseMap, ReuseSpawn};
use bevy_rewind::{RepliconTick, RollbackFrames};

use std::collections::BTreeMap;

#[derive(Clone, Copy, PartialEq, Eq, Debug)]
struct Payload(u32);

#[derive(Clone, Copy)]
struct Entity {
    payload: Payload,
    signature: bool,
    /// Removing the entity is noted
    reuse: bool,
    presence: Presence,
}

/// Entities that are spawned for reasons
struct World {
    authority: bool,
    tick: RepliconTick,
    map: ReuseMap,
    entities: BTreeMap<u64, Entity>,
    next: u64,
}

fn authority_world() -> World {
    World {
        authority: true,
        tick: RepliconTick::new(10),
        map: ReuseMap::new(),
        entities: BTreeMap::new(),
        next: 1,
    }
}

fn client_world() -> World {
    World { authority: false, ..authority_world() }
}

impl World {
    fn spawn(&mut self, payload: Payload) -> u64 {
        let entity = Entity {
            payload,
            signature: false,
            reuse: false,
            presence: Presence::new(),
        };
        self.next += 1;
        self.entities.insert(self.next, entity);
        self.next
    }

    fn despawn(&mut self, e: u64) {
        if self.entities.remove(&e).unwrap().reuse {
            self.map.mark_removed(e);
        }
    }

    fn lives(&self, reason: u64) -> bool {
        self.map.candidate(reason).is_some_and(|e| self.entities.contains_key(&e))
    }

    fn reuse_spawn(&mut self, reason: u64, payload: Payload) -> u64 {
        let lives = self.lives(reason);
        match self.map.reuse_spawn(reason, self.authority, lives, self.tick) {
            ReuseSpawn::Plain => self.spawn(payload),
            ReuseSpawn::Fresh => {
                let e = self.spawn(payload);
                let entity = self.entities.get_mut(&e).unwrap();
                entity.signature = true;
                entity.reuse = true;
                self.map.register_reuse(reason, e, self.authority, self.tick);
                e
            }
            ReuseSpawn::Reuse(e) => {
                self.use_again(e, payload);
                e
            }
        }
    }

    fn use_again(&mut self, e: u64, payload: Payload) {
        let entity = self.entities.get_mut(&e).unwrap();
        entity.payload = payload;
        if entity.presence.despawned {
            entity.presence.remove_despawned();
        }
        if entity.presence.unspawned {
            entity.presence.remove_unspawned();
        }
    }

    fn register_reuse(&mut self, reason: u64, e: u64) {
        self.map.register_reuse(reason, e, self.authority, self.tick);
    }

    fn disable_or_despawn(&mut self, e: u64) {
        match disable_or_despawn(self.entities.contains_key(&e), self.authority) {
            Removal::Nothing => {}
            Removal::Despawn => self.despawn(e),
            Removal::Disable => {
                self.entities.get_mut(&e).unwrap().presence.insert_despawned(self.tick)
            }
        }
    }

    fn back_to_present(&mut self) {
        let history = RollbackFrames::default().history_size() as u32;
        self.map.clean(self.tick, history);
    }
}

#[test]
fn authority_commands_spawn_plain_entity() {
    let mut world = authority_world();
    let e = world.reuse_spawn(1, Payload(1));

    let entity = world.entities[&e];
    assert_eq!(entity.payload, Payload(1));
    assert!(!entity.signature);
}

#[test]
fn client_commands_reuse_miss_then_hit() {
    let mut world = client_world();
    let e1 = world.reuse_spawn(1, Payload(1));
    assert!(world.entities[&e1].signature);

    // Mark the entity with both lifecycle markers; a reuse must clear them.
    let presence = &mut world.entities.get_mut(&e1).unwrap().presence;
    presence.insert_unspawned();
    presence.insert_despawned(RepliconTick::new(10));

    let e2 = world.reuse_spawn(1, Payload(2));
    assert_eq!(e2, e1);
    let entity = world.entities[&e1];
    assert_eq!(entity.payload, Payload(2));
    assert!(!entity.presence.despawned);
    assert!(!entity.presence.unspawned);
    assert!(
        !entity.presence.disabled,
        "reusing an entity must re-enable it even when both lifecycle markers were present"
    );
}

#[test]
fn client_commands_reuse_skips_entity_marked_for_removal() {
    let mut world = client_world();
    let e1 = world.reuse_spawn(1, Payload(1));

    // The fresh registration takes the place of the stale one.
    world.despawn(e1);
    let e2 = world.reuse_spawn(1, Payload(2));

    assert_ne!(e2, e1);
    assert_eq!(world.entities[&e2].payload, Payload(2));
    assert_eq!(1, world.map.entries.len());
}

#[test]
fn client_commands_reuse_recovers_from_dead_registered_entity() {
    let mut world = client_world();
    let e = world.spawn(Payload(0));
    world.register_reuse(2, e);
    world.despawn(e);

    let e2 = world.reuse_spawn(2, Payload(2));
    assert_ne!(e2, e);
    assert_eq!(world.entities[&e2].payload, Payload(2));
}

#[test]
fn client_commands_register_reuse_makes_entity_reusable() {
    let mut world = client_world();
    let e = world.spawn(Payload(0));
    world.register_reuse(3, e);

    let reused = world.reuse_spawn(3, Payload(3));
    assert_eq!(reused, e);
}

#[test]
fn authority_commands_register_reuse_is_noop() {
    let mut world = authority_world();
    let e = world.spawn(Payload(0));
    world.register_reuse(4, e);

    world.authority = false;
    let spawned = world.reuse_spawn(4, Payload(4));
    assert_ne!(spawned, e);
}

#[test]
fn commands_disable_or_despawn_missing_entity_is_noop() {
    let mut world = authority_world();
    let e = world.spawn(Payload(0));
    world.despawn(e);
    world.disable_or_despawn(e);
}

#[test]
fn commands_disable_or_despawn_despawns_with_authority() {
    let mut world = authority_world();
    let e = world.spawn(Payload(0));
    world.disable_or_despawn(e);
    assert!(!world.entities.contains_key(&e));
}

#[test]
fn commands_disable_or_despawn_disables_on_client() {
    let mut world = client_world();
    let e = world.spawn(Payload(0));
    world.disable_or_despawn(e);

    let presence = world.entities[&e].presence;
    assert!(presence.despawned);
    assert!(presence.disabled);
}

#[test]
fn queued_update_for_evicted_entry_is_noop() {
    let mut world = client_world();
    let history = RollbackFrames::default().history_size() as u32;
    let e1 = world.reuse_spawn(1, Payload(1));

    let hit = world.map.candidate(1);
    assert_eq!(hit, Some(e1));
    let queued_at = world.tick;

    // Evict the entry before the queued update applies.
    world.tick = RepliconTick::new(10 + history + 1);
    world.back_to_present();
    world.use_again(e1, Payload(2));
    world.map.touch(1, queued_at);

    // The queued value still landed on the (live) entity...
    assert_eq!(world.entities[&e1].payload, Payload(2));
    // ...but the registration is gone: the next reuse spawns fresh.
    assert_eq!(None, world.map.candidate(1));
    let e2 = world.reuse_spawn(1, Payload(3));
    assert_ne!(e2, e1);
}
