use bevy_rewind::entity_management::Presence;
use bevy_rewind::reuse::{disable_or_despawn, Removal, ReuseMap, ReuseSpawn};
use bevy_rewind::{RepliconTick, RollbackFrames};

use std::collections::BTreeMap;

#[derive(Clone, Copy, PartialEq, Eq, Debug)]
struct Payload(u32);

#[derive(Clone, Copy)]
struct Entity {
    payload: Payload,
    signature: bool,
    /// Removing the entity is noted
    reuse: bool,
    presence: Presence,
}

/// Entities that are spawned for reasons
struct World {
    authority: bool,
    tick: RepliconTick,
    map: ReuseMap,
    entities: BTreeMap<u64, Entity>,
    next: u64,
}

fn authority_world() -> World {
    World {
        authority: true,
        tick: RepliconTick::new(10),
        map: ReuseMap::new(),
        entities: BTreeMap::new(),
        next: 1,
    }
}

fn client_world() -> World {
    World { authority: false, ..authority_world() }
}

impl World {
    fn spawn(&mut self, payload: Payload) -> u64 {
        let entity = Entity {
            payload,
            signature: false,
            reuse: false,
            presence: Presence::new(),
        };
        self.next += 1;
        self.entities.insert(self.next, entity);
        self.next
    }

    fn despawn(&mut self, e: u64) {
        if self.entities.remove(&e).unwrap().reuse {
            self.map.mark_removed(e);
        }
    }

    fn lives(&self, reason: u64) -> bool {
        self.map.candidate(reason).is_some_and(|e| self.entities.contains_key(&e))
    }

    fn reuse_spawn(&mut self, reason: u64, payload: Payload) -> u64 {
        let lives = self.lives(reason);
        match self.map.reuse_spawn(reason, self.authority, lives, self.tick) {
            ReuseSpawn::Plain => self.spawn(payload),
            ReuseSpawn::Fresh => {
                let e = self.spawn(payload);
                let entity = self.entities.get_mut(&e).unwrap();
                entity.signature = true;
                entity.reuse = true;
                self.map.register_reuse(reason, e, self.authority, self.tick);
                e
            }
            ReuseSpawn::Reuse(e) => {
                self.use_again(e, payload);
                e
            }
        }
    }

    fn use_again(&mut self, e: u64, payload: Payload) {
        let entity = self.entities.get_mut(&e).unwrap();
        entity.payload = payload;
        if entity.presence.despawned {
            entity.presence.remove_despawned();
        }
        if entity.presence.unspawned {
            entity.presence.remove_unspawned();
        }
    }

    fn register_reuse(&mut self, reason: u64, e: u64) {
        self.map.register_reuse(reason, e, self.authority, self.tick);
    }

    fn disable_or_despawn(&mut self, e: u64) {
        match disable_or_despawn(self.entities.contains_key(&e), self.authority) {
            Removal::Nothing => {}
            Removal::Despawn => self.despawn(e),
            Removal::Disable => {
                self.entities.get_mut(&e).unwrap().presence.insert_despawned(self.tick)
            }
        }
    }

    fn back_to_present(&mut self) {
        let history = RollbackFrames::default().history_size() as u32;
        self.map.clean(self.tick, history);
    }
}

#[test]
fn authority_reuse_spawn_spawns_plain_entity() {
    let mut world = authority_world();
    let e = world.reuse_spawn(1, Payload(1));

    let entity = world.entities[&e];
    assert_eq!(entity.payload, Payload(1));
    assert!(
        !entity.signature,
        "authoritative spawns must not get a reuse Signature"
    );
}

#[test]
fn client_reuse_spawn_registers_then_reuses() {
    let mut world = client_world();
    let e1 = world.reuse_spawn(1, Payload(1));
    assert!(
        world.entities[&e1].signature,
        "client reuse spawns carry a Signature derived from the reason"
    );

    let e2 = world.reuse_spawn(1, Payload(2));

    assert_eq!(e2, e1, "same reason must reuse the same entity");
    assert_eq!(world.entities[&e1].payload, Payload(2));
}

#[test]
fn client_reuse_spawn_clears_both_lifecycle_markers() {
    let mut world = client_world();
    let e1 = world.reuse_spawn(1, Payload(1));
    let entity = world.entities.get_mut(&e1).unwrap();
    entity.presence.insert_despawned(RepliconTick::new(10));
    entity.presence.insert_unspawned();
    assert!(entity.presence.disabled);

    let e2 = world.reuse_spawn(1, Payload(2));

    assert_eq!(e2, e1);
    let presence = world.entities[&e1].presence;
    assert!(!presence.despawned);
    assert!(!presence.unspawned);
    assert!(
        !presence.disabled,
        "reusing an entity must re-enable it even when both lifecycle markers were present"
    );
}

#[test]
fn client_reuse_spawn_skips_entity_marked_for_removal() {
    let mut world = client_world();
    let e1 = world.reuse_spawn(1, Payload(1));

    world.despawn(e1);
    let e2 = world.reuse_spawn(1, Payload(2));

    assert_ne!(e2, e1);
    assert_eq!(world.entities[&e2].payload, Payload(2));
}

#[test]
fn client_reuse_spawn_skips_dead_registered_entity() {
    let mut world = client_world();
    // The registration outlives the entity without being noted.
    let e = world.spawn(Payload(0));
    world.register_reuse(2, e);
    world.despawn(e);

    let e2 = world.reuse_spawn(2, Payload(2));
    assert_ne!(e2, e);
}

#[test]
fn client_register_reuse_makes_entity_reusable() {
    let mut world = client_world();
    let e = world.spawn(Payload(0));
    world.register_reuse(3, e);

    let reused = world.reuse_spawn(3, Payload(3));
    assert_eq!(reused, e);
}

#[test]
fn authority_register_reuse_is_noop() {
    let mut world = authority_world();
    let e = world.spawn(Payload(0));
    world.register_reuse(4, e);

    // Nothing was registered, so reuse misses.
    world.authority = false;
    let spawned = world.reuse_spawn(4, Payload(4));
    assert_ne!(spawned, e);
}

#[test]
fn deferred_world_register_reuse_makes_entity_reusable() {
    let mut world = client_world();
    let e = world.spawn(Payload(0));
    world.register_reuse(5, e);

    let reused = world.reuse_spawn(5, Payload(5));
    assert_eq!(reused, e);
}

#[test]
fn deferred_world_register_reuse_is_noop_with_authority() {
    let mut world = authority_world();
    let e = world.spawn(Payload(0));
    world.register_reuse(6, e);

    world.authority = false;
    let spawned = world.reuse_spawn(6, Payload(6));
    assert_ne!(spawned, e);
}

#[test]
fn entity_world_mut_disable_or_despawn_despawns_with_authority() {
    let mut world = authority_world();
    let e = world.spawn(Payload(0));
    world.disable_or_despawn(e);
    assert!(!world.entities.contains_key(&e));
}

#[test]
fn entity_world_mut_disable_or_despawn_disables_on_client() {
    let mut world = client_world();
    let e = world.spawn(Payload(0));
    world.disable_or_despawn(e);

    let presence = world.entities[&e].presence;
    assert!(presence.despawned);
    assert!(presence.disabled);
}

#[test]
fn world_disable_or_despawn_despawns_with_authority() {
    let mut world = authority_world();
    let e = world.spawn(Payload(0));
    world.disable_or_despawn(e);
    assert!(!world.entities.contains_key(&e));
}

#[test]
fn world_disable_or_despawn_disables_on_client() {
    let mut world = client_world();
    let e = world.spawn(Payload(0));
    world.disable_or_despawn(e);

    let presence = world.entities[&e].presence;
    assert!(presence.despawned);
    assert!(presence.disabled);
}

#[test]
fn world_disable_or_despawn_missing_entity_is_noop() {
    let mut world = authority_world();
    let e = world.spawn(Payload(0));
    world.despawn(e);
    // Must not panic on a dead entity.
    world.disable_or_despawn(e);
}

#[test]
fn back_to_present_evicts_entries_marked_for_removal() {
    let mut world = client_world();
    let e1 = world.reuse_spawn(1, Payload(1));
    world.despawn(e1);

    world.back_to_present();
    assert!(world.map.entries.is_empty());
    assert!(world.map.to_remove.is_empty());

    let e2 = world.reuse_spawn(1, Payload(2));
    assert_ne!(e2, e1);
    assert!(world.entities[&e2].signature);
}

#[test]
fn eviction_window_governs_reuse() {
    let history = RollbackFrames::default().history_size() as u32;
    for t0 in 0..40 {
        for touch in 0..40 {
            for clean in 0..80 {
                let mut world = client_world();

                world.tick = RepliconTick::new(t0);
                let e1 = world.reuse_spawn(1, Payload(1));

                // The tick that counts is the later of both.
                world.tick = RepliconTick::new(touch);
                let e2 = world.reuse_spawn(1, Payload(2));
                assert_eq!(e2, e1);

                world.tick = RepliconTick::new(clean);
                world.back_to_present();

                let e3 = world.reuse_spawn(1, Payload(3));
                let last = t0.max(touch);
                if clean < last + history {
                    assert_eq!(e3, e1, "entry still in window must be reused");
                } else {
                    assert_ne!(e3, e1, "entry outside window must be evicted");
                }
            }
        }
    }
}

#[test]
fn reasons_have_entities_of_their_own() {
    let mut world = client_world();
    let entities: Vec<u64> = (0..5).map(|r| world.reuse_spawn(r, Payload(r as u32))).collect();
    for (r, &e) in entities.iter().enumerate() {
        assert_eq!(e, world.reuse_spawn(r as u64, Payload(9)));
    }
    world.despawn(entities[2]);
    world.back_to_present();
    assert_eq!(4, world.map.entries.len());
    assert_eq!(None, world.map.candidate(2));
    assert_eq!(Some(entities[3]), world.map.candidate(3));
}
