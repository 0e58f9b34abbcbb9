use bevy_rewind::entity_management::{
    despawn_unused_entities, disable_server_despawned_entities, replicon_despawn, Presence,
    RemovedByServerAt, ServerDespawn, ServerRemoved, UnusedAt,
};
use bevy_rewind::{RepliconTick, RollbackFrames};

fn tick(v: u32) -> RepliconTick {
    RepliconTick::new(v)
}

/// An entity on a client that the server despawns
struct Client {
    tick: RepliconTick,
    predicted: bool,
    exists: bool,
    removed_at: Option<RemovedByServerAt>,
    presence: Presence,
}

fn client(start_tick: u32, predicted: bool) -> Client {
    Client {
        tick: tick(start_tick),
        predicted,
        exists: true,
        removed_at: None,
        presence: Presence::new(),
    }
}

impl Client {
    fn deliver_despawn(&mut self, message_tick: u32) {
        match replicon_despawn(self.predicted, tick(message_tick), self.tick) {
            ServerDespawn::Despawn => self.exists = false,
            ServerDespawn::Note(at) => self.removed_at = Some(at),
            ServerDespawn::NoteAndDisable(at) => {
                self.removed_at = Some(at);
                self.presence.insert_despawned(self.tick);
            }
        }
    }

    fn run_store(&mut self, at: u32) {
        self.tick = tick(at);
        let frames = RollbackFrames::default();
        let (mut despawn, mut disable) = (false, false);
        if let Some(at) = self.removed_at {
            match disable_server_despawned_entities(at, self.presence.despawned, self.tick, frames)
            {
                ServerRemoved::Despawn => despawn = true,
                ServerRemoved::Disable => disable = true,
                ServerRemoved::Keep => {}
            }
        }
        if self.presence.disabled && self.presence.despawned {
            let unused_at = self.presence.unused_at.unwrap();
            despawn |= despawn_unused_entities(unused_at, self.tick, frames);
        }
        if disable {
            self.presence.insert_despawned(self.tick);
        }
        if despawn {
            self.exists = false;
        }
    }
}

#[test]
fn non_predicted_entity_despawns_immediately() {
    let mut client = client(0, false);

    client.deliver_despawn(2);

    assert!(!client.exists, "non-predicted entities are despawned outright");
}

#[test]
fn predicted_despawn_at_or_after_current_tick_retains_disabled() {
    let mut client = client(0, true);

    client.deliver_despawn(2);

    assert!(client.exists);
    assert!(client.presence.despawned);
    assert!(client.presence.disabled);
}

#[test]
fn predicted_despawn_below_current_tick_marks_without_disabling() {
    let mut client = client(1_000, true);

    client.deliver_despawn(5);

    assert!(client.exists);
    assert!(!client.presence.despawned);
    assert!(!client.presence.disabled);

    client.run_store(0);
    assert!(!client.presence.despawned);

    client.run_store(1_000);
    assert!(client.presence.despawned);
    assert!(client.presence.disabled);
}

#[test]
fn despawned_entity_culled_once_outside_history_window() {
    let mut client = client(0, true);
    let history = RollbackFrames::default().history_size() as u32;

    client.deliver_despawn(2);
    assert!(client.presence.despawned);

    client.run_store(history);
    assert!(
        client.exists,
        "entity must be retained while still within the history window"
    );

    client.run_store(history + 100);
    assert!(
        !client.exists,
        "entity must be despawned once outside the history window"
    );
}

#[test]
fn unused_entities_go_past_the_window() {
    let mut client = client(4, true);
    let history = RollbackFrames::default().history_size() as u32;
    assert_eq!(17, history);

    client.presence.insert_despawned(tick(4));
    client.run_store(4 + history);
    assert!(client.exists);
    client.run_store(5 + history);
    assert!(!client.exists);
}

#[test]
fn ticks_half_of_all_apart_count_as_passed() {
    const HALF: u32 = 1 << 31;
    let frames = RollbackFrames::new(10);
    assert!(despawn_unused_entities(UnusedAt(tick(0)), tick(HALF + 12), frames));
    assert!(!despawn_unused_entities(UnusedAt(tick(0)), tick(HALF + 13), frames));
    assert_eq!(
        ServerDespawn::Note(RemovedByServerAt(tick(4))),
        replicon_despawn(true, tick(4), tick(HALF + 4)),
    );
}
