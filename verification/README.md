# bevy_rewind

Rollback for replicated Bevy worlds, with its logic verified by Verus.

A client predicts ticks that the server has not confirmed yet. When the server says otherwise, the
world goes back to an earlier tick, takes over what is confirmed, and simulates the ticks up to the
present again.

## Layout

- `src/history/`: what is recorded of each component. A ring buffer (`blob_deque`), slots that may
  be empty (`sparse_blob_deque`), a window of ticks (`component_history`) with its model (`records`)
  and its laws (`laws`); the histories of an entity, storing (`predicted`, `authoritative`), loading
  and looking for divergence (`load`).
- `src/predicted_resource.rs`, `src/load.rs`: the same for resources.
- `src/rollback.rs`: which tick to go back to, and the steps that lead there and back.
- `src/input/`: the inputs of players: their history, the server's queue, and the messages between
  clients and server.
- `src/entity_management.rs`, `src/reuse.rs`: entities that are spawned or despawned within the
  ticks that can be rolled back.
- `src/confirmations.rs`, `src/component_index.rs`, `src/tick.rs`, `src/layout.rs`, `src/bits.rs`:
  what these rest on.
- `app/`: the plugins that run the library in a Bevy world.
- `tests/`: scenarios.

Functions of other crates are called through small functions whose contracts are believed, not
proved; their doc comments name the function and say what is claimed of it.
