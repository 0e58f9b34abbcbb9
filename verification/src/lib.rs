//! Rolling a replicated simulation back to ticks that the server has confirmed.
pub mod bits;
pub mod component_index;
pub mod confirmations;
pub mod entity_management;
pub mod history;
pub mod input;
pub mod layout;
pub mod load;
pub mod predicted_resource;
pub mod reuse;
pub mod rollback;
pub mod tick;

pub use history::tick_data::TickData;
pub use history::{AuthoritativeHistory, ConfirmedInputHorizon};
pub use predicted_resource::ResourceHistory;
pub use rollback::{
    LoadFrom, RequestedRollback, RollbackFrames, RollbackSchedule, RollbackTarget, StoreFor,
    DEFAULT_ROLLBACK_FRAMES, TEST_ROLLBACK_FRAMES,
};
pub use tick::RepliconTick;
