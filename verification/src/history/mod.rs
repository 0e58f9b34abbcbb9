//! What happened to entities over a window of ticks.
pub mod authoritative;
pub mod batch;
pub mod blob_deque;
pub mod component;
pub mod component_history;
pub mod confirmed;
pub mod entity_history;
pub mod laws;
pub mod load;
pub mod predicted;
pub mod records;
pub mod registry;
pub mod sparse_blob_deque;
pub mod text;
pub mod tick_data;

pub use authoritative::AuthoritativeHistory;
pub use confirmed::ConfirmedInputHorizon;
pub use predicted::PredictedHistory;
pub use registry::RollbackRegistry;
