//! Inputs, in the order of the ticks that they are meant for.
pub mod client;
pub mod history;
pub mod message;
pub mod queue;
pub mod server;
pub mod tick_rings;
pub mod traits;

pub use history::{InputHistory, INPUT_HISTORY_CAPACITY};
pub use message::HistoryFor;
pub use queue::InputQueue;
pub use server::{ConfirmedHorizon, InputTarget, SEAL_GRACE_TICKS};
pub use traits::InputTrait;
