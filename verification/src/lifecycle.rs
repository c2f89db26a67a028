//! Chunk lifecycle: the state machine and the decisions of its operations.
pub mod admission;
pub mod claims;
pub mod effects;
pub mod error;
pub mod handler;
pub mod laws;
pub mod lock_map;
pub mod replace;
pub mod reservation;
pub mod state;
pub mod survivors;

pub use crate::lifecycle::error::LifecycleError;
pub use crate::lifecycle::handler::{CacheHint, LifecycleHandler, LockPolicy};
pub use crate::lifecycle::state::{ChunkState, StateTransitionError};
