//! Session orchestration for a real-time multiplayer score board.

pub mod model;
pub mod session;
pub mod registry;
pub mod bridge;
pub mod reaper;
