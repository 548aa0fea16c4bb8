//! Deterministic rollback simulation core for a two-player peer-to-peer game.
//!
//! All coordinates are fixed-point integers in thousandths of a world unit,
//! and all durations are integers in microseconds, so that every peer computes
//! bit-identical states from identical inputs.

pub mod actions;
pub mod codec;
pub mod engine;
pub mod session;
pub mod sim;
