//! Builds the running topology of a streaming query from its fragments: a registry of
//! fragments and actor placements, a pool of channels between fragments, and the builders
//! that turn a fragment into an actor (merge input, operator chain, dispatcher).

pub mod checkpoint;
pub mod dispatch;
pub mod error;
pub mod manager;
pub mod plan;
pub mod pool;
