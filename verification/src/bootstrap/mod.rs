//! What a node keeps across a restart, and when it may still be used.

pub mod cache;
pub mod routing_snapshot;
