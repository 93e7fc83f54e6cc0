//! The transport layer: which peers are reached over which channels, what
//! goes out to them, and what comes in.

pub mod delivery_laws;
pub mod dial;
pub mod dispatch;
pub mod handle;
pub mod inbound;
pub mod laws;
pub mod maps;
pub mod outbound;
pub mod registry;
pub mod registry_laws;
pub mod requests;
pub mod setup;
pub mod wire;
