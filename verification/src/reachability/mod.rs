//! Whether and through which relay this node can be reached.

pub mod canary;
pub mod driver;
