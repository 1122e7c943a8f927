//! A verified resource synchronization library: a content-addressed asset
//! store partitioned into packages, a session-scoped identifier allocator,
//! and the client/server handshake that brings a local cache up to date
//! with an authoritative resource set.

pub mod metadata;
pub mod name;
pub mod network_shared;
pub mod protocol;
pub mod resource;
pub mod smaller_hashmap;
pub mod util;
pub mod vec;
