//! A sharded in-memory key-value store: a fixed set of partitions, a
//! deterministic content hash that routes each key to its partition, and
//! tombstone-based deletion.  Each partition can be rendered to and restored
//! from a JSON snapshot.

pub mod commands;
pub mod database;
pub mod entry;
pub mod hash;
pub mod json;
pub mod partition;
pub mod response;
pub mod server;
pub mod snapshot;
