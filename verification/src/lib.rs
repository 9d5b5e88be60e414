//! An in-memory key-value store speaking the RESP protocol: its hash table,
//! slab allocator, sharded store, protocol parser and command logic.

pub mod text;
pub mod protocol;
pub mod store;
pub mod commands;
pub mod server;
pub mod expiry;
pub mod aof;
pub mod pubsub;
pub mod laws;
