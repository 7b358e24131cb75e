//! A verified core for a small wire-compatible subset of an in-memory
//! key/value server: the RESP frame codec, the command layer, the binary
//! snapshot reader, the keyspace with lazy expiration, and the replication
//! state machine.
//!
//! Network I/O, the listener loop, and argument parsing live outside this
//! library; everything here is plain logic on bytes and maps.

pub mod bytes;
pub mod resp;
pub mod store;
pub mod redis_commands;
pub mod command;
pub mod redis_db;
pub mod redis_server;
