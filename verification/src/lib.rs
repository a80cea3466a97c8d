//! An in-memory key-value store spoken to over the RESP wire protocol.
//!
//! The crate holds the wire codec, the command model, the keyspace and the
//! per-connection session logic. Transport and task spawning live outside.

pub mod pipelining;
pub mod resp;
pub mod session;
pub mod store;
