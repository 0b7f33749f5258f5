//! A log-structured key/value store.
//!
//! The store keeps every mutation as a record in an append-only log and
//! answers lookups from an index that maps each live key to the extent of its
//! latest record. This crate holds what the store decides and computes: the
//! record format and its codec, recovery of the index from the bytes of a log,
//! the operations `set`, `get` and `remove` with the compaction check, and
//! the plan of a compaction. The bytes of the log stay with the caller, who
//! reads, appends, copies and renames as the engine says.
//!
//! Beside the engine stand the answers of a server to the requests of a
//! client, a second backend kept by the `sled` database, and the RESP
//! encoding of values.

pub mod codec;
pub mod command;
pub mod engine;
pub mod error;
pub mod extent;
pub mod format;
pub mod index;
pub mod laws;
pub mod log;
pub mod protocol;
pub mod resp;
pub mod sled_store;
pub mod state;
pub mod store;
pub mod text;

pub use command::Command;
pub use engine::KvsEngine;
pub use error::{DecodeError, EncodeError, ErrorMessage, KvsStoreError};
pub use extent::Extent;
pub use protocol::{Request, Response};
pub use resp::{Resp, RespError};
pub use sled_store::{SledStore, SledStoreError};
pub use store::{KvStore, LogUpdate};
