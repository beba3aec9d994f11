//! A log-structured key/value store.
//!
//! The store keeps its data in an append-only, segmented log and finds the
//! latest record of a key through an in-memory index.  A write appends one
//! record; a removal appends a tombstone.  When the log has more segments
//! than a threshold, the live records are rewritten into a single segment of
//! the next generation.
//!
//! The library holds the whole engine as a value: the segments are byte
//! vectors, and every change to them is also queued as an operation on the
//! directory.  A caller that wants the log on disk reads the directory, opens
//! the store over what it has read, and carries out the queued operations
//! after each write.  Reading the files, writing them and the network are left
//! to that caller.
//!
//! - [`codec`]: the record format, an 8-byte big-endian length and a JSON
//!   payload.
//! - [`names`] and [`directory`]: the names of the segment files and the
//!   order in which they are replayed.
//! - [`log`]: the index that replaying the log gives.
//! - [`disk`]: the operations that mirror the log to a directory.
//! - [`store`]: the engine, [`KvStore`].
//! - [`engine`]: the interface that the engines share, [`KvsEngine`].
//! - [`inmem`]: an engine in memory.
//! - [`common`], [`server`] and [`client`]: the wire protocol.
//! - [`raft`]: the transitions of a replicated state machine.
//! - [`laws`]: what holds over any sequence of operations.

pub mod client;
pub mod codec;
pub mod common;
pub mod directory;
pub mod disk;
pub mod engine;
pub mod error;
pub mod inmem;
pub mod laws;
pub mod log;
pub mod names;
pub mod raft;
pub mod server;
pub mod store;

pub use common::{GetRequest, RemoveRequest, Request, Response, SetRequest};
pub use engine::KvsEngine;
pub use error::KvsError;
pub use inmem::InMemEngine;
pub use raft::{DbOp, DbOpType};
pub use store::KvStore;
