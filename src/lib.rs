//! kvs: a persistent key-value store built on an append-only, compacted log.
//!
//! The library holds the verified logic of the store: the in-memory index, log
//! replay, compaction, the request/response protocol, the dispatcher of the
//! worker pool and the small decisions of the command-line tools. Files,
//! sockets and threads are driven by the application around it.
use vstd::prelude::*;

pub mod error;
pub mod protocol;
pub mod index;
pub mod store;
pub mod pool;
pub mod cli;
pub mod engine;

pub use crate::error::KvError;
pub use crate::protocol::{KvRequest, KvResponse};
pub use crate::index::CommandPos;
pub use crate::store::{Command, KvStore, CompactionPlan, Move, COMPACTION_THRESHOLD};
pub use crate::pool::{Dispatcher, PoolAction, PoolMessage, ThreadPool};
pub use crate::engine::KvsEngine;
pub use crate::cli::{valid_engine, valid_ip, compatible_engine, format_log_path};

verus! {

/// A `Result` whose error is the store's.
pub type Result<T> = core::result::Result<T, KvError>;

} // verus!
