//! A persistent, log-structured key/value store.
//!
//! Every mutation is appended to a generation-numbered log segment as a
//! length-framed record. An in-memory index maps each key to the byte range
//! of its latest `Set` record, and compaction periodically rewrites the live
//! records into a fresh segment so that disk usage stays proportional to the
//! live data.

pub mod cli;
pub mod codec;
pub mod disk;
pub mod engines;
pub mod errors;
pub mod index;
pub mod laws;
pub mod protocol;
pub mod reader;
pub mod replay;
pub mod server;
pub mod store;
pub mod thread_pool;

pub use cli::{Cli, Commands};
pub use codec::Command;
pub use disk::Segment;
pub use engines::KvsEngine;
pub use errors::KvsError;
pub use index::CommandPosition;
pub use protocol::{Request, Response};
pub use reader::KvStoreReader;
pub use server::KvsServer;
pub use store::KvStore;
