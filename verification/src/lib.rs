//! A log-structured key/value store: the record and wire formats, the
//! in-memory index, recovery, compaction planning and request dispatch.

pub mod common;
pub mod engine;
pub mod error;
pub mod files;
pub mod index;
pub mod json;
pub mod record;
pub mod recovery;
pub mod selection;
pub mod server;
pub mod store;
pub mod thread_pool;
pub mod wire;
pub mod writer;
