//! A log-structured, string-keyed key-value store.
//!
//! Records are appended to a single log; an in-memory index maps each key to
//! the byte range of its most recent `Set` record. The index is rebuilt by
//! replaying the log, and the log is compacted once a write-count threshold
//! is exceeded.

pub mod assoc;
pub mod codec;
pub mod error;
pub mod kv;
pub mod record;
pub mod replay;
pub mod wal;

pub use error::KvsError;
pub use kv::KvStore;
pub use record::Record;
