//! An embedded, single-process key-value store kept in an append-only log.
//!
//! The store writes every mutation as a record to the active generation file,
//! keeps an in-memory index from each live key to the place of its latest
//! record, and rewrites the live records into a fresh generation once enough
//! bytes have been superseded.
//!
//! The crate never touches the file system itself. It works on [`LogDir`], an
//! image of the store's directory, and journals every change it makes to that
//! image as a [`FileOp`], so that a caller can carry the changes out on disk.
//!
//! The modules, leaves first:
//!
//! - [`command`]: the log record and its byte encoding.
//! - [`generation`]: generation numbers and the names of their files.
//! - [`index`]: the in-memory index.
//! - [`logdir`]: the image of the directory and the journal.
//! - [`replay`]: what a log means, that is the index that reading it rebuilds.
//! - [`state`]: the state of a store as a mathematical value.
//! - [`compaction`]: compaction as a series of steps on that state.
//! - [`store`]: the store itself.
//! - [`laws`]: what holds of the store whatever the calls.

pub mod command;
pub mod compaction;
pub mod error;
pub mod generation;
pub mod index;
pub mod laws;
pub mod logdir;
pub mod replay;
pub mod state;
pub mod store;

pub use command::Command;
pub use command::DecodeError;
pub use error::CompactionCause;
pub use error::KvsError;
pub use generation::log_path;
pub use generation::parse_generation;
pub use generation::sorted_gen_list;
pub use generation::LogFileType;
pub use index::InternalMap;
pub use index::LogEntry;
pub use logdir::FileOp;
pub use logdir::LogDir;
pub use state::COMPACTION_BYTES_THRESHOLD;
pub use store::KvStore;
