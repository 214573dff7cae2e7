//! An embedded, log-structured key-value store.
//!
//! All mutations are appended to a sequential log; an in-memory index maps
//! each key to the location of its most recent record.  The log contents are
//! held as a string of characters; persisting that string to a file (and
//! reading it back on open) is left to the embedding program.

pub mod cmd;
pub mod codec;
pub mod engine;
pub mod error;
pub mod index;
pub mod replay;

pub use cmd::Command;
pub use engine::KvStore;
pub use error::KvError;
