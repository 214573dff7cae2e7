use vstd::prelude::*;
use vstd::string::StringExecFns;

verus! {

/// Errors surfaced by the store's public operations.
///
/// `Io`, `Serialization` and `CompactionFailed` carry a description supplied
/// by the embedding program (the store itself performs no I/O, so it never
/// constructs them on the read or write path it verifies).
#[derive(Debug, Clone, PartialEq)]
pub enum KvError {
    /// Underlying filesystem or device failure, propagated to the caller.
    Io(String),
    /// A write-path encode failure; unreachable for well-formed input.
    Serialization(String),
    /// `remove` of a key that is not present.
    KeyNotFound,
    /// An empty key on a write.
    InvalidKey(String),
    /// The record at an indexed offset is not the `Set` the index promised.
    LogCorruption(u64),
    /// Compaction aborted before the log was replaced.
    CompactionFailed(String),
}

impl KvError {
    /// A human-readable description of the error.
    pub fn message(&self) -> String {
        match self {
            KvError::Io(s) => {
                let mut m = String::from_str("I/O error: ");
                m.append(s.as_str());
                m
            },
            KvError::Serialization(s) => {
                let mut m = String::from_str("Serialization error: ");
                m.append(s.as_str());
                m
            },
            KvError::KeyNotFound => String::from_str("Key not found"),
            KvError::InvalidKey(s) => {
                let mut m = String::from_str("Invalid key: ");
                m.append(s.as_str());
                m
            },
            KvError::LogCorruption(_) => {
                String::from_str("Log corruption detected")
            },
            KvError::CompactionFailed(s) => {
                let mut m = String::from_str("Compaction failed: ");
                m.append(s.as_str());
                m
            },
        }
    }
}

} // verus!
