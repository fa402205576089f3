//! The errors that the store reports.

use vstd::prelude::*;

verus! {

/// Why a compaction could not be completed.
#[derive(Debug, Clone, Copy, PartialEq, Eq, Structural)]
pub enum CompactionCause {
    /// The two fresh generation numbers would not fit in 64 bits.
    GenerationsExhausted,
    /// A live key was not reached by scanning the old generations from their
    /// start, so they cannot be retired.
    UnreachableRecords,
}

/// An error of the store.
#[derive(Debug, Clone, Copy, PartialEq, Eq, Structural)]
pub enum KvsError {
    /// A record in the middle of a log could not be decoded.
    Codec,
    /// A key that was to be removed is not in the store.
    KeyNotFound,
    /// The index points at something that is not a `Set` record.
    IndexInconsistent,
    /// A compaction was due and failed.
    CompactionFailed(CompactionCause),
}

impl KvsError {
    /// A short description of the error, for display.
    pub fn message(&self) -> (text: &'static str)
        ensures
            text@ == self.message_text(),
    {
        match self {
            KvsError::Codec => "Corrupt record in log",
            KvsError::KeyNotFound => "Key not found",
            KvsError::IndexInconsistent => "Index does not match the log",
            KvsError::CompactionFailed(CompactionCause::GenerationsExhausted) => "Compaction failed: generation numbers exhausted",
            KvsError::CompactionFailed(CompactionCause::UnreachableRecords) => "Compaction failed: live records out of reach",
        }
    }

    /// The text that [`KvsError::message`] returns.
    pub open spec fn message_text(&self) -> Seq<char> {
        match self {
            KvsError::Codec => "Corrupt record in log"@,
            KvsError::KeyNotFound => "Key not found"@,
            KvsError::IndexInconsistent => "Index does not match the log"@,
            KvsError::CompactionFailed(CompactionCause::GenerationsExhausted) => "Compaction failed: generation numbers exhausted"@,
            KvsError::CompactionFailed(CompactionCause::UnreachableRecords) => "Compaction failed: live records out of reach"@,
        }
    }
}

} // verus!
