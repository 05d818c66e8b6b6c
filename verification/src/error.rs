//! What can go wrong in the store.

use vstd::prelude::*;
use vstd::string::StringExecFns;

verus! {

/// An error of the key-value store.
#[derive(Debug, Clone, Copy, PartialEq, Eq, Structural)]
pub enum KVStoreError {
    /// The log has no segment to write to.
    PoolError,
    /// The queue to the background writer is closed.
    QueueClosed,
    /// The clock stands before the Unix epoch, so a record cannot be stamped.
    ClockError,
}

impl KVStoreError {
    /// The text of the error.
    pub open spec fn text(self) -> Seq<char> {
        match self {
            KVStoreError::PoolError => "write-ahead-logger has 0 file writers in the pool"@,
            KVStoreError::QueueClosed => "Failed to send to WAL channel: channel closed"@,
            KVStoreError::ClockError => "system clock is before the Unix epoch"@,
        }
    }

    /// The error in words.
    pub fn message(&self) -> (text: String)
        ensures
            text@ == self.text(),
    {
        match self {
            KVStoreError::PoolError => String::from_str(
                "write-ahead-logger has 0 file writers in the pool",
            ),
            KVStoreError::QueueClosed => String::from_str(
                "Failed to send to WAL channel: channel closed",
            ),
            KVStoreError::ClockError => String::from_str("system clock is before the Unix epoch"),
        }
    }
}

} // verus!
