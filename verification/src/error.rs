//! The kinds of failure that the store reports.

use vstd::prelude::*;

verus! {

/// Why an operation on the store failed.
#[derive(Debug, Clone, Copy, PartialEq, Eq, Structural)]
pub enum KVError {
    /// The key is not in the index.
    IndexError,
    /// Moving to an offset of the log failed.
    PositionError,
    /// No well-formed record stands where one was expected.
    ProcessRecordError,
    /// The log could not be created or opened.
    FileError,
    /// A new record could not be encoded or appended.
    WriteError,
}

} // verus!
