//! What an operation reports when it cannot do its work.

use vstd::prelude::*;

verus! {

/// One of the two collections of records.
#[derive(Clone, Copy, Debug, PartialEq, Eq, Structural)]
pub enum Collection {
    Employees,
    LeaveRequests,
}

/// Why an operation failed.
#[derive(Clone, Copy, Debug, PartialEq, Eq, Structural)]
pub enum Error {
    /// No record of `collection` is stored under `id`.
    NotFound { collection: Collection, id: u64 },
    /// What was handed in is not consistent with itself.
    InvalidInput,
    /// A record of `collection` does not fit in the bytes a stored value may take.
    SerializationError { collection: Collection },
    /// Bytes stored in `collection` are not the encoding of any record.
    DeserializationError { collection: Collection },
}

} // verus!
