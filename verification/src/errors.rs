//! The closed error taxonomy of the layer, and the classified error value
//! that every failing operation returns.

use vstd::prelude::*;

verus! {

/// The classification of a failed storage operation.
#[derive(Clone, Copy, Debug, PartialEq, Eq, Structural)]
pub enum DatabaseError {
    /// A unique constraint was violated while inserting.
    UniqueViolation,
    /// An operation that expected at least one affected or matching row found none.
    NotFound,
    /// An update was asked to set no columns at all.
    NoFieldsToUpdate,
    /// Anything else, including transport failures and malformed queries.
    Others,
}

/// A classified failure: the classification together with a descriptive
/// message identifying the operation that failed.
#[derive(Clone, Copy, Debug)]
pub struct StorageError {
    pub kind: DatabaseError,
    pub message: &'static str,
}

impl StorageError {
    /// Builds a classified error carrying a descriptive message.
    pub fn new(kind: DatabaseError, message: &'static str) -> (e: StorageError)
        ensures
            e.kind == kind,
            e.message == message,
    {
        StorageError { kind, message }
    }
}

/// The outcome of a storage operation: a value, or a classified failure.
pub type StorageResult<T> = Result<T, StorageError>;

} // verus!
