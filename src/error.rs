//! Why a store operation was refused.
use vstd::prelude::*;

verus! {

/// The failures a store operation can report.
#[derive(Clone, Copy, Debug, PartialEq, Eq, Structural)]
pub enum StoreError {
    /// A row with the same key (or the same unique value) already exists.
    Duplicate,
    /// A reference names a row that does not exist, or a row to be removed
    /// is still referenced.
    ForeignKeyViolation,
    /// A row that the operation reads back is not there.
    NotFound,
}

impl StoreError {
    /// A human-readable description of the failure.
    pub fn message(&self) -> String {
        match self {
            StoreError::Duplicate => String::from_str("UNIQUE constraint failed"),
            StoreError::ForeignKeyViolation => String::from_str("FOREIGN KEY constraint failed"),
            StoreError::NotFound => String::from_str("the requested row was not found"),
        }
    }
}

} // verus!
