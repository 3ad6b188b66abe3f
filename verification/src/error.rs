//! The ways in which an operation of the store fails.

use vstd::prelude::*;

verus! {

/// Why an operation was refused.
#[derive(Clone, Copy, Debug, PartialEq, Eq, Structural)]
pub enum StoreError {
    /// No collection has the name.
    CollectionNotFound,
    /// The collection holds no document under the identifier.
    ItemNotFound,
    /// The collection has no index of the name.
    IndexNotFound,
    /// The collection keeps no log, so there is nothing to compact.
    LogNotFound,
    /// A collection of the name exists already.
    CollectionConflict,
    /// The collection has an index of the name already.
    IndexConflict,
    /// The text of a document is not JSON.
    MalformedDocument,
    /// A line of the log is not a record: it is not JSON, or it carries no
    /// identifier. Lines are counted from zero.
    MalformedRecord { line: usize },
}

/// The broad kind of an error.
#[derive(Clone, Copy, Debug, PartialEq, Eq, Structural)]
pub enum ErrorKind {
    NotFound,
    Conflict,
    MalformedInput,
}

impl StoreError {
    /// The kind that the error belongs to.
    pub open spec fn spec_kind(self) -> ErrorKind {
        match self {
            StoreError::CollectionNotFound => ErrorKind::NotFound,
            StoreError::ItemNotFound => ErrorKind::NotFound,
            StoreError::IndexNotFound => ErrorKind::NotFound,
            StoreError::LogNotFound => ErrorKind::NotFound,
            StoreError::CollectionConflict => ErrorKind::Conflict,
            StoreError::IndexConflict => ErrorKind::Conflict,
            StoreError::MalformedDocument => ErrorKind::MalformedInput,
            StoreError::MalformedRecord { .. } => ErrorKind::MalformedInput,
        }
    }

    /// The kind that the error belongs to.
    #[verifier::when_used_as_spec(spec_kind)]
    pub fn kind(self) -> (kind: ErrorKind)
        ensures
            kind == self.spec_kind(),
    {
        match self {
            StoreError::CollectionNotFound => ErrorKind::NotFound,
            StoreError::ItemNotFound => ErrorKind::NotFound,
            StoreError::IndexNotFound => ErrorKind::NotFound,
            StoreError::LogNotFound => ErrorKind::NotFound,
            StoreError::CollectionConflict => ErrorKind::Conflict,
            StoreError::IndexConflict => ErrorKind::Conflict,
            StoreError::MalformedDocument => ErrorKind::MalformedInput,
            StoreError::MalformedRecord { .. } => ErrorKind::MalformedInput,
        }
    }
}

} // verus!
