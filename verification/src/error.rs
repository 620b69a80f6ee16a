//! The errors of the library.

use vstd::prelude::*;

verus! {

/// An error of the engine.
#[derive(Debug)]
pub enum RwError {
    /// Something that should never happen did.
    InternalError(String),
    /// A row was written under a key under which an uncommitted row already stands.
    DoubleInsert,
    /// A row was deleted whose key had already been deleted and not yet committed.
    DoubleDelete,
    /// Storage failed.
    StorageError(Box<StorageError>),
}

/// An error of storage.
#[derive(Debug)]
pub enum StorageError {
    /// A state table refused a request.
    StateTable(RwError),
    /// The store itself failed.
    Store(String),
}

pub type RwResult<T> = Result<T, RwError>;

pub type StorageResult<T> = Result<T, StorageError>;

impl From<StorageError> for RwError {
    fn from(error: StorageError) -> (converted: Self) {
        RwError::StorageError(Box::new(error))
    }
}

impl vstd::std_specs::convert::FromSpecImpl<StorageError> for RwError {
    open spec fn obeys_from_spec() -> bool {
        true
    }

    open spec fn from_spec(error: StorageError) -> Self {
        RwError::StorageError(Box::new(error))
    }
}

/// The error of storage that an error of the engine becomes inside a state table.
pub fn err(rw: RwError) -> (error: StorageError)
    ensures
        error == StorageError::StateTable(rw),
{
    StorageError::StateTable(rw)
}

/// An error of storage is handed on whole, as an error of the engine.
pub proof fn lemma_error_is_handed_on(error: StorageError, converted: RwError)
    requires
        call_ensures(<RwError as From<StorageError>>::from, (error,), converted),
    ensures
        converted == RwError::StorageError(Box::new(error)),
{
}

} // verus!
