//! Error taxonomy of the room subsystem.

use vstd::prelude::*;

verus! {

/// Failure of the underlying storage driver itself; the driver's own error
/// is carried as a rendered message.
#[derive(Debug, Clone)]
pub enum StorageError {
    Internal { source: String },
}

/// Errors surfaced by the storage interface and the room manager.
#[derive(Debug, Clone)]
pub enum Error {
    /// The room has no persisted record.
    NotFound,
    /// `create_room` on an existing room.
    AlreadyExists,
    /// Empty batch, or a sequence allocation that would overflow.
    InvalidArgument(String),
    /// Wrapped failure of the storage backend.
    StorageError(StorageError),
    /// A malformed CRDT update blob was met during replay.
    DecodingError,
    /// Wrapped failure of the underlying storage driver.
    Backend { source: String },
}

impl From<StorageError> for Error {
    fn from(value: StorageError) -> (r: Self) {
        Error::StorageError(value)
    }
}

impl vstd::std_specs::convert::FromSpecImpl<StorageError> for Error {
    open spec fn obeys_from_spec() -> bool {
        true
    }

    open spec fn from_spec(value: StorageError) -> Self {
        Error::StorageError(value)
    }
}

} // verus!
