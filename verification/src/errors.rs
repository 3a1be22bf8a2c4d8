//! The failure taxonomy of the storage engine.

use vstd::prelude::*;

verus! {

/// A typed failure surfaced by a storage operation.
///
/// Validation failures (`InvalidName`) are raised before any state is
/// touched; every operation that returns an error leaves the engine
/// unchanged.
#[derive(Clone, Copy, Debug, PartialEq, Eq, Structural)]
pub enum StorageError {
    /// The named bucket does not exist.
    NoSuchBucket,
    /// The addressed object does not exist.
    NoSuchKey,
    /// A bucket of that name already exists.
    AlreadyExists,
    /// The bucket still holds objects and cannot be deleted.
    BucketNotEmpty,
    /// A bucket name or key is malformed, would escape the storage root,
    /// or would make a key both a leaf object and a directory prefix.
    InvalidName,
    /// A requested byte range cannot be satisfied by the object.
    InvalidRange,
    /// A listed part is missing or its checksum does not match.
    InvalidPart,
    /// The part numbers of a completion request are not strictly increasing.
    InvalidPartOrder,
    /// The upload id is unknown or the upload was already finalized.
    NoSuchUpload,
    /// The underlying medium failed; here only raised when the upload id
    /// space is exhausted.
    IoFailure,
    /// Metadata and bytes disagree; never produced by the engine itself,
    /// reserved for integrity checks by callers that persist the state.
    InternalInconsistency,
}

} // verus!
