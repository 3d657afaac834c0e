//! Result vocabulary shared by the store and the generation step.

use vstd::prelude::*;

verus! {

/// How a store operation changed the tree, reported so that a caller can
/// render the right message.
#[derive(Clone, Copy, Debug, PartialEq, Eq, Structural)]
pub enum Outcome {
    /// `write` persisted a document where none existed.
    Created,
    /// `write` replaced an existing file.
    Updated,
    /// `delete` removed an existing file.
    Deleted,
    /// `delete` found nothing to remove.
    NoOp,
}

/// A candidate path could not be confined to the trusted root.
#[derive(Clone, Copy, Debug, PartialEq, Eq, Structural)]
pub enum PathError {
    /// The candidate escapes the root, either as an absolute path outside
    /// it or through `..` segments that climb past it.
    OutsideRoot,
}

/// A date string does not have the `YYYY-MM-DD` shape.
#[derive(Clone, Copy, Debug, PartialEq, Eq, Structural)]
pub enum DateError {
    Malformed,
}

/// The error taxonomy surfaced by store and generation operations.
#[derive(Clone, Copy, Debug, PartialEq, Eq, Structural)]
pub enum StoreError {
    /// No document exists for the requested date.
    NotFound,
    /// The date string does not parse into year/month/day.
    Malformed,
    /// A write found an identical existing document, or generation
    /// produced nothing.
    Conflict,
    /// An existing document failed to decode.
    Corrupt,
    /// A candidate path could not be safely confined to the storage root.
    PathViolation,
    /// Any other I/O, encode, or generator failure.
    Internal,
}

impl StoreError {
    /// The store-level error that reports a failed date parse.
    pub fn from_date_error(e: DateError) -> (r: StoreError)
        ensures
            r == StoreError::Malformed,
    {
        match e {
            DateError::Malformed => StoreError::Malformed,
        }
    }

    /// The store-level error that reports a failed path resolution:
    /// resolution failures are configuration errors, surfaced as an
    /// opaque internal failure.
    pub fn from_path_error(e: PathError) -> (r: StoreError)
        ensures
            r == StoreError::Internal,
    {
        match e {
            PathError::OutsideRoot => StoreError::Internal,
        }
    }
}

} // verus!
