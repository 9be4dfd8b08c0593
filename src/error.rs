//! The failures that the repository's operations report.
use vstd::prelude::*;

verus! {

/// Why an operation did not succeed.
#[derive(Clone, Copy, Debug, PartialEq, Eq, Structural)]
pub enum RepoError {
    /// The identifier or the payload is malformed; nothing was touched.
    BadRequest,
    /// The identifier is well formed, but nothing is stored under it.
    NotFound,
    /// The upload is larger than the store accepts; nothing was written.
    TooLarge,
    /// A blob could not be written, read or removed.
    IoError,
    /// The collection refused the write.
    StoreError,
}

} // verus!
