//! The errors that store operations report.
use vstd::prelude::*;

verus! {

/// Why a store operation failed.
#[derive(Debug, Clone, Copy, PartialEq, Eq, Structural)]
pub enum StoreError {
    /// A disk or permission failure in the index or the blob store.
    Io,
    /// No blob is stored under the requested hash.
    NotFound,
    /// A blob's bytes do not match the hash it is stored under.
    Integrity,
    /// An index record cannot be decoded.
    Decode,
    /// A hash argument is not a well-formed integrity descriptor.
    Parse,
    /// Every id above the last one issued is taken.
    IdsExhausted,
}

} // verus!
