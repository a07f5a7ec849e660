//! The failure taxonomy of the store and its surroundings.

use vstd::prelude::*;

verus! {

/// Why a store operation, or the persistence around it, failed. Every
/// failure is per-operation and recoverable; none is fatal to the process.
#[derive(Clone, Copy, Debug, PartialEq, Eq, Structural)]
pub enum StoreError {
    /// An id or compiler-key lookup missed.
    NotFound,
    /// A compiler key was added twice.
    AlreadyExists,
    /// A file was of no recognized project kind.
    Unsupported,
    /// A rank was malformed, or `between` was called on unordered inputs.
    InvalidRank,
    /// The exclusive file lock was not obtained within the retry bound.
    LockTimeout,
    /// Reading, writing or encoding the persisted file failed.
    IoFailure,
}

} // verus!
