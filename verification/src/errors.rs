//! The error taxonomy shared by the workspace tree and the event ledger.

use vstd::prelude::*;

verus! {

/// Why an operation failed (or, for `DegradedDefault`, that a non-fatal
/// fallback was taken by a caller). Every failure is surfaced to the outermost
/// boundary as one of these; rendering to a display string happens outside the
/// core.
///
/// - `PathNotFound`: the operation targets a path that does not exist where
///   existence is required.
/// - `IoError`: a permission, encoding, cross-device or other OS-level
///   failure, carrying the underlying message.
/// - `StoreError`: a ledger open or query failure, carrying the message.
/// - `DegradedDefault`: not a failure of an operation in this core; reported
///   by callers that fell back to a default (home directory unresolved, so
///   the filesystem root was used).
#[derive(Debug)]
pub enum WsError {
    PathNotFound,
    IoError(String),
    StoreError(String),
    DegradedDefault,
}

impl WsError {
    /// True exactly on the `PathNotFound` variant; lets callers outside the
    /// core distinguish the missing-path case without matching.
    pub fn is_path_not_found(&self) -> (r: bool)
        ensures
            r == (self is PathNotFound),
    {
        match self {
            WsError::PathNotFound => true,
            _ => false,
        }
    }
}

} // verus!
