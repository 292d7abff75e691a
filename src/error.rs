//! The ways an update run can fail.
use vstd::prelude::*;

verus! {

/// Why a request could not be carried out.
#[derive(Debug, Clone, PartialEq, Eq)]
pub enum SyncError {
    /// A file could not be read or written, or a directory listed.
    Io { path: String },
    /// A manifest's content is not a valid manifest.
    Parse { path: String },
    /// A vendor-relative path names fewer than two segments.
    InvalidRequest { path: String },
    /// A manifest could not be encoded.
    Serialize,
}

} // verus!
