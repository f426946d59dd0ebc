//! What the library reads of an I/O failure.
use vstd::prelude::*;

verus! {

/// The kinds of I/O failure the library tells apart.
#[derive(Debug, Clone, Copy, PartialEq, Eq, Structural)]
pub enum IoErrorKind {
    PermissionDenied,
    Other,
}

/// An I/O failure: its kind and its message.
#[derive(Debug, Clone, PartialEq, Eq)]
pub struct IoError {
    pub kind: IoErrorKind,
    pub message: String,
}

} // verus!
