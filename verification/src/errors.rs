//! Error taxonomy shared by every component: callers receive one of these
//! kinds, never a raw transport or storage error.

use vstd::prelude::*;

verus! {

/// The failure kinds an operation can report.
#[derive(Clone, Copy, Debug, PartialEq, Eq, Structural)]
pub enum FsError {
    /// A raw path contained a `..` segment (or an invalid name was given).
    PathTraversal,
    /// The file, folder, or user named by the request does not exist.
    NotFound,
    /// The actor lacks the right that the operation needs.
    PermissionDenied,
    /// No free name was found within the disambiguation bound.
    AlreadyExists,
    /// The target logical path is already taken.
    Conflict,
    /// A batch's summed size exceeds the configured maximum.
    TooLarge,
    /// The underlying byte store failed.
    StorageIO,
    /// A row vanished or changed in a way the operation cannot repair.
    Inconsistent,
}

/// The label that `FsError::label` returns for each kind.
pub open spec fn error_label(e: FsError) -> Seq<char> {
    match e {
        FsError::PathTraversal => "path traversal"@,
        FsError::NotFound => "not found"@,
        FsError::PermissionDenied => "permission denied"@,
        FsError::AlreadyExists => "already exists"@,
        FsError::Conflict => "conflict"@,
        FsError::TooLarge => "too large"@,
        FsError::StorageIO => "storage io"@,
        FsError::Inconsistent => "inconsistent"@,
    }
}

impl FsError {
    /// A short stable label for logging and API envelopes.
    pub fn label(&self) -> (r: &'static str)
        ensures
            r@ == error_label(*self),
    {
        match self {
            FsError::PathTraversal => "path traversal",
            FsError::NotFound => "not found",
            FsError::PermissionDenied => "permission denied",
            FsError::AlreadyExists => "already exists",
            FsError::Conflict => "conflict",
            FsError::TooLarge => "too large",
            FsError::StorageIO => "storage io",
            FsError::Inconsistent => "inconsistent",
        }
    }
}

} // verus!
