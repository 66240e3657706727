//! The failures of the filesystem and of the mirror.

use vstd::prelude::*;

verus! {

/// Why a filesystem operation, or an operation of the mirror, failed.
#[derive(Debug, Clone, Copy, PartialEq, Eq, Structural)]
pub enum FsError {
    /// The path does not exist, or disappeared while it was being read.
    NotFound,
    /// The path exists but may not be read.
    PermissionDenied,
    /// A directory listing was asked of something that is no directory.
    NotADirectory,
    /// The sizes below a directory add up to more than a `u64` holds.
    TooLarge,
    /// Any other failure reported by the filesystem.
    Other,
}

} // verus!
