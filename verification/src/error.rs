//! Error kinds reported by filesystem operations.

use vstd::prelude::*;

verus! {

/// The error kinds that volume, directory and file operations return.
#[derive(Clone, Copy, Debug, PartialEq, Eq, Structural)]
pub enum Error {
    /// No directory entry matched the requested name.
    NotFound,
    /// An illegal file name, a negative seek, or a seek from the end of a
    /// stream whose size is unknown.
    InvalidInput,
    /// A read or write fell outside the volume image.
    UnexpectedEof,
    /// A directory that still holds entries other than `.` and `..` was
    /// asked to be removed.
    DirectoryNotEmpty,
    /// The free-cluster scan exhausted the volume without finding a free
    /// cluster.
    NoSpace,
}

} // verus!
