//! The error codes that the filesystem operations reply with.

use vstd::prelude::*;

verus! {

/// A POSIX error number, by name. Callers map each to the platform's value.
#[derive(Clone, Copy, Debug, PartialEq, Eq, Structural)]
pub enum Errno {
    /// No such file or directory.
    ENOENT,
    /// Not a directory.
    ENOTDIR,
    /// Is a directory.
    EISDIR,
    /// File exists.
    EEXIST,
    /// Directory not empty.
    ENOTEMPTY,
    /// Permission denied.
    EACCES,
    /// Operation not permitted.
    EPERM,
    /// Function not implemented.
    ENOSYS,
    /// Invalid argument.
    EINVAL,
    /// Operation not supported.
    EOPNOTSUPP,
    /// Bad file descriptor.
    EBADF,
    /// No such device.
    ENODEV,
}

} // verus!
