use vstd::prelude::*;

verus! {

pub const ENOENT: i32 = 2;
pub const EIO: i32 = 5;
pub const EBADF: i32 = 9;
pub const EEXIST: i32 = 17;
pub const ENOTDIR: i32 = 20;
pub const EISDIR: i32 = 21;
pub const EINVAL: i32 = 22;
pub const ENOSPC: i32 = 28;
pub const ENOTEMPTY: i32 = 39;

/// Why an operation failed. Each kind answers to one POSIX error number.
#[derive(Clone, Copy, Debug, PartialEq, Eq, Structural)]
pub enum Error {
    /// The name is not among the parent's children, or the block is no node.
    NotFound,
    /// The disk failed, or what it holds cannot be a filesystem structure.
    Io,
    /// The handle's flags or its kind do not allow the operation.
    BadFile,
    /// A create on a name that is taken.
    Exists,
    /// A directory operation on something that is no directory.
    NotDir,
    /// A file operation on a directory.
    IsDir,
    /// A bad argument, or an image whose header is not one of ours.
    Invalid,
    /// The free list cannot satisfy the request.
    NoSpace,
    /// A directory that still has children was to be removed.
    NotEmpty,
}

impl Error {
    pub open spec fn spec_errno(self) -> i32 {
        match self {
            Error::NotFound => ENOENT,
            Error::Io => EIO,
            Error::BadFile => EBADF,
            Error::Exists => EEXIST,
            Error::NotDir => ENOTDIR,
            Error::IsDir => EISDIR,
            Error::Invalid => EINVAL,
            Error::NoSpace => ENOSPC,
            Error::NotEmpty => ENOTEMPTY,
        }
    }

    /// The POSIX error number of this kind.
    #[verifier::when_used_as_spec(spec_errno)]
    pub fn errno(self) -> (r: i32)
        ensures
            r == self.spec_errno(),
    {
        match self {
            Error::NotFound => ENOENT,
            Error::Io => EIO,
            Error::BadFile => EBADF,
            Error::Exists => EEXIST,
            Error::NotDir => ENOTDIR,
            Error::IsDir => EISDIR,
            Error::Invalid => EINVAL,
            Error::NoSpace => ENOSPC,
            Error::NotEmpty => ENOTEMPTY,
        }
    }

    /// The kind that a POSIX error number stands for, if it is one of ours.
    pub fn from_errno(errno: i32) -> (r: Option<Error>)
        ensures
            match r {
                Some(e) => e.spec_errno() == errno,
                None => forall|e: Error| e.spec_errno() != errno,
            },
    {
        if errno == ENOENT {
            Some(Error::NotFound)
        } else if errno == EIO {
            Some(Error::Io)
        } else if errno == EBADF {
            Some(Error::BadFile)
        } else if errno == EEXIST {
            Some(Error::Exists)
        } else if errno == ENOTDIR {
            Some(Error::NotDir)
        } else if errno == EISDIR {
            Some(Error::IsDir)
        } else if errno == EINVAL {
            Some(Error::Invalid)
        } else if errno == ENOSPC {
            Some(Error::NoSpace)
        } else if errno == ENOTEMPTY {
            Some(Error::NotEmpty)
        } else {
            None
        }
    }
}

} // verus!
