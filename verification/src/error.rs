//! What the library reports when an operation fails.

use vstd::prelude::*;

verus! {

/// `std::io::Error`, carried through unread.
#[verifier::external_type_specification]
#[verifier::external_body]
pub struct ExIoError(std::io::Error);

/// `std::path::PathBuf`, carried through unread.
#[verifier::external_type_specification]
#[verifier::external_body]
pub struct ExPathBuf(std::path::PathBuf);

/// `std::string::FromUtf8Error`, carried through unread.
#[verifier::external_type_specification]
#[verifier::external_body]
pub struct ExFromUtf8Error(std::string::FromUtf8Error);

/// A failure of the buffered I/O layer or of a collaborator around it.
#[derive(Debug)]
pub enum Error {
    /// The file-system walker failed.
    FileSystemError(FileSystemError),
    /// The target reported an I/O failure; it is passed on unchanged.
    Io(std::io::Error),
    /// A call to the target exceeded its configured bound.
    Timeout,
    /// Something that should not happen did, such as a worker that died.
    Internal(String),
}

/// A failure of the file-system walker.
#[derive(Debug)]
pub enum FileSystemError {
    PathNotFound(std::path::PathBuf),
    SearchError(String),
    FileClosed { name: String },
    InvalidUtf8(std::string::FromUtf8Error),
    MaxDepthExceeded(u64),
    PermissionDenied,
}

impl Error {
    /// Whether the failure is a timeout.
    pub fn is_timeout(&self) -> (b: bool)
        ensures
            b == (self is Timeout),
    {
        match self {
            Error::Timeout => true,
            _ => false,
        }
    }
}

} // verus!
