//! What the file-system helpers report when they fail.

use vstd::prelude::*;

verus! {

/// `std::io::ErrorKind`, carried through unread.
#[verifier::external_type_specification]
#[verifier::external_body]
pub struct ExIoErrorKind(std::io::ErrorKind);

/// The class of a file-system failure.
#[derive(Debug)]
pub enum ErrorKind {
    IoError(std::io::ErrorKind),
    SearchError(SearchErrorKind),
    Other,
}

/// Why a search in a file's content failed.
#[derive(Debug)]
pub enum SearchErrorKind {
    NotFound,
}

/// A file-system failure.
#[derive(Debug)]
pub struct Error {
    pub kind: ErrorKind,
}

impl Error {
    /// A failure of the given kind.
    pub fn new(kind: ErrorKind) -> (r: Self)
        ensures
            r.kind == kind,
    {
        Error { kind }
    }
}

} // verus!
