//! The failures that a listing or a resolution can end in.
use vstd::prelude::*;

verus! {

/// `std::io::Error`, carried through as the cause of a failure. Nothing is
/// claimed of what is inside.
#[verifier::external_type_specification]
#[verifier::external_body]
pub struct ExIoError(std::io::Error);

/// Why a listing or a resolution failed: the path concerned, and the cause.
#[derive(Debug)]
pub enum LsblkError {
    /// A directory exists but cannot be listed.
    ReadDir(String, std::io::Error),
    /// A symbolic link cannot be resolved to a canonical path.
    BadSymlink(String, std::io::Error),
    /// A file cannot be opened.
    ReadFile(String, std::io::Error),
}

/// What an [`LsblkError`] says: its kind, the path as characters, the cause.
pub enum Failure {
    ReadDir(Seq<char>, std::io::Error),
    BadSymlink(Seq<char>, std::io::Error),
    ReadFile(Seq<char>, std::io::Error),
}

impl View for LsblkError {
    type V = Failure;

    open spec fn view(&self) -> Failure {
        match *self {
            LsblkError::ReadDir(p, e) => Failure::ReadDir(p@, e),
            LsblkError::BadSymlink(p, e) => Failure::BadSymlink(p@, e),
            LsblkError::ReadFile(p, e) => Failure::ReadFile(p@, e),
        }
    }
}

} // verus!
