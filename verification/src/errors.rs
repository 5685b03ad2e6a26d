//! The error kinds the reconciliation engine reports.
//!
//! Every error carries the path or paths involved.  Contracts speak of
//! errors through their view, so that a caller knows not only that a call
//! failed but exactly which error it received and on which input.

use vstd::prelude::*;

verus! {

/// An error of the reconciliation engine.
#[derive(Debug)]
pub enum Error {
    /// An entry that was expected to exist is missing.
    NotFound { path: String },
    /// A destination is occupied by an entry that is in the way.
    AlreadyExists { path: String },
    /// A pattern's glob syntax is invalid.
    Pattern { pattern: String },
    /// A move of an entry failed.
    Move { from: String, to: String },
    /// Creation of a symbolic link failed.
    Symlink { from: String, to: String },
    /// Removal of an entry failed.
    Delete { path: String },
    /// A directory could not be traversed during a walk.
    Traversal { path: String },
}

/// The mathematical value of an [`Error`].
pub enum ErrorV {
    NotFound { path: Seq<char> },
    AlreadyExists { path: Seq<char> },
    Pattern { pattern: Seq<char> },
    Move { from: Seq<char>, to: Seq<char> },
    Symlink { from: Seq<char>, to: Seq<char> },
    Delete { path: Seq<char> },
    Traversal { path: Seq<char> },
}

impl View for Error {
    type V = ErrorV;

    open spec fn view(&self) -> ErrorV {
        match self {
            Error::NotFound { path } => ErrorV::NotFound { path: path@ },
            Error::AlreadyExists { path } => ErrorV::AlreadyExists { path: path@ },
            Error::Pattern { pattern } => ErrorV::Pattern { pattern: pattern@ },
            Error::Move { from, to } => ErrorV::Move { from: from@, to: to@ },
            Error::Symlink { from, to } => ErrorV::Symlink { from: from@, to: to@ },
            Error::Delete { path } => ErrorV::Delete { path: path@ },
            Error::Traversal { path } => ErrorV::Traversal { path: path@ },
        }
    }
}

} // verus!
