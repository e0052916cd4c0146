//! Errors raised while scanning storage for repositories or opening one.

use vstd::prelude::*;

verus! {

/// `std::io::Error`, carried unchanged from the directory read that failed.
/// Declared so that library types can hold it; nothing is assumed of its
/// contents.
#[verifier::external_type_specification]
#[verifier::external_body]
pub struct ExIoError(std::io::Error);

/// Why a repository could not be scanned or opened.
#[derive(Debug)]
pub enum GitError {
    /// The repository at `path` could not be opened; `message` describes
    /// the underlying error.
    Open { path: String, message: String },
    /// Reading the directory `path` failed.
    Scan { path: String, source: std::io::Error },
}

/// The mathematical content of a [`GitError`].
pub enum GitErrorView {
    Open { path: Seq<char>, message: Seq<char> },
    Scan { path: Seq<char>, source: std::io::Error },
}

impl View for GitError {
    type V = GitErrorView;

    open spec fn view(&self) -> GitErrorView {
        match self {
            GitError::Open { path, message } => GitErrorView::Open { path: path@, message: message@ },
            GitError::Scan { path, source } => GitErrorView::Scan { path: path@, source: *source },
        }
    }
}

} // verus!
