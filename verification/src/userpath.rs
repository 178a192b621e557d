//! A directory path given by the user, after expansion and checking.
//!
//! Expanding `~` and environment variables, canonicalizing, and testing
//! that the path is a directory all touch the environment, so they happen
//! in the surrounding application; the library holds the resulting path as
//! plain text.

use vstd::prelude::*;

verus! {

/// A user-supplied path that was expanded, canonicalized and confirmed to
/// be a directory.
pub struct UserDir {
    pub path: String,
}

impl UserDir {
    pub fn new(path: String) -> (r: UserDir)
        ensures
            r.path == path,
    {
        UserDir { path }
    }
}

/// Why a user-supplied path was rejected.
pub enum UserDirErr {
    /// `~` or a variable could not be expanded; the message says why.
    ShellExpandError(String),
    /// The path could not be canonicalized; the message says why.
    CanonicalizeError(String),
    /// The path exists but is not a directory.
    NotDirectory,
}

impl UserDirErr {
    /// A short description for display.
    pub fn message(&self) -> (r: String)
        ensures
            self is ShellExpandError ==> r == self->ShellExpandError_0,
            self is CanonicalizeError ==> r == self->CanonicalizeError_0,
            self is NotDirectory ==> r@ == "Path is not a directory."@,
    {
        match self {
            UserDirErr::ShellExpandError(m) => m.clone(),
            UserDirErr::CanonicalizeError(m) => m.clone(),
            UserDirErr::NotDirectory => "Path is not a directory.".to_owned(),
        }
    }
}

} // verus!
