//! The library's error type.

use vstd::prelude::*;

verus! {

/// The single error type of the library: a human-readable description of
/// what went wrong.
#[derive(Debug)]
pub struct GitError(pub String);

pub type GitResult<T> = Result<T, GitError>;

impl GitError {
    /// The description carried by this error.
    pub fn message(&self) -> (r: &String)
        ensures
            r@ == self.0@,
    {
        &self.0
    }
}

} // verus!
