//! The error taxonomy shared by the catalog index, the storage layer and the
//! preview pipeline: invalid input is rejected synchronously, unknown ids are
//! reported as such, and everything else is an internal failure.

use vstd::prelude::*;

verus! {

/// The outcome taxonomy of every fallible operation of the library.
#[derive(Debug, Clone)]
pub enum Error {
    /// An input/output failure reported by a collaborator.
    IO(String),
    /// An internal failure: a collaborator failed or a backend invariant
    /// was violated.
    Internal(String),
    /// The caller handed an argument that is rejected synchronously,
    /// e.g. an empty movie title.
    InvalidArgument(String),
    /// The requested movie id is not in the index.
    NotFound(String),
}

impl Error {
    /// The human-readable detail carried by the error.
    pub fn message(&self) -> (r: &String)
        ensures
            r@ == self.message_spec(),
    {
        match self {
            Error::IO(m) => m,
            Error::Internal(m) => m,
            Error::InvalidArgument(m) => m,
            Error::NotFound(m) => m,
        }
    }

    /// The detail text of the error, whatever its kind.
    pub open spec fn message_spec(self) -> Seq<char> {
        match self {
            Error::IO(m) => m@,
            Error::Internal(m) => m@,
            Error::InvalidArgument(m) => m@,
            Error::NotFound(m) => m@,
        }
    }
}

} // verus!
