//! What can go wrong while a request is answered.

use vstd::prelude::*;

verus! {

/// Why a request failed.
#[derive(Clone, Copy, PartialEq, Eq, Structural, Debug)]
pub enum FlounderError {
    /// Something failed on the host.
    MiscError,
    /// The request needs someone signed in.
    UnauthorizedError,
}

impl FlounderError {
    /// The HTTP status that answers a request that failed this way: 403
    /// where it needs someone signed in, else 500.
    pub fn status(&self) -> (code: u16)
        ensures
            code == (if *self is UnauthorizedError {
                403u16
            } else {
                500u16
            }),
    {
        match self {
            FlounderError::UnauthorizedError => 403,
            FlounderError::MiscError => 500,
        }
    }
}

} // verus!
