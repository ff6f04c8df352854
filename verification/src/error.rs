//! The failure values that every fallible operation of this crate returns.

use vstd::prelude::*;

verus! {

/// A typed failure. Each variant carries a human-readable message; the
/// variant itself is the contract-relevant part.
#[derive(Debug)]
pub enum VcsError {
    /// A referenced object, ref, branch, or stash entry does not exist.
    NotFound(String),
    /// An attempt to create a branch that already has content.
    AlreadyExists(String),
    /// A self-merge, self-rebase, deletion of the current branch, or a
    /// malformed stash reference.
    InvalidArgument(String),
    /// A stored object whose header or length does not match its payload.
    CorruptObject(String),
    /// Malformed serialized data: bad headers, truncation, or invalid UTF-8.
    DecodeError(String),
    /// The workspace diverges from a stash being applied.
    Conflict(String),
}

impl VcsError {
    /// The human-readable message carried by the error.
    pub fn message(&self) -> (r: &String)
        ensures
            r@ == self.spec_message(),
    {
        match self {
            VcsError::NotFound(m) => m,
            VcsError::AlreadyExists(m) => m,
            VcsError::InvalidArgument(m) => m,
            VcsError::CorruptObject(m) => m,
            VcsError::DecodeError(m) => m,
            VcsError::Conflict(m) => m,
        }
    }

    /// The message as a mathematical value.
    pub open spec fn spec_message(&self) -> Seq<char> {
        match self {
            VcsError::NotFound(m) => m@,
            VcsError::AlreadyExists(m) => m@,
            VcsError::InvalidArgument(m) => m@,
            VcsError::CorruptObject(m) => m@,
            VcsError::DecodeError(m) => m@,
            VcsError::Conflict(m) => m@,
        }
    }
}

} // verus!
