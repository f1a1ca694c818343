//! Failure cases for tree operations.

use vstd::prelude::*;

verus! {

/// Possible failures for tree operations.
#[derive(Debug, Copy, Clone, PartialEq, Eq, Structural)]
pub enum Error {
    /// The key does not currently identify a live node.
    Missing,
    /// The node cannot be borrowed as requested.
    CantBorrow,
}

impl Error {
    /// A short description of the failure.
    pub fn message(&self) -> (r: &'static str)
        ensures
            *self is Missing ==> r@ == "tree missing expected node"@,
            *self is CantBorrow ==> r@ == "tree node is already borrowed incompatibly"@,
    {
        match self {
            Error::Missing => "tree missing expected node",
            Error::CantBorrow => "tree node is already borrowed incompatibly",
        }
    }
}

} // verus!
