//! The errors that the operations on the arena report.
use vstd::prelude::*;

verus! {

/// What an operation on the arena can refuse.
#[derive(Clone, Copy, Debug, PartialEq, Eq)]
pub enum Error {
    /// The node that was to be attached has a parent or siblings: it is not
    /// the root of a tree of its own.
    NotAFreeNode,
}

} // verus!
