//! The error kinds the repository core raises.

use vstd::prelude::*;

verus! {

/// A tagged error of the repository core.
#[derive(Debug)]
pub enum OxenError {
    /// A stash can only be saved while a branch is checked out.
    MustBeOnBranchToStash,
    /// A stash operation found no stash at all.
    NoStashesFound,
    /// No stash slot matches the given identifier.
    StashIdNotFound(String),
    /// A stash commit carries no base parent.
    CorruptStashCommit(String),
    /// A ref names a commit the commit store does not hold.
    CommitIdDoesNotExist(String),
    /// Applying a stash produced conflicts; the working tree is left in the
    /// conflict state.
    MergeConflict(String),
    /// An add path looked like a glob but is no well-formed pattern.
    InvalidGlobPattern(String),
}

} // verus!
