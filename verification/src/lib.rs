//! Local repository core of a content-addressed, Merkle-tree-based version
//! control system for large datasets.
//!
//! The crate models the repository state (working tree, refs, commits, staged
//! database, merge-conflict database, and the content-addressed version store)
//! as plain values, and verifies the engines that operate on that state: the
//! add pipeline, the stash subsystem (both the ref-backed stack and the
//! copy-tree variant), and the merge-conflict reader.

pub mod hash;
pub mod paths;
pub mod strings;
pub mod kvdb;
pub mod model;
pub mod version_store;
pub mod tree;
pub mod conflicts;
pub mod staged;
pub mod add;
pub mod errors;
pub mod repo;
pub mod stash;
pub mod copy_stash;
