//! The local repository state: working tree, staged database, conflict
//! database, version store, refs, commits and their trees.

use vstd::prelude::*;

verus! {

use crate::kvdb::KvDb;
use crate::model::{WorkingFile, StagedMerkleTreeNode, NodeMergeConflict, Commit};
use crate::version_store::VersionStore;
use crate::tree::Tree;
use crate::paths::ancestors_of;

/// A local repository, modelled as plain state: the engines of this crate
/// are functions over it. The surrounding program loads this state from
/// disk and writes it back.
pub struct LocalRepository {
    /// The working tree: file contents and modification times by path.
    pub working: KvDb<WorkingFile>,
    /// The staged database.
    pub staged: KvDb<StagedMerkleTreeNode>,
    /// The merge-conflict database.
    pub conflicts: KvDb<NodeMergeConflict>,
    /// The content-addressed blob store.
    pub versions: VersionStore,
    /// Refs: a ref name points at a commit id.
    pub refs: KvDb<String>,
    /// Commits by id.
    pub commits: KvDb<Commit>,
    /// Each commit's tree, by commit id.
    pub trees: KvDb<Tree>,
    /// The id of the current head commit.
    pub head_commit_id: String,
    /// The currently checked-out branch, if any.
    pub current_branch: Option<String>,
    /// The configured author recorded on commits this repository writes.
    pub author: String,
}

/// Working-tree keys are nonempty relative paths, no key lies under another
/// key, and every file fits the recorded size.
pub open spec fn working_wf(w: Map<Seq<char>, WorkingFile>) -> bool {
    &&& forall|k: Seq<char>|
        #[trigger] w.contains_key(k) ==> k.len() > 0 && k[0] != '/' && w[k].bytes@.len()
            <= u64::MAX
    &&& forall|k1: Seq<char>, k2: Seq<char>|
        w.contains_key(k1) && w.contains_key(k2) ==> !ancestors_of(k1).contains(k2)
}

impl LocalRepository {
    /// Exactly the stash slots below `n` exist among the refs.
    pub open spec fn stash_slots_exactly(&self, n: int) -> bool {
        forall|i: int|
            0 <= i ==> (self.refs@.contains_key(#[trigger] crate::stash::stash_ref_spec(i)) <==> i
                < n)
    }

    /// Room for one more stash slot below the machine limit.
    pub open spec fn stash_has_capacity(&self) -> bool {
        exists|n: int| 0 <= n < u64::MAX && self.stash_slots_exactly(n)
    }

    /// The structural invariant of a repository.
    pub open spec fn wf(&self) -> bool {
        &&& self.working.wf()
        &&& self.staged.wf()
        &&& self.conflicts.wf()
        &&& self.versions.wf()
        &&& self.refs.wf()
        &&& self.commits.wf()
        &&& self.trees.wf()
        &&& forall|id: Seq<char>|
            #[trigger] self.commits@.contains_key(id) ==> self.commits@[id]@.id == id
        &&& forall|id: Seq<char>|
            #[trigger] self.commits@.contains_key(id) ==> self.trees@.contains_key(id)
        &&& forall|id: Seq<char>| #[trigger] self.trees@.contains_key(id) ==> self.trees@[id].wf()
        &&& self.commits@.contains_key(self.head_commit_id@)
        &&& forall|rn: Seq<char>|
            #[trigger] self.refs@.contains_key(rn) ==> self.commits@.contains_key(self.refs@[rn]@)
        &&& exists|n: int| 0 <= n <= u64::MAX && self.stash_slots_exactly(n)
        &&& forall|id: Seq<char>, k: Seq<char>|
            self.trees@.contains_key(id) && (#[trigger] self.trees@[id].files@.contains_key(k))
                ==> self.versions.contents().contains_key(self.trees@[id].files@[k]@.hash)
    }

    /// The head commit's tree.
    pub open spec fn head_tree(&self) -> Tree
        recommends
            self.trees@.contains_key(self.head_commit_id@),
    {
        self.trees@[self.head_commit_id@]
    }
}

} // verus!
