//! The staged database writer: records a file's staged entry and the staged
//! directory entries of every ancestor directory, deduplicated through a
//! per-operation set of directories already seen.

use vstd::prelude::*;

verus! {

use vstd::hash_set::StringHashSet;
use crate::kvdb::KvDb;
use crate::model::{
    FileNode, StagedEntryStatus, StagedMerkleTreeNode, StagedNodeView, NodeView, MerkleTreeNode,
    DirNode,
};
use crate::paths::{
    ancestors_of, parent_of, path_parent, lemma_parent_shorter, lemma_ancestors_unfold,
    lemma_ancestors_shorter,
};

/// A staged entry that records a directory at the given path.
pub open spec fn is_staged_dir(v: StagedNodeView, path: Seq<char>) -> bool {
    v.status == StagedEntryStatus::Added && v.node == NodeView::Directory(path)
}

/// The discipline of the per-operation set: it only names directories whose
/// staged entry is already in place.
pub open spec fn seen_dirs_staged(
    seen: Set<Seq<char>>,
    staged: Map<Seq<char>, StagedMerkleTreeNode>,
) -> bool {
    forall|p: Seq<char>|
        #[trigger] seen.contains(p) ==> staged.contains_key(p) && is_staged_dir(staged[p]@, p)
}

/// Writes the staged directory entry for a path. Membership in the
/// per-operation set alone skips the write: a seen directory was staged
/// earlier in the operation.
pub fn add_dir_to_staged_db(
    staged_db: &mut KvDb<StagedMerkleTreeNode>,
    relative_path: &str,
    seen_dirs: &mut StringHashSet,
)
    requires
        old(staged_db).wf(),
        seen_dirs_staged(old(seen_dirs)@, old(staged_db)@),
    ensures
        final(staged_db).wf(),
        final(seen_dirs)@ == old(seen_dirs)@.insert(relative_path@),
        seen_dirs_staged(final(seen_dirs)@, final(staged_db)@),
        final(staged_db)@.contains_key(relative_path@) && is_staged_dir(
            final(staged_db)@[relative_path@]@,
            relative_path@,
        ),
        old(seen_dirs)@.contains(relative_path@) ==> final(staged_db)@ == old(staged_db)@,
        forall|k: Seq<char>|
            #![trigger final(staged_db)@.contains_key(k)]
            #![trigger final(staged_db)@[k]]
            k != relative_path@
                ==> (final(staged_db)@.contains_key(k) == old(staged_db)@.contains_key(k))
                && (old(staged_db)@.contains_key(k)
                    ==> final(staged_db)@[k] == old(staged_db)@[k]),
{
    if seen_dirs.contains(relative_path) {
        let _inserted = seen_dirs.insert(relative_path.to_owned());
        proof {
            assert(final(staged_db)@ =~= old(staged_db)@);
        }
        return;
    }
    let entry = StagedMerkleTreeNode::default_dir_from_path(relative_path);
    staged_db.put(relative_path.to_owned(), entry);
    let _inserted = seen_dirs.insert(relative_path.to_owned());
}

/// Writes the staged directory entries for a directory and all its
/// ancestors, down to the repository root.
pub fn stage_dir_and_ancestors(
    staged_db: &mut KvDb<StagedMerkleTreeNode>,
    dir: &str,
    seen_dirs: &mut StringHashSet,
)
    requires
        old(staged_db).wf(),
        seen_dirs_staged(old(seen_dirs)@, old(staged_db)@),
    ensures
        final(staged_db).wf(),
        seen_dirs_staged(final(seen_dirs)@, final(staged_db)@),
        forall|p: Seq<char>|
            #[trigger] final(seen_dirs)@.contains(p) ==> old(seen_dirs)@.contains(p) || p == dir@
                || ancestors_of(dir@).contains(p),
        final(staged_db)@.contains_key(dir@) && is_staged_dir(final(staged_db)@[dir@]@, dir@),
        forall|a: Seq<char>|
            #![trigger ancestors_of(dir@).contains(a)]
            ancestors_of(dir@).contains(a) ==> final(staged_db)@.contains_key(a) && is_staged_dir(
                final(staged_db)@[a]@,
                a,
            ),
        forall|k: Seq<char>|
            #![trigger final(staged_db)@.contains_key(k)]
            #![trigger final(staged_db)@[k]]
            k != dir@ && !ancestors_of(dir@).contains(k)
                ==> (final(staged_db)@.contains_key(k) == old(staged_db)@.contains_key(k))
                && (old(staged_db)@.contains_key(k)
                    ==> final(staged_db)@[k] == old(staged_db)@[k]),
    decreases dir@.len(),
{
    add_dir_to_staged_db(staged_db, dir, seen_dirs);
    if dir.unicode_len() == 0 {
        proof {
            assert(ancestors_of(dir@) =~= Seq::<Seq<char>>::empty());
        }
        return;
    }
    let ghost seen_mid = seen_dirs@;
    let parent = path_parent(dir);
    proof {
        lemma_parent_shorter(dir@);
    }
    let parent_str: &str = parent.as_str();
    proof {
        assert(parent_str@ == parent@);
    }
    stage_dir_and_ancestors(staged_db, parent_str, seen_dirs);
    proof {
        assert forall|p: Seq<char>| #[trigger] seen_dirs@.contains(p) implies old(
            seen_dirs,
        )@.contains(p) || p == dir@ || ancestors_of(dir@).contains(p) by {
            lemma_ancestors_unfold(dir@, p);
            if !seen_mid.contains(p) {
                assert(p == parent_str@ || ancestors_of(parent_str@).contains(p));
            }
        }
        assert(staged_db@.contains_key(parent_str@));
        assert(staged_db@.contains_key(parent@));
        assert(is_staged_dir(staged_db@[parent@]@, parent@));
        assert forall|a: Seq<char>| ancestors_of(dir@).contains(a) implies staged_db@.contains_key(
            a,
        ) && is_staged_dir(#[trigger] staged_db@[a]@, a) by {
            lemma_ancestors_unfold(dir@, a);
            if a != parent@ {
                assert(ancestors_of(parent_str@).contains(a));
                assert(staged_db@.contains_key(a) && is_staged_dir(staged_db@[a]@, a));
            }
        }
        assert(staged_db@.contains_key(dir@) && is_staged_dir(staged_db@[dir@]@, dir@)) by {
            lemma_parent_shorter(dir@);
            if ancestors_of(parent@).contains(dir@) {
                lemma_ancestors_shorter(parent@, dir@);
            }
        }
        assert forall|k: Seq<char>|
            k != dir@ && !ancestors_of(dir@).contains(k) implies (staged_db@.contains_key(k) == old(
            staged_db,
        )@.contains_key(k)) && (old(staged_db)@.contains_key(k)
            ==> staged_db@[k] == old(staged_db)@[k]) by {
            lemma_ancestors_unfold(dir@, k);
        }
    }
}

/// Writes a file's staged entry at its relative path, and a staged directory
/// entry for each of its ancestor directories, from its parent down to the
/// repository root.
///
/// Directory coverage: afterwards the staged database holds a directory
/// entry at every ancestor of the file's path, while no key outside the
/// file's path and its ancestors changes.
pub fn p_add_file_node_to_staged_db(
    staged_db: &mut KvDb<StagedMerkleTreeNode>,
    relative_path: &str,
    status: StagedEntryStatus,
    file_node: &FileNode,
    seen_dirs: &mut StringHashSet,
) -> (r: Option<StagedMerkleTreeNode>)
    requires
        old(staged_db).wf(),
        relative_path@.len() > 0,
        seen_dirs_staged(old(seen_dirs)@, old(staged_db)@),
        !old(seen_dirs)@.contains(relative_path@),
    ensures
        final(staged_db).wf(),
        seen_dirs_staged(final(seen_dirs)@, final(staged_db)@),
        forall|p: Seq<char>|
            #[trigger] final(seen_dirs)@.contains(p) ==> old(seen_dirs)@.contains(p)
                || ancestors_of(relative_path@).contains(p),
        final(staged_db)@.contains_key(relative_path@),
        final(staged_db)@[relative_path@]@ == (StagedNodeView {
            status,
            node: NodeView::File(file_node@),
        }),
        forall|a: Seq<char>|
            #![trigger ancestors_of(relative_path@).contains(a)]
            ancestors_of(relative_path@).contains(a) ==> final(staged_db)@.contains_key(a)
                && is_staged_dir(final(staged_db)@[a]@, a),
        forall|k: Seq<char>|
            #![trigger final(staged_db)@.contains_key(k)]
            #![trigger final(staged_db)@[k]]
            k != relative_path@ && !ancestors_of(relative_path@).contains(k)
                ==> (final(staged_db)@.contains_key(k) == old(staged_db)@.contains_key(k))
                && (old(staged_db)@.contains_key(k)
                    ==> final(staged_db)@[k] == old(staged_db)@[k]),
        r matches Some(e) && e@ == (StagedNodeView { status, node: NodeView::File(file_node@) }),
{
    let staged_file_node = StagedMerkleTreeNode {
        status,
        node: MerkleTreeNode::File(file_node.clone()),
    };
    let result = staged_file_node.clone();
    staged_db.put(relative_path.to_owned(), staged_file_node);

    let parent_path = path_parent(relative_path);
    proof {
        lemma_parent_shorter(relative_path@);
        assert(seen_dirs_staged(seen_dirs@, staged_db@));
    }
    let ghost seen_pre = seen_dirs@;
    let parent_str: &str = parent_path.as_str();
    stage_dir_and_ancestors(staged_db, parent_str, seen_dirs);
    proof {
        assert forall|p: Seq<char>| #[trigger] seen_dirs@.contains(p) implies old(
            seen_dirs,
        )@.contains(p) || ancestors_of(relative_path@).contains(p) by {
            lemma_ancestors_unfold(relative_path@, p);
            if !seen_pre.contains(p) {
                assert(p == parent_str@ || ancestors_of(parent_str@).contains(p));
            }
        }
        let whole = relative_path@;
        assert(staged_db@.contains_key(whole) && staged_db@[whole]@ == (StagedNodeView {
            status,
            node: NodeView::File(file_node@),
        })) by {
            lemma_parent_shorter(whole);
            if ancestors_of(parent_str@).contains(whole) {
                lemma_ancestors_shorter(parent_str@, whole);
            }
        }
        assert forall|a: Seq<char>|
            #![trigger ancestors_of(whole).contains(a)]
            ancestors_of(whole).contains(a) implies staged_db@.contains_key(a) && is_staged_dir(
            staged_db@[a]@,
            a,
        ) by {
            lemma_ancestors_unfold(whole, a);
            if a != parent_str@ {
                assert(ancestors_of(parent_str@).contains(a));
                assert(staged_db@.contains_key(a) && is_staged_dir(staged_db@[a]@, a));
            }
        }
        assert forall|k: Seq<char>|
            k != whole && !ancestors_of(whole).contains(k) implies (staged_db@.contains_key(k)
            == old(staged_db)@.contains_key(k)) && (old(staged_db)@.contains_key(k)
            ==> staged_db@[k] == old(staged_db)@[k]) by {
            lemma_ancestors_unfold(whole, k);
        }
    }
    Some(result)
}

/// An ancestor of an ancestor of a path is an ancestor of the path.
pub proof fn lemma_ancestors_in_chain(p: Seq<char>, m: Seq<char>, a: Seq<char>)
    requires
        ancestors_of(p).contains(m),
        ancestors_of(m).contains(a),
    ensures
        ancestors_of(p).contains(a),
    decreases p.len(),
{
    lemma_parent_shorter(p);
    lemma_ancestors_unfold(p, m);
    lemma_ancestors_unfold(p, a);
    if m == parent_of(p) {
    } else {
        lemma_ancestors_in_chain(parent_of(p), m, a);
    }
}

/// Writes one file's staged entry with a fresh per-operation set, as the
/// workspace writer does.
pub fn add_file_node_to_staged_db(
    staged_db: &mut KvDb<StagedMerkleTreeNode>,
    relative_path: &str,
    status: StagedEntryStatus,
    file_node: &FileNode,
) -> (r: Option<StagedMerkleTreeNode>)
    requires
        old(staged_db).wf(),
        relative_path@.len() > 0,
    ensures
        final(staged_db).wf(),
        final(staged_db)@.contains_key(relative_path@),
        final(staged_db)@[relative_path@]@ == (StagedNodeView {
            status,
            node: NodeView::File(file_node@),
        }),
        forall|a: Seq<char>|
            #![trigger ancestors_of(relative_path@).contains(a)]
            ancestors_of(relative_path@).contains(a) ==> final(staged_db)@.contains_key(a)
                && is_staged_dir(final(staged_db)@[a]@, a),
        forall|k: Seq<char>|
            #![trigger final(staged_db)@.contains_key(k)]
            #![trigger final(staged_db)@[k]]
            k != relative_path@ && !ancestors_of(relative_path@).contains(k)
                ==> (final(staged_db)@.contains_key(k) == old(staged_db)@.contains_key(k))
                && (old(staged_db)@.contains_key(k)
                    ==> final(staged_db)@[k] == old(staged_db)@[k]),
        r matches Some(e) && e@ == (StagedNodeView { status, node: NodeView::File(file_node@) }),
{
    let mut seen_dirs = StringHashSet::new();
    p_add_file_node_to_staged_db(staged_db, relative_path, status, file_node, &mut seen_dirs)
}

} // verus!
