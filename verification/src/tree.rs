//! The Merkle tree reader: the file entries a commit points at, looked up by
//! relative path, and directory nodes materialized with one level of
//! children.

use vstd::prelude::*;

verus! {

use crate::kvdb::KvDb;
use crate::model::{FileNode, FileNodeView, MerkleTreeNode, DirNode};
use crate::paths::{
    parent_of, file_name_of, join_path, no_slash, lemma_join_parent_name, lemma_parent_of_join,
    lemma_file_name_no_slash, path_parent, path_file_name,
};

/// The tree of one commit: its file leaves, keyed by path relative to the
/// repository root.
pub struct Tree {
    pub files: KvDb<FileNode>,
}

impl Tree {
    /// A file entry's key is its node's name: a nonempty relative path that
    /// does not start with a separator.
    pub open spec fn wf(&self) -> bool {
        &&& self.files.wf()
        &&& forall|k: Seq<char>|
            self.files@.contains_key(k) ==> (#[trigger] self.files@[k])@.name == k && k.len() > 0
                && k[0] != '/'
        &&& forall|k1: Seq<char>, k2: Seq<char>|
            #![trigger self.files@.contains_key(k1), self.files@.contains_key(k2)]
            self.files@.contains_key(k1) && self.files@.contains_key(k2)
                ==> !crate::paths::ancestors_of(k1).contains(k2)
    }

    /// The file entries by path.
    pub open spec fn files_view(&self) -> Map<Seq<char>, FileNodeView> {
        self.files@.map_values(|n: FileNode| n@)
    }

    /// Whether a path names a directory of the tree: the root when the tree
    /// is nonempty, or any proper prefix that some entry lies under.
    pub open spec fn is_dir_path(&self, d: Seq<char>) -> bool {
        exists|k: Seq<char>|
            #[trigger] self.files@.contains_key(k) && crate::paths::ancestors_of(k).contains(d)
    }

    /// Creates an empty tree.
    pub fn new() -> (r: Self)
        ensures
            r.wf(),
            r.files@ == Map::<Seq<char>, FileNode>::empty(),
    {
        Tree { files: KvDb::new() }
    }

    /// Records a file leaf under its own name.
    pub fn put_file(&mut self, node: FileNode)
        requires
            old(self).wf(),
            node.name@.len() > 0,
            node.name@[0] != '/',
            forall|k: Seq<char>|
                #[trigger] old(self).files@.contains_key(k) ==> !crate::paths::ancestors_of(
                    k,
                ).contains(node.name@) && !crate::paths::ancestors_of(node.name@).contains(k),
        ensures
            final(self).wf(),
            final(self).files@ == old(self).files@.insert(node@.name, node),
    {
        let key = node.name.clone();
        let ghost name = node.name@;
        self.files.put(key, node);
        proof {
            assert forall|k1: Seq<char>, k2: Seq<char>|
                self.files@.contains_key(k1) && self.files@.contains_key(k2)
                    implies !crate::paths::ancestors_of(k1).contains(k2) by {
                if k1 == name && k2 == name {
                    if crate::paths::ancestors_of(k1).contains(k2) {
                        crate::paths::lemma_ancestors_shorter(k1, k2);
                    }
                } else if k1 == name {
                    assert(old(self).files@.contains_key(k2));
                } else if k2 == name {
                    assert(old(self).files@.contains_key(k1));
                } else {
                    assert(old(self).files@.contains_key(k1));
                    assert(old(self).files@.contains_key(k2));
                }
            }
        }
    }

    /// The file entry at a path, if any.
    pub fn get_file<'a>(&'a self, path: &str) -> (r: Option<&'a FileNode>)
        ensures
            match r {
                Some(n) => self.files@.contains_key(path@) && n@ == self.files@[path@]@,
                None => !self.files@.contains_key(path@),
            },
    {
        self.files.get(path)
    }
}

/// A directory node of a commit tree with its direct file children loaded,
/// keyed by file name.
pub struct DirNodeWithChildren {
    pub path: String,
    pub children: KvDb<FileNode>,
}

impl DirNodeWithChildren {
    /// The children are exactly the tree entries directly under `path`.
    pub open spec fn matches_tree(&self, tree_files: Map<Seq<char>, FileNode>) -> bool {
        &&& forall|f: Seq<char>|
            #[trigger] self.children@.contains_key(f) ==> no_slash(f) && tree_files.contains_key(
                join_path(self.path@, f),
            ) && self.children@[f]@ == tree_files[join_path(self.path@, f)]@
        &&& forall|f: Seq<char>|
            no_slash(f) && tree_files.contains_key(join_path(self.path@, f)) && join_path(
                self.path@,
                f,
            ).len() > 0 && join_path(self.path@, f)[0] != '/'
                ==> #[trigger] self.children@.contains_key(f)
    }
}

impl Tree {
    /// Materializes the directory at `dir` with one level of children: every
    /// file entry whose parent is `dir`, keyed by its file name.
    pub fn dir_with_children(&self, dir: &str) -> (r: DirNodeWithChildren)
        requires
            self.wf(),
        ensures
            r.path@ == dir@,
            r.children.wf(),
            r.matches_tree(self.files@),
    {
        let mut children: KvDb<FileNode> = KvDb::new();
        let n = self.files.num_keys();
        let mut i: usize = 0;
        while i < n
            invariant
                self.wf(),
                n == self.files.keys_view().len(),
                i <= n,
                children.wf(),
                forall|f: Seq<char>|
                    #[trigger] children@.contains_key(f) ==> no_slash(f)
                        && self.files@.contains_key(join_path(dir@, f)) && children@[f]@
                        == self.files@[join_path(dir@, f)]@,
                forall|j: int|
                    0 <= j < i && parent_of(#[trigger] self.files.keys_view()[j]) == dir@
                        ==> children@.contains_key(file_name_of(self.files.keys_view()[j])),
            decreases n - i,
        {
            let key = self.files.key_at(i);
            let parent = path_parent(key.as_str());
            if crate::strings::str_eq(parent.as_str(), dir) {
                let name = path_file_name(key.as_str());
                let node = match self.files.get(key.as_str()) {
                    Some(nd) => nd.clone(),
                    None => {
                        proof {
                            assert(false);
                        }
                        unreached()
                    },
                };
                proof {
                    let k = self.files.keys_view()[i as int];
                    lemma_file_name_no_slash(k);
                    lemma_join_parent_name(k);
                }
                children.put(name, node);
            }
            i = i + 1;
        }
        let r = DirNodeWithChildren { path: dir.to_owned(), children };
        proof {
            assert forall|f: Seq<char>|
                no_slash(f) && self.files@.contains_key(join_path(dir@, f)) && join_path(dir@, f).len()
                    > 0 && join_path(dir@, f)[0] != '/' implies #[trigger] r.children@.contains_key(
                f,
            ) by {
                let k = join_path(dir@, f);
                self.files.lemma_contained_key_listed(k);
                let j = choose|j: int|
                    0 <= j < self.files.keys_view().len() && self.files.keys_view()[j] == k;
                lemma_parent_of_join(dir@, f);
            }
        }
        r
    }
}

/// Looks up a file node by name among the children of a loaded directory
/// node, as the add pipeline does against the head commit. `None` when no
/// directory node was loaded or the name is absent.
pub fn get_file_node(maybe_dir_node: &Option<DirNodeWithChildren>, file_name: &str) -> (r: Option<
    FileNode,
>)
    ensures
        match r {
            Some(n) => maybe_dir_node matches Some(d) && d.children@.contains_key(file_name@)
                && n@ == d.children@[file_name@]@,
            None => match maybe_dir_node {
                Some(d) => !d.children@.contains_key(file_name@),
                None => true,
            },
        },
{
    match maybe_dir_node {
        Some(dir_node) => match dir_node.children.get(file_name) {
            Some(n) => Some(n.clone()),
            None => None,
        },
        None => None,
    }
}

/// Walks the tree to the node at a path: a file leaf, a directory, or
/// nothing. Missing intermediate paths yield `None`, not an error.
pub fn get_by_path(tree: &Tree, path: &str) -> (r: Option<MerkleTreeNode>)
    requires
        tree.wf(),
    ensures
        match r {
            Some(node) => match node {
                MerkleTreeNode::File(n) => tree.files@.contains_key(path@) && n@ == tree.files@[path@]@,
                MerkleTreeNode::Directory(d) => d@ == path@ && tree.is_dir_path(path@),
            },
            None => !tree.files@.contains_key(path@) && !tree.is_dir_path(path@),
        },
{
    if let Some(n) = tree.files.get(path) {
        return Some(MerkleTreeNode::File(n.clone()));
    }
    let n = tree.files.num_keys();
    let mut i: usize = 0;
    while i < n
        invariant
            tree.wf(),
            n == tree.files.keys_view().len(),
            i <= n,
            forall|j: int|
                0 <= j < i ==> !crate::paths::ancestors_of(#[trigger] tree.files.keys_view()[j]).contains(
                    path@,
                ),
        decreases n - i,
    {
        let key = tree.files.key_at(i);
        if path_is_ancestor(path, key.as_str()) {
            proof {
                tree.files.lemma_listed_key_contained(i as int);
            }
            return Some(MerkleTreeNode::Directory(DirNode { name: path.to_owned() }));
        }
        i = i + 1;
    }
    proof {
        if tree.is_dir_path(path@) {
            let k = choose|k: Seq<char>|
                #[trigger] tree.files@.contains_key(k) && crate::paths::ancestors_of(k).contains(path@);
            tree.files.lemma_contained_key_listed(k);
        }
    }
    None
}

/// Whether `d` is among the ancestor directories of `p`.
pub fn path_is_ancestor(d: &str, p: &str) -> (r: bool)
    ensures
        r == crate::paths::ancestors_of(p@).contains(d@),
{
    let mut cur = p.to_owned();
    let ghost whole = p@;
    loop
        invariant
            whole == p@,
            crate::paths::ancestors_of(whole).contains(d@) == crate::paths::ancestors_of(
                cur@,
            ).contains(d@),
        decreases cur@.len(),
    {
        if cur.unicode_len() == 0 {
            proof {
                assert(!crate::paths::ancestors_of(cur@).contains(d@));
            }
            return false;
        }
        let parent = path_parent(cur.as_str());
        proof {
            crate::paths::lemma_parent_shorter(cur@);
            crate::paths::lemma_ancestors_unfold(cur@, d@);
        }
        if crate::strings::str_eq(parent.as_str(), d) {
            return true;
        }
        cur = parent;
    }
}

} // verus!
