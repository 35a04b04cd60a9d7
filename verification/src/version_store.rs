//! The content-addressed version store: blobs keyed by their content hash.
//!
//! Storing is idempotent — a blob whose hash is already present is left as it
//! is — and every stored blob hashes to its own key, so a blob read back under
//! a hash ever stored is byte-identical to what was stored.

use vstd::prelude::*;

verus! {

use vstd::hash_map::HashMapWithView;
use crate::hash::hash_bytes_spec;

broadcast use vstd::std_specs::hash::group_hash_axioms;

/// A content-addressed blob store.
pub struct VersionStore {
    blobs: HashMapWithView<u128, Vec<u8>>,
}

impl VersionStore {
    /// The stored contents: a map from hash to blob bytes.
    pub closed spec fn contents(&self) -> Map<u128, Seq<u8>> {
        Map::new(|h: u128| self.blobs@.contains_key(h), |h: u128| self.blobs@[h]@)
    }

    /// Every blob lies under the hash of its own bytes.
    pub closed spec fn wf(&self) -> bool {
        forall|h: u128| self.blobs@.contains_key(h) ==> hash_bytes_spec(self.blobs@[h]@) == h
    }

    /// The blob stored under a hash hashes back to it.
    pub proof fn lemma_content_addressed(&self, h: u128)
        requires
            self.wf(),
            self.contents().contains_key(h),
        ensures
            hash_bytes_spec(self.contents()[h]) == h,
    {
    }

    /// Creates an empty store.
    pub fn new() -> (r: Self)
        ensures
            r.wf(),
            r.contents() == Map::<u128, Seq<u8>>::empty(),
    {
        let r = VersionStore { blobs: HashMapWithView::new() };
        proof {
            assert(r.contents() =~= Map::<u128, Seq<u8>>::empty());
        }
        r
    }

    /// Whether a blob with the given hash has been stored.
    pub fn has_version(&self, hash: u128) -> (r: bool)
        ensures
            r == self.contents().contains_key(hash),
    {
        self.blobs.contains_key(&hash)
    }

    /// Stores a blob under its content hash. A no-op when a blob with that
    /// hash is already present.
    pub fn store_version(&mut self, hash: u128, bytes: Vec<u8>)
        requires
            old(self).wf(),
            hash == hash_bytes_spec(bytes@),
        ensures
            final(self).wf(),
            final(self).contents() == if old(self).contents().contains_key(hash) {
                old(self).contents()
            } else {
                old(self).contents().insert(hash, bytes@)
            },
    {
        if !self.blobs.contains_key(&hash) {
            self.blobs.insert(hash, bytes);
            proof {
                assert(self.contents() =~= old(self).contents().insert(hash, bytes@));
            }
        } else {
            proof {
                assert(self.contents() =~= old(self).contents());
            }
        }
    }

    /// The bytes stored under a hash, if any.
    pub fn open_version<'a>(&'a self, hash: u128) -> (r: Option<&'a Vec<u8>>)
        ensures
            match r {
                Some(b) => self.contents().contains_key(hash) && b@ == self.contents()[hash],
                None => !self.contents().contains_key(hash),
            },
    {
        self.blobs.get(&hash)
    }
}

} // verus!
