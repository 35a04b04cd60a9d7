//! The key-value store facade: an embedded map from relative-path keys to
//! records, with lookup, insert, delete and ordered listing.
//!
//! The staged database, the merge-conflict database and the ref store are all
//! instances of this one store. Its view is a map from key characters to the
//! stored value; alongside the map it keeps the keys in insertion order so
//! that callers can list the contents.

use vstd::prelude::*;

verus! {

use vstd::hash_map::StringHashMap;

broadcast use vstd::hash_map::group_hash_map_axioms;

/// A map from string keys to values of type `T`, listable in insertion order.
#[verifier::reject_recursive_types(T)]
pub struct KvDb<T> {
    map: StringHashMap<T>,
    keys: Vec<String>,
}

impl<T> View for KvDb<T> {
    type V = Map<Seq<char>, T>;

    closed spec fn view(&self) -> Map<Seq<char>, T> {
        self.map@
    }
}

impl<T> KvDb<T> {
    /// The keys of the store, in insertion order.
    pub closed spec fn keys_view(&self) -> Seq<Seq<char>> {
        self.keys@.map(|i: int, s: String| s@)
    }

    /// Internal consistency: the listed keys are exactly the map's domain,
    /// without repetition.
    pub closed spec fn wf(&self) -> bool {
        &&& forall|i: int, j: int|
            0 <= i < j < self.keys@.len() ==> self.keys@[i]@ != self.keys@[j]@
        &&& forall|i: int| 0 <= i < self.keys@.len() ==> self.map@.contains_key(#[trigger] self.keys@[i]@)
        &&& forall|k: Seq<char>|
            self.map@.contains_key(k) ==> exists|i: int|
                0 <= i < self.keys@.len() && self.keys@[i]@ == k
    }

    /// A listed key is in the store.
    pub proof fn lemma_listed_key_contained(&self, i: int)
        requires
            self.wf(),
            0 <= i < self.keys_view().len(),
        ensures
            self@.contains_key(self.keys_view()[i]),
    {
    }

    /// Distinct positions list distinct keys.
    pub proof fn lemma_keys_distinct(&self, i: int, j: int)
        requires
            self.wf(),
            0 <= i < self.keys_view().len(),
            0 <= j < self.keys_view().len(),
            i != j,
        ensures
            self.keys_view()[i] != self.keys_view()[j],
    {
    }

    /// Every key of the store is listed.
    pub proof fn lemma_contained_key_listed(&self, k: Seq<char>)
        requires
            self.wf(),
            self@.contains_key(k),
        ensures
            self.keys_view().contains(k),
    {
        let i = choose|i: int| 0 <= i < self.keys@.len() && self.keys@[i]@ == k;
        assert(self.keys_view()[i] == k);
    }

    /// Creates an empty store.
    pub fn new() -> (r: Self)
        ensures
            r.wf(),
            r@ == Map::<Seq<char>, T>::empty(),
            r.keys_view() == Seq::<Seq<char>>::empty(),
    {
        let r = KvDb { map: StringHashMap::new(), keys: Vec::new() };
        proof {
            assert(r.keys_view() =~= Seq::<Seq<char>>::empty());
        }
        r
    }

    /// The number of entries.
    pub fn len(&self) -> (r: usize)
        ensures
            r == self@.len(),
    {
        self.map.len()
    }

    /// Whether the store holds no entry.
    pub fn is_empty(&self) -> (r: bool)
        requires
            self.wf(),
        ensures
            r == (self.keys_view().len() == 0),
            r ==> forall|k: Seq<char>| !self@.contains_key(k),
            !r ==> self@.contains_key(self.keys_view()[0]),
    {
        let r = self.keys.len() == 0;
        proof {
            if !r {
                assert(self@.contains_key(self.keys@[0]@));
            }
        }
        r
    }

    /// Whether a key is present.
    pub fn contains_key(&self, k: &str) -> (r: bool)
        ensures
            r == self@.contains_key(k@),
    {
        self.map.contains_key(k)
    }

    /// The value stored under a key, if any.
    pub fn get<'a>(&'a self, k: &str) -> (r: Option<&'a T>)
        ensures
            match r {
                Some(v) => self@.contains_key(k@) && *v == self@[k@],
                None => !self@.contains_key(k@),
            },
    {
        self.map.get(k)
    }

    /// Stores a value under a key, replacing any prior value.
    pub fn put(&mut self, k: String, v: T)
        requires
            old(self).wf(),
        ensures
            final(self).wf(),
            final(self)@ == old(self)@.insert(k@, v),
            final(self).keys_view() == if old(self)@.contains_key(k@) {
                old(self).keys_view()
            } else {
                old(self).keys_view().push(k@)
            },
    {
        if !self.map.contains_key(k.as_str()) {
            let ghost old_keys = self.keys@;
            self.keys.push(k.clone());
            proof {
                assert(self.keys_view() =~= old_keys.map(|i: int, s: String| s@).push(k@));
            }
        }
        self.map.insert(k, v);
        proof {
            assert forall|kk: Seq<char>| self.map@.contains_key(kk) implies exists|i: int|
                0 <= i < self.keys@.len() && self.keys@[i]@ == kk by {
                if kk == k@ {
                    assert(self.keys@[self.keys@.len() - 1]@ == kk || old(self)@.contains_key(kk));
                }
                if old(self)@.contains_key(kk) {
                    let i = choose|i: int| 0 <= i < old(self).keys@.len() && old(self).keys@[i]@ == kk;
                    assert(self.keys@[i]@ == kk);
                }
            }
        }
    }

    /// Removes a key. The store is unchanged when the key is absent.
    pub fn delete(&mut self, k: &str)
        requires
            old(self).wf(),
        ensures
            final(self).wf(),
            final(self)@ == old(self)@.remove(k@),
            !old(self)@.contains_key(k@) ==> final(self).keys_view() == old(self).keys_view(),
            old(self)@.contains_key(k@) ==> exists|i: int|
                0 <= i < old(self).keys_view().len() && old(self).keys_view()[i] == k@
                    && final(self).keys_view() == old(self).keys_view().remove(i),
    {
        if !self.map.contains_key(k) {
            proof {
                assert(self@ =~= old(self)@.remove(k@));
            }
            return;
        }
        let ghost old_keys = self.keys@;
        let mut i: usize = 0;
        let n = self.keys.len();
        while i < n
            invariant
                n == self.keys@.len(),
                i <= n,
                self.map@.contains_key(k@),
                forall|j: int| 0 <= j < i ==> self.keys@[j]@ != k@,
                old(self).wf(),
                self.keys@ == old(self).keys@,
                self.map@ == old(self).map@,
            decreases n - i,
        {
            if crate::strings::str_eq(self.keys[i].as_str(), k) {
                proof {
                    assert(old(self).keys@[i as int]@ == k@);
                }
                self.keys.remove(i);
                self.map.remove(k);
                proof {
                    let ghost iv = i as int;
                    assert(old(self).keys@[iv]@ == k@);
                    assert(self.keys_view() =~= old(self).keys_view().remove(iv));
                    assert forall|kk: Seq<char>| self.map@.contains_key(kk) implies exists|m: int|
                        0 <= m < self.keys@.len() && self.keys@[m]@ == kk by {
                        assert(old(self).map@.contains_key(kk));
                        let j = choose|j: int|
                            0 <= j < old(self).keys@.len() && old(self).keys@[j]@ == kk;
                        assert(kk != k@);
                        assert(j != iv);
                        if j < iv {
                            assert(self.keys@[j]@ == kk);
                        } else {
                            assert(self.keys@[j - 1]@ == kk);
                        }
                    }
                    assert forall|a: int, b: int| 0 <= a < b < self.keys@.len() implies self.keys@[a]@
                        != self.keys@[b]@ by {
                        let oa = if a < iv { a } else { a + 1 };
                        let ob = if b < iv { b } else { b + 1 };
                        assert(self.keys@[a]@ == old(self).keys@[oa]@);
                        assert(self.keys@[b]@ == old(self).keys@[ob]@);
                        assert(old(self).keys@[oa]@ != old(self).keys@[ob]@);
                    }
                }
                return;
            }
            i = i + 1;
        }
        proof {
            let j = choose|j: int| 0 <= j < self.keys@.len() && self.keys@[j]@ == k@;
            assert(false);
        }
    }

    /// The number of listed keys.
    pub fn num_keys(&self) -> (r: usize)
        ensures
            r == self.keys_view().len(),
    {
        self.keys.len()
    }

    /// The key at a position of the listing.
    pub fn key_at<'a>(&'a self, i: usize) -> (r: &'a String)
        requires
            self.wf(),
            i < self.keys_view().len(),
        ensures
            r@ == self.keys_view()[i as int],
            self@.contains_key(r@),
    {
        &self.keys[i]
    }

    /// Removes every entry.
    pub fn clear(&mut self)
        ensures
            final(self).wf(),
            final(self)@ == Map::<Seq<char>, T>::empty(),
            final(self).keys_view() == Seq::<Seq<char>>::empty(),
    {
        self.map.clear();
        self.keys.clear();
        proof {
            assert(self.keys_view() =~= Seq::<Seq<char>>::empty());
        }
    }
}

} // verus!
