//! The merge-conflict reader: path-keyed conflict records consulted during
//! `add`, and resolution marking, which deletes a record.

use vstd::prelude::*;

verus! {

use crate::kvdb::KvDb;
use crate::model::{Commit, NodeMergeConflict};
use crate::strings::{lex_lt, str_lex_lt, lemma_lex_total, lemma_lex_trans};

/// Key-record pairs in strictly increasing lexicographic key order.
pub open spec fn sorted_pairs(v: Seq<(String, NodeMergeConflict)>) -> bool {
    forall|a: int, b: int|
        0 <= a < b < v.len() ==> lex_lt((#[trigger] v[a]).0@, (#[trigger] v[b]).0@)
}

/// A key listing of the conflict store in strictly increasing lexicographic
/// order: exactly the store's keys, each once.
pub open spec fn lex_listing_of(m: Map<Seq<char>, NodeMergeConflict>, ks: Seq<Seq<char>>) -> bool {
    &&& forall|i: int, j: int| 0 <= i < j < ks.len() ==> lex_lt(#[trigger] ks[i], #[trigger] ks[j])
    &&& forall|i: int| 0 <= i < ks.len() ==> m.contains_key(#[trigger] ks[i])
    &&& forall|k: Seq<char>| #[trigger] m.contains_key(k) ==> ks.contains(k)
}

/// Inserts a pair at its ordered position among pairs whose keys are
/// sorted and all differ from the new key.
fn insert_sorted(v: &mut Vec<(String, NodeMergeConflict)>, key: String, rec: NodeMergeConflict)
    requires
        sorted_pairs(old(v)@),
        forall|a: int| 0 <= a < old(v)@.len() ==> (#[trigger] old(v)@[a]).0@ != key@,
    ensures
        sorted_pairs(final(v)@),
        exists|j: int| 0 <= j <= old(v)@.len() && final(v)@ == old(v)@.insert(j, (key, rec)),
{
    let n = v.len();
    let mut j: usize = 0;
    while j < n && !str_lex_lt(key.as_str(), v[j].0.as_str())
        invariant
            n == v@.len(),
            v@ == old(v)@,
            j <= n,
            forall|a: int| 0 <= a < j ==> !lex_lt(key@, (#[trigger] v@[a]).0@),
        decreases n - j,
    {
        j = j + 1;
    }
    let ghost pre = v@;
    let ghost jv = j as int;
    proof {
        assert forall|a: int| 0 <= a < jv implies lex_lt((#[trigger] pre[a]).0@, key@) by {
            lemma_lex_total(pre[a].0@, key@);
        }
    }
    v.insert(j, (key, rec));
    proof {
        assert(v@ == pre.insert(jv, (key, rec)));
        assert forall|a: int, b: int|
            0 <= a < b < v@.len() implies lex_lt((#[trigger] v@[a]).0@, (#[trigger] v@[b]).0@) by {
            if b < jv {
                assert(v@[a] == pre[a] && v@[b] == pre[b]);
            } else if b == jv {
                assert(v@[a] == pre[a]);
            } else {
                assert(v@[b] == pre[b - 1]);
                if a == jv {
                    if b - 1 > jv {
                        lemma_lex_trans(key@, pre[jv].0@, pre[b - 1].0@);
                    }
                } else if a < jv {
                    assert(v@[a] == pre[a]);
                } else {
                    assert(v@[a] == pre[a - 1]);
                }
            }
        }
    }
}

/// Reads the conflict database. The database itself is a path-keyed store of
/// conflict records.
pub struct NodeMergeConflictDBReader {}

impl NodeMergeConflictDBReader {
    /// The conflict recorded for a path, if any.
    pub fn get_conflict(db: &KvDb<NodeMergeConflict>, path: &str) -> (r: Option<NodeMergeConflict>)
        ensures
            match r {
                Some(c) => db@.contains_key(path@) && c@ == db@[path@]@,
                None => !db@.contains_key(path@),
            },
    {
        match db.get(path) {
            Some(c) => Some(c.clone()),
            None => None,
        }
    }

    /// Whether a conflict is recorded for a path.
    pub fn has_file(db: &KvDb<NodeMergeConflict>, path: &str) -> (r: bool)
        ensures
            r == db@.contains_key(path@),
    {
        match NodeMergeConflictDBReader::get_conflict(db, path) {
            Some(_val) => true,
            None => false,
        }
    }

    /// Whether any conflict is recorded.
    pub fn has_conflicts(db: &KvDb<NodeMergeConflict>) -> (r: bool)
        requires
            db.wf(),
        ensures
            r == exists|k: Seq<char>| db@.contains_key(k),
    {
        let empty = db.is_empty();
        proof {
            if !empty {
                assert(db@.contains_key(db.keys_view()[0]));
            }
        }
        !empty
    }

    /// All recorded conflicts, one record per key, in lexicographic key
    /// order.
    #[verifier::rlimit(100)]
    #[verifier::spinoff_prover]
    pub fn list_conflicts(db: &KvDb<NodeMergeConflict>) -> (r: Vec<NodeMergeConflict>)
        requires
            db.wf(),
        ensures
            exists|ks: Seq<Seq<char>>|
                #![auto]
                lex_listing_of(db@, ks) && r@.len() == ks.len() && (forall|i: int|
                    0 <= i < ks.len() ==> (#[trigger] r@[i])@ == db@[ks[i]]@),
    {
        let mut sorted: Vec<(String, NodeMergeConflict)> = Vec::new();
        let n = db.num_keys();
        let mut i: usize = 0;
        while i < n
            invariant
                db.wf(),
                n == db.keys_view().len(),
                i <= n,
                sorted_pairs(sorted@),
                forall|a: int|
                    0 <= a < sorted@.len() ==> db@.contains_key((#[trigger] sorted@[a]).0@)
                        && sorted@[a].1@ == db@[sorted@[a].0@]@,
                forall|a: int|
                    0 <= a < sorted@.len() ==> exists|jj: int|
                        0 <= jj < i && db.keys_view()[jj] == (#[trigger] sorted@[a]).0@,
                forall|jj: int|
                    0 <= jj < i ==> exists|a: int|
                        0 <= a < sorted@.len() && (sorted@[a]).0@ == #[trigger] db.keys_view()[jj],
            decreases n - i,
        {
            let key = db.key_at(i).clone();
            proof {
                db.lemma_listed_key_contained(i as int);
            }
            let record = match db.get(key.as_str()) {
                Some(c) => c.clone(),
                None => {
                    proof {
                        assert(false);
                    }
                    unreached()
                },
            };
            proof {
                assert forall|a: int| 0 <= a < sorted@.len() implies (#[trigger] sorted@[a]).0@
                    != key@ by {
                    let jj = choose|jj: int| 0 <= jj < i && db.keys_view()[jj] == sorted@[a].0@;
                    db.lemma_keys_distinct(jj, i as int);
                }
            }
            let ghost pre = sorted@;
            insert_sorted(&mut sorted, key, record);
            proof {
                let j = choose|j: int| 0 <= j <= pre.len() && sorted@ == pre.insert(j, (key, record));
                assert forall|a: int|
                    0 <= a < sorted@.len() implies db@.contains_key((#[trigger] sorted@[a]).0@)
                    && sorted@[a].1@ == db@[sorted@[a].0@]@ && (exists|jj: int|
                    0 <= jj < i + 1 && db.keys_view()[jj] == sorted@[a].0@) by {
                    if a < j {
                        assert(sorted@[a] == pre[a]);
                        let jj0 = choose|jj0: int|
                            0 <= jj0 < i && db.keys_view()[jj0] == pre[a].0@;
                        assert(db.keys_view()[jj0] == sorted@[a].0@);
                    } else if a == j {
                        assert(sorted@[a] == (key, record));
                        assert(db.keys_view()[i as int] == sorted@[a].0@);
                    } else {
                        assert(sorted@[a] == pre[a - 1]);
                        let jj0 = choose|jj0: int|
                            0 <= jj0 < i && db.keys_view()[jj0] == pre[a - 1].0@;
                        assert(db.keys_view()[jj0] == sorted@[a].0@);
                    }
                }
                assert forall|jj: int|
                    0 <= jj < i + 1 implies exists|a: int|
                    0 <= a < sorted@.len() && (sorted@[a]).0@ == #[trigger] db.keys_view()[jj] by {
                    if jj == i as int {
                        assert((sorted@[j]).0@ == db.keys_view()[jj]);
                    } else {
                        let a0 = choose|a0: int|
                            0 <= a0 < pre.len() && (pre[a0]).0@ == db.keys_view()[jj];
                        if a0 < j {
                            assert((sorted@[a0]).0@ == db.keys_view()[jj]);
                        } else {
                            assert((sorted@[a0 + 1]).0@ == db.keys_view()[jj]);
                        }
                    }
                }
            }
            i = i + 1;
        }
        let mut conflicts: Vec<NodeMergeConflict> = Vec::new();
        let ns = sorted.len();
        let mut m: usize = 0;
        while m < ns
            invariant
                ns == sorted@.len(),
                m <= ns,
                conflicts@.len() == m,
                forall|a: int| 0 <= a < m ==> (#[trigger] conflicts@[a])@ == sorted@[a].1@,
            decreases ns - m,
        {
            conflicts.push(sorted[m].1.clone());
            m = m + 1;
        }
        proof {
            let ks = sorted@.map(|a: int, e: (String, NodeMergeConflict)| e.0@);
            assert(lex_listing_of(db@, ks)) by {
                assert forall|k: Seq<char>| #[trigger] db@.contains_key(k) implies ks.contains(
                    k,
                ) by {
                    db.lemma_contained_key_listed(k);
                    let jj = choose|jj: int|
                        0 <= jj < db.keys_view().len() && db.keys_view()[jj] == k;
                    let a = choose|a: int|
                        0 <= a < sorted@.len() && (sorted@[a]).0@ == db.keys_view()[jj];
                    assert(ks[a] == k);
                }
            }
            assert(conflicts@.len() == ks.len());
            assert forall|a: int| 0 <= a < ks.len() implies (#[trigger] conflicts@[a])@
                == db@[ks[a]]@ by {
                assert(ks[a] == sorted@[a].0@);
            }
        }
        conflicts
    }
}

/// The conflict head: the commit named by the first line of the merge-head
/// file's contents, looked up in the commit store.
pub fn conflict_head(commits: &KvDb<Commit>, merge_head_contents: &str) -> (r: Option<Commit>)
    ensures
        match r {
            Some(c) => commits@.contains_key(crate::stash::first_line_of(merge_head_contents@))
                && c@ == commits@[crate::stash::first_line_of(merge_head_contents@)]@,
            None => !commits@.contains_key(crate::stash::first_line_of(merge_head_contents@)),
        },
{
    let id = crate::stash::string_first_line(merge_head_contents);
    match commits.get(id.as_str()) {
        Some(c) => Some(c.clone()),
        None => None,
    }
}

/// Marks the conflict at a path as resolved by deleting its record.
pub fn mark_conflict_as_resolved(db: &mut KvDb<NodeMergeConflict>, path: &str)
    requires
        old(db).wf(),
    ensures
        final(db).wf(),
        final(db)@ == old(db)@.remove(path@),
{
    db.delete(path);
}

} // verus!
