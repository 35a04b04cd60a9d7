//! The copy-tree stash variant: a shelved state is a mirror of the modified
//! files' contents, applied back by a per-file content diff against the
//! head commit at stash time. A file changed both locally and in the stash
//! conflicts and keeps the local bytes; the slot is dropped only when no
//! file conflicted.

use vstd::prelude::*;

verus! {

use crate::kvdb::KvDb;
use crate::model::WorkingFile;
use crate::tree::Tree;
use crate::version_store::VersionStore;
use crate::strings::{lex_lt, str_lex_lt};

/// Whether working file `k` differs from the head commit's content: the
/// head does not track it, or its bytes differ from the tracked blob.
pub open spec fn modified_vs_head(
    head: Tree,
    versions: VersionStore,
    w: Map<Seq<char>, WorkingFile>,
    k: Seq<char>,
) -> bool {
    if head.files@.contains_key(k) {
        w[k].bytes@ != versions.contents()[head.files@[k]@.hash]
    } else {
        true
    }
}

/// The copy-tree push: shelves every working file whose bytes differ from
/// the head commit's content — an untracked file always differs — and
/// reverts the working tree to the head state, deleting files absent from
/// the head. The slot directory that receives the shelved copies is
/// written by the surrounding program.
pub fn copytree_push(working: &mut KvDb<WorkingFile>, head: &Tree, versions: &VersionStore) -> (r:
    Vec<(String, WorkingFile)>)
    requires
        old(working).wf(),
        head.wf(),
        versions.wf(),
        forall|k: Seq<char>|
            #[trigger] head.files@.contains_key(k) ==> versions.contents().contains_key(
                head.files@[k]@.hash,
            ),
    ensures
        final(working).wf(),
        shelved_distinct(r@),
        forall|m: int|
            0 <= m < r@.len() ==> {
                let p = (#[trigger] r@[m]).0@;
                old(working)@.contains_key(p) && r@[m].1.bytes@ == old(working)@[p].bytes@
                    && r@[m].1.mtime_seconds == old(working)@[p].mtime_seconds
                    && r@[m].1.mtime_nanoseconds == old(working)@[p].mtime_nanoseconds
                    && modified_vs_head(*head, *versions, old(working)@, p)
            },
        forall|k: Seq<char>|
            #[trigger] old(working)@.contains_key(k) && modified_vs_head(
                *head,
                *versions,
                old(working)@,
                k,
            ) ==> exists|m: int| 0 <= m < r@.len() && r@[m].0@ == k,
        forall|k: Seq<char>|
            final(working)@.contains_key(k) == #[trigger] head.files@.contains_key(k),
        forall|k: Seq<char>|
            #[trigger] head.files@.contains_key(k) ==> final(working)@[k].bytes@
                == versions.contents()[head.files@[k]@.hash],
{
    let mut shelved: Vec<(String, WorkingFile)> = Vec::new();
    let n = working.num_keys();
    let mut i: usize = 0;
    while i < n
        invariant
            working.wf(),
            working@ == old(working)@,
            working.keys_view() == old(working).keys_view(),
            head.wf(),
            versions.wf(),
            forall|k: Seq<char>|
                #[trigger] head.files@.contains_key(k) ==> versions.contents().contains_key(
                    head.files@[k]@.hash,
                ),
            n == working.keys_view().len(),
            i <= n,
            shelved_distinct(shelved@),
            forall|m: int|
                0 <= m < shelved@.len() ==> {
                    let p = (#[trigger] shelved@[m]).0@;
                    working@.contains_key(p) && shelved@[m].1.bytes@ == working@[p].bytes@
                        && shelved@[m].1.mtime_seconds == working@[p].mtime_seconds
                        && shelved@[m].1.mtime_nanoseconds == working@[p].mtime_nanoseconds
                        && modified_vs_head(*head, *versions, working@, p)
                },
            forall|m: int|
                0 <= m < shelved@.len() ==> exists|j: int|
                    0 <= j < i && working.keys_view()[j] == (#[trigger] shelved@[m]).0@,
            forall|j: int|
                0 <= j < i && modified_vs_head(
                    *head,
                    *versions,
                    working@,
                    #[trigger] working.keys_view()[j],
                ) ==> exists|m: int|
                    0 <= m < shelved@.len() && shelved@[m].0@ == working.keys_view()[j],
        decreases n - i,
    {
        let key = working.key_at(i).clone();
        proof {
            working.lemma_listed_key_contained(i as int);
        }
        let file = match working.get(key.as_str()) {
            Some(f) => f,
            None => {
                proof {
                    assert(false);
                }
                unreached()
            },
        };
        let differs = match head.get_file(key.as_str()) {
            Some(node) => {
                proof {
                    assert(head.files@.contains_key(key@));
                    assert(node@ == head.files@[key@]@);
                    assert(versions.contents().contains_key(node@.hash));
                }
                match versions.open_version(node.hash.to_u128()) {
                    Some(blob) => !bytes_eq(&file.bytes, blob),
                    None => {
                        proof {
                            assert(false);
                        }
                        unreached()
                    },
                }
            },
            None => true,
        };
        let ghost pre = shelved@;
        if differs {
            let copy = WorkingFile {
                bytes: crate::model::clone_bytes(&file.bytes),
                mtime_seconds: file.mtime_seconds,
                mtime_nanoseconds: file.mtime_nanoseconds,
            };
            shelved.push((key.clone(), copy));
            proof {
                assert(shelved@[shelved@.len() - 1].0@ == working.keys_view()[i as int]);
                assert forall|m: int| 0 <= m < pre.len() implies (#[trigger] shelved@[m]).0@
                    != key@ by {
                    let j0 = choose|j0: int|
                        0 <= j0 < i && working.keys_view()[j0] == pre[m].0@;
                    working.lemma_keys_distinct(j0, i as int);
                    assert(shelved@[m] == pre[m]);
                }
            }
        }
        proof {
            assert forall|jj: int|
                0 <= jj < i + 1 && modified_vs_head(
                    *head,
                    *versions,
                    working@,
                    #[trigger] working.keys_view()[jj],
                ) implies exists|m: int|
                0 <= m < shelved@.len() && shelved@[m].0@ == working.keys_view()[jj] by {
                if jj < i {
                    let m0 = choose|m0: int|
                        0 <= m0 < pre.len() && pre[m0].0@ == working.keys_view()[jj];
                    assert(shelved@[m0].0@ == working.keys_view()[jj]);
                } else {
                    assert(shelved@[shelved@.len() - 1].0@ == working.keys_view()[jj]);
                }
            }
        }
        i = i + 1;
    }
    proof {
        assert forall|k: Seq<char>|
            #[trigger] working@.contains_key(k) && modified_vs_head(
                *head,
                *versions,
                working@,
                k,
            ) implies exists|m: int| 0 <= m < shelved@.len() && shelved@[m].0@ == k by {
            working.lemma_contained_key_listed(k);
            let j = choose|j: int|
                0 <= j < working.keys_view().len() && working.keys_view()[j] == k;
        }
    }
    let mut reverted: KvDb<WorkingFile> = KvDb::new();
    let nh = head.files.num_keys();
    let mut j: usize = 0;
    while j < nh
        invariant
            head.wf(),
            versions.wf(),
            reverted.wf(),
            forall|k: Seq<char>|
                #[trigger] head.files@.contains_key(k) ==> versions.contents().contains_key(
                    head.files@[k]@.hash,
                ),
            nh == head.files.keys_view().len(),
            j <= nh,
            forall|k: Seq<char>|
                #[trigger] reverted@.contains_key(k) ==> head.files@.contains_key(k)
                    && reverted@[k].bytes@ == versions.contents()[head.files@[k]@.hash],
            forall|jj: int|
                0 <= jj < j ==> reverted@.contains_key(#[trigger] head.files.keys_view()[jj]),
        decreases nh - j,
    {
        let key = head.files.key_at(j).clone();
        proof {
            head.files.lemma_listed_key_contained(j as int);
        }
        let node = match head.get_file(key.as_str()) {
            Some(nd) => nd,
            None => {
                proof {
                    assert(false);
                }
                unreached()
            },
        };
        let bytes = match versions.open_version(node.hash.to_u128()) {
            Some(b) => crate::model::clone_bytes(b),
            None => {
                proof {
                    assert(false);
                }
                unreached()
            },
        };
        reverted.put(
            key,
            WorkingFile {
                bytes,
                mtime_seconds: node.last_modified_seconds,
                mtime_nanoseconds: node.last_modified_nanoseconds,
            },
        );
        j = j + 1;
    }
    proof {
        assert forall|k: Seq<char>| #[trigger] head.files@.contains_key(k) implies reverted@.contains_key(
            k,
        ) by {
            head.files.lemma_contained_key_listed(k);
            let jj = choose|jj: int|
                0 <= jj < head.files.keys_view().len() && head.files.keys_view()[jj] == k;
        }
    }
    *working = reverted;
    shelved
}

/// The slot the copy-tree applier picks: the position of the
/// lexicographically greatest name, which for timestamp-named slot
/// directories is the newest.
pub fn newest_slot(names: &Vec<String>) -> (r: Option<usize>)
    ensures
        match r {
            Some(ix) => ix < names@.len() && (forall|j: int|
                0 <= j < names@.len() ==> !lex_lt(names@[ix as int]@, (#[trigger] names@[j])@)),
            None => names@.len() == 0,
        },
{
    if names.len() == 0 {
        return None;
    }
    let mut best: usize = 0;
    let mut j: usize = 1;
    proof {
        crate::strings::lemma_lex_irrefl(names@[0]@);
    }
    while j < names.len()
        invariant
            names@.len() > 0,
            best < j,
            j <= names@.len(),
            forall|m: int| 0 <= m < j ==> !lex_lt(names@[best as int]@, (#[trigger] names@[m])@),
        decreases names@.len() - j,
    {
        if str_lex_lt(names[best].as_str(), names[j].as_str()) {
            let ghost old_best = best as int;
            best = j;
            proof {
                assert forall|m: int|
                    0 <= m < j + 1 implies !lex_lt(names@[best as int]@, (#[trigger] names@[m])@) by {
                    if m < j as int && lex_lt(names@[best as int]@, names@[m]@) {
                        crate::strings::lemma_lex_trans(
                            names@[old_best]@,
                            names@[best as int]@,
                            names@[m]@,
                        );
                    }
                    if m == j as int {
                        crate::strings::lemma_lex_irrefl(names@[m]@);
                    }
                }
            }
        }
        j = j + 1;
    }
    Some(best)
}

/// Whether a path names one of the shelved files.
pub open spec fn is_shelved_path(shelved: Seq<(String, WorkingFile)>, p: Seq<char>) -> bool {
    exists|m: int| 0 <= m < shelved.len() && (#[trigger] shelved[m]).0@ == p
}

/// What applying one shelved file does to the working tree.
#[derive(Clone, Copy, Debug, PartialEq, Eq, Structural)]
pub enum ShelfOutcome {
    /// Both sides changed the file to different contents: keep the local
    /// bytes and record a conflict.
    Conflict,
    /// The stashed bytes win: the stashed side changed the file, or both
    /// sides converged on the same bytes, or the file is new and absent
    /// locally.
    WriteStashed,
    /// Only the local side changed the file: the local bytes stay.
    KeepLocal,
    /// Neither side changed the file.
    Unchanged,
}

/// The per-file decision of the copy-tree applier. A missing local file
/// counts as empty bytes when the base tracked the file; a file the base
/// never tracked conflicts exactly when it now exists locally.
pub open spec fn shelf_decision_spec(
    base: Option<Seq<u8>>,
    local: Option<Seq<u8>>,
    stashed: Seq<u8>,
) -> ShelfOutcome {
    match base {
        Some(b) => {
            let l = match local {
                Some(bytes) => bytes,
                None => Seq::empty(),
            };
            let local_modified = l != b;
            let stashed_modified = stashed != b;
            if local_modified && stashed_modified {
                if l != stashed {
                    ShelfOutcome::Conflict
                } else {
                    ShelfOutcome::WriteStashed
                }
            } else if stashed_modified {
                ShelfOutcome::WriteStashed
            } else if local_modified {
                ShelfOutcome::KeepLocal
            } else {
                ShelfOutcome::Unchanged
            }
        },
        None => match local {
            Some(_) => ShelfOutcome::Conflict,
            None => ShelfOutcome::WriteStashed,
        },
    }
}

/// Whether two byte vectors hold the same bytes.
pub fn bytes_eq(a: &Vec<u8>, b: &Vec<u8>) -> (r: bool)
    ensures
        r == (a@ == b@),
{
    if a.len() != b.len() {
        proof {
            assert(a@.len() != b@.len());
        }
        return false;
    }
    let mut i: usize = 0;
    while i < a.len()
        invariant
            a@.len() == b@.len(),
            i <= a@.len(),
            forall|j: int| 0 <= j < i ==> a@[j] == b@[j],
        decreases a@.len() - i,
    {
        if a[i] != b[i] {
            return false;
        }
        i = i + 1;
    }
    proof {
        assert(a@ =~= b@);
    }
    true
}

/// Decides what applying one shelved file does, from the base commit's
/// bytes at stash time, the current local bytes, and the shelved bytes.
pub fn shelf_decision(base: Option<&Vec<u8>>, local: Option<&Vec<u8>>, stashed: &Vec<u8>) -> (r:
    ShelfOutcome)
    ensures
        r == shelf_decision_spec(
            match base {
                Some(b) => Some(b@),
                None => None,
            },
            match local {
                Some(l) => Some(l@),
                None => None,
            },
            stashed@,
        ),
{
    match base {
        Some(b) => {
            let empty: Vec<u8> = Vec::new();
            let l = match local {
                Some(bytes) => bytes,
                None => &empty,
            };
            let local_modified = !bytes_eq(l, b);
            let stashed_modified = !bytes_eq(stashed, b);
            if local_modified && stashed_modified {
                if !bytes_eq(l, stashed) {
                    ShelfOutcome::Conflict
                } else {
                    ShelfOutcome::WriteStashed
                }
            } else if stashed_modified {
                ShelfOutcome::WriteStashed
            } else if local_modified {
                ShelfOutcome::KeepLocal
            } else {
                ShelfOutcome::Unchanged
            }
        },
        None => match local {
            Some(_) => ShelfOutcome::Conflict,
            None => ShelfOutcome::WriteStashed,
        },
    }
}

/// The working bytes after one shelved file is applied: the stashed bytes
/// when the decision writes them, the local state otherwise.
pub open spec fn shelf_applied(
    decision: ShelfOutcome,
    local: Option<Seq<u8>>,
    stashed: Seq<u8>,
) -> Option<Seq<u8>> {
    match decision {
        ShelfOutcome::WriteStashed => Some(stashed),
        _ => local,
    }
}

/// Applies one shelved file to the working tree and reports its outcome:
/// the stashed bytes are written when the decision says so, the local state
/// stays otherwise, and a conflict leaves the local bytes in place.
pub fn apply_shelved_file(
    working: &mut KvDb<WorkingFile>,
    path: &str,
    base: Option<&Vec<u8>>,
    stashed: &WorkingFile,
) -> (r: ShelfOutcome)
    requires
        old(working).wf(),
    ensures
        final(working).wf(),
        r == shelf_decision_spec(
            match base {
                Some(b) => Some(b@),
                None => None,
            },
            local_bytes_at(old(working)@, path@),
            stashed.bytes@,
        ),
        shelf_applied(r, local_bytes_at(old(working)@, path@), stashed.bytes@) matches Some(bytes)
            ==> final(working)@.contains_key(path@) && final(working)@[path@].bytes@ == bytes,
        shelf_applied(r, local_bytes_at(old(working)@, path@), stashed.bytes@) is None
            ==> !final(working)@.contains_key(path@),
        forall|p: Seq<char>|
            #![trigger final(working)@.contains_key(p)]
            #![trigger final(working)@[p]]
            p != path@ ==> (final(working)@.contains_key(p) == old(working)@.contains_key(p)) && (
            old(working)@.contains_key(p) ==> final(working)@[p] == old(working)@[p]),
{
    let decision = {
        let local = working.get(path);
        match local {
            Some(file) => shelf_decision(base, Some(&file.bytes), &stashed.bytes),
            None => shelf_decision(base, None, &stashed.bytes),
        }
    };
    if matches!(decision, ShelfOutcome::WriteStashed) {
        working.put(
            path.to_owned(),
            WorkingFile {
                bytes: crate::model::clone_bytes(&stashed.bytes),
                mtime_seconds: stashed.mtime_seconds,
                mtime_nanoseconds: stashed.mtime_nanoseconds,
            },
        );
    }
    decision
}

/// The shelved paths of a slot are distinct: a copy-tree mirrors each file
/// once.
pub open spec fn shelved_distinct(shelved: Seq<(String, WorkingFile)>) -> bool {
    forall|m1: int, m2: int|
        0 <= m1 < m2 < shelved.len() ==> (#[trigger] shelved[m1]).0@ != (#[trigger] shelved[m2]).0@
}

/// The working bytes a map holds at a path, if any.
pub open spec fn local_bytes_at(w: Map<Seq<char>, WorkingFile>, p: Seq<char>) -> Option<Seq<u8>> {
    if w.contains_key(p) {
        Some(w[p].bytes@)
    } else {
        None
    }
}

/// The base bytes handed for one shelved entry.
pub open spec fn base_view(b: Option<Vec<u8>>) -> Option<Seq<u8>> {
    match b {
        Some(v) => Some(v@),
        None => None,
    }
}

/// The decision the applier reaches for entry `m`, against the working
/// tree as it stood before the run.
pub open spec fn slot_decision_at(
    shelved: Seq<(String, WorkingFile)>,
    bases: Seq<Option<Vec<u8>>>,
    w0: Map<Seq<char>, WorkingFile>,
    m: int,
) -> ShelfOutcome {
    shelf_decision_spec(base_view(bases[m]), local_bytes_at(w0, shelved[m].0@), shelved[m].1.bytes@)
}

/// The conflicted paths among the first `upto` shelved entries, in shelf
/// order.
pub open spec fn slot_conflicts(
    shelved: Seq<(String, WorkingFile)>,
    bases: Seq<Option<Vec<u8>>>,
    w0: Map<Seq<char>, WorkingFile>,
    upto: int,
) -> Seq<Seq<char>>
    decreases upto,
{
    if upto <= 0 {
        Seq::empty()
    } else {
        let rest = slot_conflicts(shelved, bases, w0, upto - 1);
        if slot_decision_at(shelved, bases, w0, upto - 1) == ShelfOutcome::Conflict {
            rest.push(shelved[upto - 1].0@)
        } else {
            rest
        }
    }
}

/// Applies every shelved file of a copy-tree slot to the working tree and
/// collects the conflicted paths: afterwards each shelved path carries its
/// per-file outcome, no other path changes, and the returned list holds
/// exactly the conflicting shelved paths, in shelf order. The slot may be
/// deleted afterwards only when the returned list is empty: a conflicting
/// application retains it.
pub fn apply_copytree_slot(
    working: &mut KvDb<WorkingFile>,
    shelved: &Vec<(String, WorkingFile)>,
    base_contents: &Vec<Option<Vec<u8>>>,
) -> (r: Vec<String>)
    requires
        old(working).wf(),
        shelved@.len() == base_contents@.len(),
        shelved_distinct(shelved@),
    ensures
        final(working).wf(),
        r@.map(|j: int, s: String| s@) == slot_conflicts(
            shelved@,
            base_contents@,
            old(working)@,
            shelved@.len() as int,
        ),
        forall|m: int|
            0 <= m < shelved@.len() ==> {
                let p = (#[trigger] shelved@[m]).0@;
                let dec = slot_decision_at(shelved@, base_contents@, old(working)@, m);
                match shelf_applied(dec, local_bytes_at(old(working)@, p), shelved@[m].1.bytes@) {
                    Some(b) => final(working)@.contains_key(p) && final(working)@[p].bytes@ == b,
                    None => !final(working)@.contains_key(p),
                }
            },
        forall|p: Seq<char>|
            #![trigger final(working)@.contains_key(p)]
            #![trigger final(working)@[p]]
            !is_shelved_path(shelved@, p) ==> (final(working)@.contains_key(p) == old(
                working,
            )@.contains_key(p)) && (old(working)@.contains_key(p) ==> final(working)@[p] == old(
                working,
            )@[p]),
        forall|j: int| 0 <= j < r@.len() ==> is_shelved_path(shelved@, (#[trigger] r@[j])@),
{
    let mut conflicted: Vec<String> = Vec::new();
    let n = shelved.len();
    let mut i: usize = 0;
    while i < n
        invariant
            working.wf(),
            n == shelved@.len(),
            shelved@.len() == base_contents@.len(),
            shelved_distinct(shelved@),
            i <= n,
            conflicted@.map(|j: int, s: String| s@) == slot_conflicts(
                shelved@,
                base_contents@,
                old(working)@,
                i as int,
            ),
            forall|m: int|
                0 <= m < i ==> {
                    let p = (#[trigger] shelved@[m]).0@;
                    let dec = slot_decision_at(shelved@, base_contents@, old(working)@, m);
                    match shelf_applied(dec, local_bytes_at(old(working)@, p), shelved@[m].1.bytes@)
                    {
                        Some(b) => working@.contains_key(p) && working@[p].bytes@ == b,
                        None => !working@.contains_key(p),
                    }
                },
            forall|p: Seq<char>|
                #![trigger working@.contains_key(p)]
                #![trigger working@[p]]
                !is_shelved_path(shelved@.subrange(0, i as int), p) ==> (working@.contains_key(p)
                    == old(working)@.contains_key(p)) && (old(working)@.contains_key(p)
                    ==> working@[p] == old(working)@[p]),
            forall|j: int|
                0 <= j < conflicted@.len() ==> is_shelved_path(
                    shelved@,
                    (#[trigger] conflicted@[j])@,
                ),
        decreases n - i,
    {
        let entry = &shelved[i];
        let base = match &base_contents[i] {
            Some(b) => Some(b),
            None => None,
        };
        proof {
            assert(!is_shelved_path(shelved@.subrange(0, i as int), entry.0@)) by {
                if is_shelved_path(shelved@.subrange(0, i as int), entry.0@) {
                    let m = choose|m: int|
                        0 <= m < i && (#[trigger] shelved@.subrange(0, i as int)[m]).0@ == entry.0@;
                    assert(shelved@[m].0@ == shelved@[i as int].0@);
                }
            }
        }
        proof {
            assert((working@.contains_key(entry.0@) == old(working)@.contains_key(entry.0@)) && (
            old(working)@.contains_key(entry.0@) ==> working@[entry.0@] == old(
                working,
            )@[entry.0@]));
        }
        let ghost w_pre = working@;
        let ghost c_pre = conflicted@;
        let outcome = apply_shelved_file(working, entry.0.as_str(), base, &entry.1);
        proof {
            assert(local_bytes_at(w_pre, entry.0@) == local_bytes_at(old(working)@, entry.0@));
            assert(outcome == slot_decision_at(shelved@, base_contents@, old(working)@, i as int));
        }
        if matches!(outcome, ShelfOutcome::Conflict) {
            conflicted.push(entry.0.clone());
            proof {
                assert(shelved@[i as int].0@ == conflicted@[conflicted@.len() - 1]@);
                assert(is_shelved_path(shelved@, conflicted@[conflicted@.len() - 1]@));
            }
        }
        proof {
            assert(conflicted@.map(|j: int, s: String| s@) =~= slot_conflicts(
                shelved@,
                base_contents@,
                old(working)@,
                i + 1,
            ));
            assert forall|m: int| 0 <= m < i + 1 implies {
                let p = (#[trigger] shelved@[m]).0@;
                let dec = slot_decision_at(shelved@, base_contents@, old(working)@, m);
                match shelf_applied(dec, local_bytes_at(old(working)@, p), shelved@[m].1.bytes@) {
                    Some(b) => working@.contains_key(p) && working@[p].bytes@ == b,
                    None => !working@.contains_key(p),
                }
            } by {
                if m < i {
                    assert(shelved@[m].0@ != shelved@[i as int].0@);
                } else {
                    assert(shelved@[i as int].0@ == entry.0@);
                    assert(shelved@[i as int].1.bytes@ == entry.1.bytes@);
                    assert(local_bytes_at(w_pre, entry.0@) == local_bytes_at(
                        old(working)@,
                        entry.0@,
                    ));
                }
            }
            assert forall|p: Seq<char>|
                !is_shelved_path(shelved@.subrange(0, i + 1), p) implies (working@.contains_key(p)
                == old(working)@.contains_key(p)) && (old(working)@.contains_key(p)
                ==> working@[p] == old(working)@[p]) by {
                assert(p != shelved@[i as int].0@) by {
                    if p == shelved@[i as int].0@ {
                        assert((shelved@.subrange(0, i + 1)[i as int]).0@ == p);
                    }
                }
                assert(!is_shelved_path(shelved@.subrange(0, i as int), p)) by {
                    if is_shelved_path(shelved@.subrange(0, i as int), p) {
                        let m = choose|m: int|
                            0 <= m < i && (#[trigger] shelved@.subrange(0, i as int)[m]).0@ == p;
                        assert((shelved@.subrange(0, i + 1)[m]).0@ == p);
                    }
                }
            }
        }
        i = i + 1;
    }
    proof {
        assert(shelved@.subrange(0, n as int) =~= shelved@);
        assert forall|p: Seq<char>| !is_shelved_path(shelved@, p) implies !is_shelved_path(
            shelved@.subrange(0, n as int),
            p,
        ) by {}
    }
    conflicted
}

} // verus!
