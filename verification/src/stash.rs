//! The ref-backed stash engine: a densely numbered stack of shelved
//! working-copy states, each a commit on a hidden ref. Slot `0` is the most
//! recent; saving shifts every slot up, dropping compacts the stack.

use vstd::prelude::*;

verus! {

use crate::errors::OxenError;
use crate::kvdb::KvDb;
use crate::model::{Commit, WorkingFile, FileNode, NodeMergeConflict};
use crate::repo::LocalRepository;
use crate::tree::Tree;
use crate::version_store::VersionStore;
use crate::strings::{dec_spec, u64_to_dec_string, parse_dec, str_eq, str_starts_with, is_prefix_of};

/// An entry of the stash list.
pub struct StashEntry {
    /// Display name, `stash@{0}`, `stash@{1}`, and so on.
    pub name: String,
    /// The backing ref name, `refs/stashes/0` and so on.
    pub ref_name: String,
    /// The commit the slot points at.
    pub commit: Commit,
}

impl Clone for StashEntry {
    fn clone(&self) -> (r: Self)
        ensures
            r.name == self.name,
            r.ref_name == self.ref_name,
            r.commit@ == self.commit@,
    {
        StashEntry {
            name: self.name.clone(),
            ref_name: self.ref_name.clone(),
            commit: self.commit.clone(),
        }
    }
}

/// The ref name of stash slot `i`.
pub open spec fn stash_ref_spec(i: int) -> Seq<char> {
    "refs/stashes/"@ + dec_spec(i)
}

/// The display name of stash slot `i`.
pub open spec fn stash_name_spec(i: int) -> Seq<char> {
    "stash@{"@ + dec_spec(i) + "}"@
}

/// Renders the ref name of a stash slot.
pub fn stash_ref_name(idx: u64) -> (r: String)
    ensures
        r@ == stash_ref_spec(idx as int),
{
    let mut s = String::from_str("refs/stashes/");
    let d = u64_to_dec_string(idx);
    s.append(d.as_str());
    s
}

/// Renders the display name of a stash slot.
pub fn stash_display_name(idx: u64) -> (r: String)
    ensures
        r@ == stash_name_spec(idx as int),
{
    let mut s = String::from_str("stash@{");
    let d = u64_to_dec_string(idx);
    s.append(d.as_str());
    s.append("}");
    proof {
        assert(s@ =~= stash_name_spec(idx as int));
    }
    s
}

/// A decimal numeral never renders empty.
proof fn lemma_dec_len_pos(n: int)
    ensures
        dec_spec(n).len() >= 1,
    decreases n,
{
    if n >= 10 {
        lemma_dec_len_pos(n / 10);
    }
}

/// Distinct digits render as distinct digit characters.
proof fn lemma_digit_char_injective(x: int, y: int)
    requires
        0 <= x < 10,
        0 <= y < 10,
        crate::strings::digit_char(x) == crate::strings::digit_char(y),
    ensures
        x == y,
{
    let s = seq!['0', '1', '2', '3', '4', '5', '6', '7', '8', '9'];
    assert(s[0] == '0' && s[1] == '1' && s[2] == '2' && s[3] == '3' && s[4] == '4' && s[5] == '5'
        && s[6] == '6' && s[7] == '7' && s[8] == '8' && s[9] == '9');
}

/// Distinct numbers render as distinct numerals.
proof fn lemma_dec_injective(a: int, b: int)
    requires
        a >= 0,
        b >= 0,
        dec_spec(a) == dec_spec(b),
    ensures
        a == b,
    decreases a,
{
    lemma_dec_len_pos(a);
    lemma_dec_len_pos(b);
    if a < 10 && b < 10 {
        assert(dec_spec(a)[0] == crate::strings::digit_char(a));
        assert(dec_spec(b)[0] == crate::strings::digit_char(b));
        lemma_digit_char_injective(a, b);
    } else if a >= 10 && b >= 10 {
        lemma_dec_len_pos(a / 10);
        lemma_dec_len_pos(b / 10);
        assert(dec_spec(a) == dec_spec(a / 10).push(crate::strings::digit_char(a % 10)));
        assert(dec_spec(b) == dec_spec(b / 10).push(crate::strings::digit_char(b % 10)));
        assert(dec_spec(a).last() == crate::strings::digit_char(a % 10));
        assert(dec_spec(b).last() == crate::strings::digit_char(b % 10));
        lemma_digit_char_injective(a % 10, b % 10);
        assert(dec_spec(a).drop_last() =~= dec_spec(a / 10));
        assert(dec_spec(b).drop_last() =~= dec_spec(b / 10));
        lemma_dec_injective(a / 10, b / 10);
    } else if a < 10 {
        lemma_dec_len_pos(b / 10);
        assert(dec_spec(b).len() >= 2);
        assert(dec_spec(a).len() == 1);
    } else {
        lemma_dec_len_pos(a / 10);
        assert(dec_spec(a).len() >= 2);
        assert(dec_spec(b).len() == 1);
    }
}

/// Distinct slot numbers have distinct ref names.
pub proof fn lemma_stash_ref_injective(a: int, b: int)
    requires
        a >= 0,
        b >= 0,
        stash_ref_spec(a) == stash_ref_spec(b),
    ensures
        a == b,
{
    let p = "refs/stashes/"@;
    assert(dec_spec(a) =~= (p + dec_spec(a)).subrange(p.len() as int, (p + dec_spec(a)).len() as int));
    assert(dec_spec(b) =~= (p + dec_spec(b)).subrange(p.len() as int, (p + dec_spec(b)).len() as int));
    lemma_dec_injective(a, b);
}

/// The first line of a message: everything before the first line feed, the
/// whole message when it has none.
pub open spec fn first_nl_idx(s: Seq<char>) -> int
    decreases s.len(),
{
    if s.len() == 0 {
        0
    } else if s.first() == '\n' {
        0
    } else {
        1 + first_nl_idx(s.drop_first())
    }
}

pub open spec fn first_line_of(s: Seq<char>) -> Seq<char> {
    s.subrange(0, first_nl_idx(s))
}

proof fn lemma_first_nl_bounds(s: Seq<char>)
    ensures
        0 <= first_nl_idx(s) <= s.len(),
    decreases s.len(),
{
    if s.len() > 0 && s.first() != '\n' {
        lemma_first_nl_bounds(s.drop_first());
    }
}

/// The first line of a string.
pub fn string_first_line(s: &str) -> (r: String)
    ensures
        r@ == first_line_of(s@),
{
    let n = s.unicode_len();
    let mut i: usize = 0;
    proof {
        assert(s@.skip(0) =~= s@);
    }
    while i < n
        invariant
            n == s@.len(),
            i <= n,
            first_nl_idx(s@) == i + first_nl_idx(s@.skip(i as int)),
            forall|j: int| 0 <= j < i ==> s@[j] != '\n',
        decreases n - i,
    {
        let c = s.get_char(i);
        proof {
            let rest = s@.skip(i as int);
            assert(rest.len() > 0);
            assert(rest.first() == s@[i as int]);
            assert(rest.drop_first() =~= s@.skip(i + 1 as int));
        }
        if c == '\n' {
            proof {
                lemma_first_nl_bounds(s@);
            }
            return s.substring_char(0, i).to_owned();
        }
        i = i + 1;
    }
    proof {
        assert(s@.skip(n as int).len() == 0);
        assert(first_nl_idx(s@) == n);
        assert(s@.subrange(0, n as int) =~= s@);
    }
    s.to_owned()
}

/// The short display prefix of a commit id: its first ten characters, or
/// the whole id when it is shorter.
pub open spec fn id_prefix_of(id: Seq<char>) -> Seq<char> {
    if id.len() <= 10 {
        id
    } else {
        id.subrange(0, 10)
    }
}

/// The short display prefix of a commit id.
pub fn commit_id_prefix(id: &str) -> (r: String)
    ensures
        r@ == id_prefix_of(id@),
{
    let n = id.unicode_len();
    if n <= 10 {
        proof {
            assert(id@.subrange(0, n as int) =~= id@);
        }
        id.to_owned()
    } else {
        id.substring_char(0, 10).to_owned()
    }
}

/// The message of a stash commit: the branch, the head commit's short id
/// and first message line, and the user's message when one was given.
pub open spec fn stash_message_spec(
    branch: Seq<char>,
    head_id: Seq<char>,
    head_msg: Seq<char>,
    user: Option<Seq<char>>,
) -> Seq<char> {
    let base = "WIP on "@ + branch + ": "@ + id_prefix_of(head_id) + " "@ + first_line_of(
        head_msg,
    );
    match user {
        Some(u) => base + "\n\n"@ + u,
        None => base,
    }
}

/// Builds the message for a stash commit. Fails when no branch is checked
/// out: a stash can only be saved on a branch.
pub fn get_stash_commit_message(repo: &LocalRepository, user_message: Option<&str>) -> (r: Result<
    String,
    OxenError,
>)
    requires
        repo.wf(),
    ensures
        match r {
            Ok(m) => repo.current_branch matches Some(b) && m@ == stash_message_spec(
                b@,
                repo.head_commit_id@,
                repo.commits@[repo.head_commit_id@]@.message,
                match user_message {
                    Some(u) => Some(u@),
                    None => None,
                },
            ),
            Err(e) => repo.current_branch is None && e matches OxenError::MustBeOnBranchToStash,
        },
{
    let head_commit = match repo.commits.get(repo.head_commit_id.as_str()) {
        Some(c) => c,
        None => {
            proof {
                assert(false);
            }
            unreached()
        },
    };
    let current_branch = match &repo.current_branch {
        Some(b) => b,
        None => {
            return Err(OxenError::MustBeOnBranchToStash);
        },
    };

    let mut base_message = String::from_str("WIP on ");
    base_message.append(current_branch.as_str());
    base_message.append(": ");
    let prefix = commit_id_prefix(head_commit.id.as_str());
    base_message.append(prefix.as_str());
    base_message.append(" ");
    let first_line = string_first_line(head_commit.message.as_str());
    base_message.append(first_line.as_str());

    if let Some(msg) = user_message {
        base_message.append("\n\n");
        base_message.append(msg);
    }
    Ok(base_message)
}

/// Lists the stash slots in order: the ref name and commit of slot `0`,
/// slot `1`, and so on up to the first absent ref. Under the repository
/// invariant the listing is complete: its length is the exact number of
/// slots.
pub fn list_stashes_raw(repo: &LocalRepository) -> (r: Result<Vec<(String, Commit)>, OxenError>)
    requires
        repo.wf(),
    ensures
        match r {
            Ok(entries) => {
                &&& repo.stash_slots_exactly(entries@.len() as int)
                &&& entries@.len() <= u64::MAX
                &&& forall|i: int|
                    0 <= i < entries@.len() ==> (#[trigger] entries@[i]).0@ == stash_ref_spec(i)
                &&& forall|i: int|
                    0 <= i < entries@.len() ==> (#[trigger] entries@[i]).1@ == repo.commits@[repo.refs@[stash_ref_spec(
                        i,
                    )]@]@ && entries@[i].1@.id == repo.refs@[stash_ref_spec(i)]@
            },
            Err(_) => false,
        },
{
    let ghost n = choose|n: int| 0 <= n <= u64::MAX && repo.stash_slots_exactly(n);
    let mut stashes: Vec<(String, Commit)> = Vec::new();
    let mut i: u64 = 0;
    loop
        invariant
            repo.wf(),
            0 <= n <= u64::MAX,
            repo.stash_slots_exactly(n),
            i as int <= n,
            stashes@.len() == i,
            forall|j: int| 0 <= j < i ==> (#[trigger] stashes@[j]).0@ == stash_ref_spec(j),
            forall|j: int|
                0 <= j < i ==> (#[trigger] stashes@[j]).1@ == repo.commits@[repo.refs@[stash_ref_spec(
                    j,
                )]@]@ && stashes@[j].1@.id == repo.refs@[stash_ref_spec(j)]@,
        ensures
            i as int == n,
            stashes@.len() == i,
            forall|j: int| 0 <= j < i ==> (#[trigger] stashes@[j]).0@ == stash_ref_spec(j),
            forall|j: int|
                0 <= j < i ==> (#[trigger] stashes@[j]).1@ == repo.commits@[repo.refs@[stash_ref_spec(
                    j,
                )]@]@ && stashes@[j].1@.id == repo.refs@[stash_ref_spec(j)]@,
        decreases n - i,
    {
        let ref_name = stash_ref_name(i);
        match repo.refs.get(ref_name.as_str()) {
            Some(commit_id) => {
                proof {
                    assert(repo.refs@.contains_key(stash_ref_spec(i as int)));
                    assert((i as int) < n);
                }
                let commit = match repo.commits.get(commit_id.as_str()) {
                    Some(c) => c.clone(),
                    None => {
                        proof {
                            assert(false);
                        }
                        unreached()
                    },
                };
                stashes.push((ref_name, commit));
                i = i + 1;
            },
            None => {
                proof {
                    assert(!repo.refs@.contains_key(stash_ref_spec(i as int)));
                    assert(i as int >= n);
                }
                break;
            },
        }
    }
    proof {
        assert(i as int == n);
        assert(stashes@.len() as int == n);
        assert(repo.stash_slots_exactly(stashes@.len() as int));
    }
    Ok(stashes)
}

/// Lists all stash entries: `stash@{0}` is the most recent.
pub fn list(repo: &LocalRepository) -> (r: Result<Vec<StashEntry>, OxenError>)
    requires
        repo.wf(),
    ensures
        match r {
            Ok(entries) => {
                &&& repo.stash_slots_exactly(entries@.len() as int)
                &&& forall|i: int|
                    0 <= i < entries@.len() ==> (#[trigger] entries@[i]).name@ == stash_name_spec(i)
                        && entries@[i].ref_name@ == stash_ref_spec(i)
                &&& forall|i: int|
                    0 <= i < entries@.len() ==> (#[trigger] entries@[i]).commit@ == repo.commits@[repo.refs@[stash_ref_spec(
                        i,
                    )]@]@ && entries@[i].commit@.id == repo.refs@[stash_ref_spec(i)]@
            },
            Err(_) => false,
        },
{
    let raw_stashes = match list_stashes_raw(repo) {
        Ok(v) => v,
        Err(e) => {
            return Err(e);
        },
    };
    let mut entries: Vec<StashEntry> = Vec::new();
    let mut idx: usize = 0;
    while idx < raw_stashes.len()
        invariant
            raw_stashes@.len() <= u64::MAX,
            idx <= raw_stashes@.len(),
            entries@.len() == idx,
            forall|i: int|
                0 <= i < raw_stashes@.len() ==> (#[trigger] raw_stashes@[i]).0@ == stash_ref_spec(
                    i,
                ),
            forall|i: int|
                0 <= i < idx ==> (#[trigger] entries@[i]).name@ == stash_name_spec(i)
                    && entries@[i].ref_name@ == stash_ref_spec(i) && entries@[i].commit@
                    == raw_stashes@[i].1@,
        decreases raw_stashes@.len() - idx,
    {
        let name = stash_display_name(idx as u64);
        let pair = &raw_stashes[idx];
        entries.push(
            StashEntry { name, ref_name: pair.0.clone(), commit: pair.1.clone() },
        );
        idx = idx + 1;
    }
    Ok(entries)
}

/// Whether a ref name denotes some stash slot.
pub open spec fn is_stash_ref(rn: Seq<char>) -> bool {
    exists|i: int| 0 <= i && rn == stash_ref_spec(i)
}

/// Deletes slot `k` and compacts the stack: every higher slot moves down by
/// one, so the remaining slots are again exactly `0` to `n - 2`. All other
/// refs and every other part of the repository stay as they were.
pub fn drop_by_index(repo: &mut LocalRepository, k: u64) -> (r: Result<(), OxenError>)
    requires
        old(repo).wf(),
        exists|n: int| #![auto] 0 <= n && old(repo).stash_slots_exactly(n) && (k as int) < n,
    ensures
        r is Ok,
        final(repo).wf(),
        forall|n: int|
            0 <= n && old(repo).stash_slots_exactly(n) ==> final(repo).stash_slots_exactly(n - 1),
        forall|i: int|
            #![trigger final(repo).refs@[stash_ref_spec(i)]]
            0 <= i < k ==> final(repo).refs@[stash_ref_spec(i)] == old(repo).refs@[stash_ref_spec(i)],
        forall|i: int|
            #![trigger final(repo).refs@[stash_ref_spec(i)]]
            k <= i && old(repo).refs@.contains_key(stash_ref_spec(i + 1))
                ==> final(repo).refs@[stash_ref_spec(i)]@ == old(repo).refs@[stash_ref_spec(i + 1)]@,
        forall|rn: Seq<char>|
            !is_stash_ref(rn) ==> (final(repo).refs@.contains_key(rn) == old(repo).refs@.contains_key(rn)) && (old(repo).refs@.contains_key(rn) ==> final(repo).refs@[rn] == old(repo).refs@[rn]),
        final(repo).working == old(repo).working,
        final(repo).staged == old(repo).staged,
        final(repo).conflicts == old(repo).conflicts,
        final(repo).commits == old(repo).commits,
        final(repo).trees == old(repo).trees,
        final(repo).versions == old(repo).versions,
        final(repo).head_commit_id == old(repo).head_commit_id,
        final(repo).current_branch == old(repo).current_branch,
        final(repo).author == old(repo).author,
{
    let entries = match list_stashes_raw(repo) {
        Ok(v) => v,
        Err(e) => {
            proof {
                assert(false);
            }
            return Err(e);
        },
    };
    let n = entries.len();
    let ghost nn = n as int;
    proof {
        let m = choose|m: int| 0 <= m && old(repo).stash_slots_exactly(m) && (k as int) < m;
        assert(old(repo).refs@.contains_key(stash_ref_spec(nn)) <==> nn < m);
        assert(old(repo).refs@.contains_key(stash_ref_spec(m)) <==> m < nn);
        assert(nn == m);
    }

    let mut i: usize = (k + 1) as usize;
    while i < n
        invariant
            repo.working == old(repo).working,
            repo.staged == old(repo).staged,
            repo.conflicts == old(repo).conflicts,
            repo.commits == old(repo).commits,
            repo.trees == old(repo).trees,
            repo.versions == old(repo).versions,
            repo.head_commit_id == old(repo).head_commit_id,
            repo.current_branch == old(repo).current_branch,
            repo.author == old(repo).author,
            repo.refs.wf(),
            old(repo).wf(),
            nn == entries@.len(),
            n as int == nn,
            old(repo).stash_slots_exactly(nn),
            (k as int) < nn <= u64::MAX,
            k < i as u64,
            i as int <= nn,
            forall|j: int|
                0 <= j < nn ==> (#[trigger] entries@[j]).1@.id == old(repo).refs@[stash_ref_spec(j)]@,
            forall|rn: Seq<char>|
                #![trigger repo.refs@.contains_key(rn)]
                repo.refs@.contains_key(rn) == old(repo).refs@.contains_key(rn),
            forall|j: int|
                #![trigger repo.refs@[stash_ref_spec(j)]]
                k <= j < i - 1 ==> repo.refs@[stash_ref_spec(j)]@ == old(repo).refs@[stash_ref_spec(
                    j + 1,
                )]@,
            forall|rn: Seq<char>|
                #![trigger repo.refs@[rn]]
                old(repo).refs@.contains_key(rn) && (forall|j: int|
                    k <= j < i - 1 ==> rn != stash_ref_spec(j)) ==> repo.refs@[rn] == old(repo).refs@[rn],
            forall|rn: Seq<char>|
                #![trigger repo.refs@[rn]]
                repo.refs@.contains_key(rn) ==> repo.commits@.contains_key(repo.refs@[rn]@),
        decreases n - i,
    {
        let new_ref = stash_ref_name((i - 1) as u64);
        let commit_id = entries[i].1.id.clone();
        proof {
            lemma_stash_ref_injective_all();
            assert(old(repo).refs@.contains_key(stash_ref_spec(i as int)));
            assert(repo.commits@.contains_key(commit_id@));
        }
        repo.refs.put(new_ref, commit_id);
        i = i + 1;
    }

    let last_ref = stash_ref_name((n - 1) as u64);
    proof {
        lemma_stash_ref_injective_all();
    }
    repo.refs.delete(last_ref.as_str());

    proof {
        lemma_stash_ref_injective_all();
        assert forall|m: int| 0 <= m && old(repo).stash_slots_exactly(m) implies final(repo).stash_slots_exactly(m - 1) by {
            assert(old(repo).refs@.contains_key(stash_ref_spec(m)) <==> m < m);
            assert(m == nn);
            assert forall|j: int| 0 <= j implies (final(repo).refs@.contains_key(
                #[trigger] stash_ref_spec(j),
            ) <==> j < nn - 1) by {
                if j < nn - 1 {
                    assert(stash_ref_spec(j) != stash_ref_spec(nn - 1));
                }
            }
        }
        assert(final(repo).wf()) by {
            assert(final(repo).stash_slots_exactly(nn - 1));
            assert(nn - 1 <= u64::MAX);
            assert forall|rn: Seq<char>| #[trigger] final(repo).refs@.contains_key(rn) implies final(repo).commits@.contains_key(final(repo).refs@[rn]@) by {}
        }
    }
    Ok(())
}


/// A stash identifier with a `stash@` prefix and braces stripped:
/// `stash@{3}` normalizes to `3`.
pub open spec fn normalized_stash_id(s: Seq<char>) -> Seq<char> {
    let t = if is_prefix_of("stash@"@, s) {
        s.skip("stash@"@.len() as int)
    } else {
        s
    };
    let t1 = if t.len() > 0 && t.first() == '{' {
        t.drop_first()
    } else {
        t
    };
    if t1.len() > 0 && t1.last() == '}' {
        t1.drop_last()
    } else {
        t1
    }
}

/// Strips `stash@` and braces from a stash identifier.
pub fn normalize_stash_id(s: &str) -> (r: String)
    ensures
        r@ == normalized_stash_id(s@),
{
    let mut t: String = if str_starts_with(s, "stash@") {
        let n = s.unicode_len();
        let p = "stash@".unicode_len();
        proof {
            assert(s@.subrange(p as int, n as int) =~= s@.skip("stash@"@.len() as int));
        }
        s.substring_char(p, n).to_owned()
    } else {
        s.to_owned()
    };
    let tlen = t.unicode_len();
    if tlen > 0 && t.as_str().get_char(0) == '{' {
        proof {
            assert(t@.subrange(1, tlen as int) =~= t@.drop_first());
        }
        t = t.as_str().substring_char(1, tlen).to_owned();
    }
    let tlen1 = t.unicode_len();
    if tlen1 > 0 && t.as_str().get_char(tlen1 - 1) == '}' {
        proof {
            assert(t@.subrange(0, tlen1 - 1 as int) =~= t@.drop_last());
        }
        t = t.as_str().substring_char(0, tlen1 - 1).to_owned();
    }
    t
}

/// Whether the identifier string picks slot `i` by commit-id prefix or by
/// full ref name.
pub open spec fn slot_text_match(repo: LocalRepository, s: Seq<char>, i: int) -> bool {
    is_prefix_of(s, repo.commits@[repo.refs@[stash_ref_spec(i)]@]@.id) || s == stash_ref_spec(i)
}

/// Whether the identifier matches slot `i` in full: it is the slot's whole
/// commit id or its whole ref name, the longest match an identifier can
/// make.
pub open spec fn slot_exact_match(repo: LocalRepository, s: Seq<char>, i: int) -> bool {
    s == repo.commits@[repo.refs@[stash_ref_spec(i)]@]@.id || s == stash_ref_spec(i)
}

/// How a non-numeric identifier resolves among the slots: the longest match
/// wins, so a slot the identifier matches in full beats every slot it only
/// prefixes; among matches of the same length the lowest slot is taken.
pub open spec fn text_resolves(repo: LocalRepository, s: Seq<char>, i: int) -> bool {
    if exists|j: int|
        0 <= j && repo.refs@.contains_key(stash_ref_spec(j)) && slot_exact_match(repo, s, j) {
        slot_exact_match(repo, s, i) && forall|j: int| 0 <= j < i ==> !slot_exact_match(repo, s, j)
    } else {
        slot_text_match(repo, s, i) && forall|j: int| 0 <= j < i ==> !slot_text_match(repo, s, j)
    }
}

/// How a stash identifier resolves to a slot: absent picks slot `0`; a
/// numeral (after normalization) picks that slot; anything else picks a
/// slot by commit id or ref name, longest match first.
pub open spec fn resolves_to_slot(repo: LocalRepository, id: Option<Seq<char>>, i: int) -> bool {
    match id {
        None => i == 0,
        Some(s) => {
            let t = normalized_stash_id(s);
            match crate::strings::parse_dec_spec(t) {
                Some(v) => if v <= u64::MAX {
                    v == i
                } else {
                    text_resolves(repo, s, i)
                },
                None => text_resolves(repo, s, i),
            }
        },
    }
}

/// Resolves a stash identifier to a slot index. `None` when there are no
/// stashes at all or nothing matches.
fn resolve_stash_id_to_index(repo: &LocalRepository, stash_id: Option<&str>) -> (r: Result<
    u64,
    OxenError,
>)
    requires
        repo.wf(),
    ensures
        match r {
            Ok(i) => {
                &&& !repo.stash_slots_exactly(0)
                &&& exists|n: int| #![auto] 0 <= n && repo.stash_slots_exactly(n) && (i as int) < n
                &&& resolves_to_slot(
                    *repo,
                    match stash_id {
                        Some(s) => Some(s@),
                        None => None,
                    },
                    i as int,
                )
            },
            Err(e) => match e {
                OxenError::NoStashesFound => repo.stash_slots_exactly(0),
                OxenError::StashIdNotFound(_) => !repo.stash_slots_exactly(0) && (
                stash_id matches Some(s) && forall|i: int|
                    0 <= i && repo.refs@.contains_key(stash_ref_spec(i)) ==> !resolves_to_slot(
                        *repo,
                        Some(s@),
                        i,
                    )),
                _ => false,
            },
        },
{
    let entries = match list_stashes_raw(repo) {
        Ok(v) => v,
        Err(e) => {
            proof {
                assert(false);
            }
            return Err(e);
        },
    };
    let n = entries.len();
    if n == 0 {
        return Err(OxenError::NoStashesFound);
    }
    proof {
        assert(repo.stash_slots_exactly(n as int));
        assert(repo.refs@.contains_key(stash_ref_spec(0)));
        assert(!repo.stash_slots_exactly(0));
    }
    let id_str = match stash_id {
        None => {
            proof {
                assert(0 <= n as int && repo.stash_slots_exactly(n as int) && 0 < n as int);
            }
            return Ok(0);
        },
        Some(s) => s,
    };

    let normalized = normalize_stash_id(id_str);
    let normalized_str: &str = normalized.as_str();
    match parse_dec(normalized_str) {
        Some(v) => {
            if v < n as u64 {
                proof {
                    assert(0 <= n as int && repo.stash_slots_exactly(n as int) && (v as int) < n as int);
                }
                return Ok(v);
            } else {
                proof {
                    assert forall|i: int|
                        0 <= i && repo.refs@.contains_key(stash_ref_spec(i)) implies !resolves_to_slot(
                        *repo,
                        Some(id_str@),
                        i,
                    ) by {
                        assert(i < n as int);
                    }
                }
                return Err(OxenError::StashIdNotFound(id_str.to_owned()));
            }
        },
        None => {
            proof {
                assert(match crate::strings::parse_dec_spec(normalized_stash_id(id_str@)) {
                    Some(v) => v > u64::MAX,
                    None => true,
                });
            }
        },
    }

    let mut e: usize = 0;
    while e < n
        invariant
            repo.wf(),
            n == entries@.len(),
            n <= u64::MAX,
            repo.stash_slots_exactly(n as int),
            !repo.stash_slots_exactly(0),
            stash_id matches Some(s) && s@ == id_str@,
            match crate::strings::parse_dec_spec(normalized_stash_id(id_str@)) {
                Some(v) => v > u64::MAX,
                None => true,
            },
            e <= n,
            forall|j: int|
                0 <= j < n ==> (#[trigger] entries@[j]).0@ == stash_ref_spec(j) && entries@[j].1@
                    == repo.commits@[repo.refs@[stash_ref_spec(j)]@]@,
            forall|j: int| 0 <= j < e ==> !slot_exact_match(*repo, id_str@, j),
        decreases n - e,
    {
        let entry = &entries[e];
        let by_full_id = str_eq(entry.1.id.as_str(), id_str);
        let by_ref = str_eq(entry.0.as_str(), id_str);
        if by_full_id || by_ref {
            proof {
                assert(slot_exact_match(*repo, id_str@, e as int));
                assert(repo.refs@.contains_key(stash_ref_spec(e as int)));
                assert(text_resolves(*repo, id_str@, e as int));
                assert(0 <= n as int && repo.stash_slots_exactly(n as int) && (e as int) < n as int);
            }
            return Ok(e as u64);
        }
        e = e + 1;
    }
    proof {
        assert forall|j: int|
            0 <= j && repo.refs@.contains_key(stash_ref_spec(j)) implies !slot_exact_match(
            *repo,
            id_str@,
            j,
        ) by {
            assert(j < n as int);
        }
    }

    let mut i: usize = 0;
    while i < n
        invariant
            repo.wf(),
            n == entries@.len(),
            n <= u64::MAX,
            repo.stash_slots_exactly(n as int),
            !repo.stash_slots_exactly(0),
            stash_id matches Some(s) && s@ == id_str@,
            match crate::strings::parse_dec_spec(normalized_stash_id(id_str@)) {
                Some(v) => v > u64::MAX,
                None => true,
            },
            i <= n,
            forall|j: int|
                0 <= j && repo.refs@.contains_key(stash_ref_spec(j)) ==> !slot_exact_match(
                    *repo,
                    id_str@,
                    j,
                ),
            forall|j: int|
                0 <= j < n ==> (#[trigger] entries@[j]).0@ == stash_ref_spec(j) && entries@[j].1@
                    == repo.commits@[repo.refs@[stash_ref_spec(j)]@]@,
            forall|j: int| 0 <= j < i ==> !slot_text_match(*repo, id_str@, j),
        decreases n - i,
    {
        let entry = &entries[i];
        let by_prefix = str_starts_with(entry.1.id.as_str(), id_str);
        let by_ref = str_eq(entry.0.as_str(), id_str);
        if by_prefix || by_ref {
            proof {
                assert(slot_text_match(*repo, id_str@, i as int));
                assert(text_resolves(*repo, id_str@, i as int));
                assert(0 <= n as int && repo.stash_slots_exactly(n as int) && (i as int) < n as int);
            }
            return Ok(i as u64);
        }
        i = i + 1;
    }
    proof {
        assert forall|j: int|
            0 <= j && repo.refs@.contains_key(stash_ref_spec(j)) implies !resolves_to_slot(
            *repo,
            Some(id_str@),
            j,
        ) by {
            assert(j < n as int);
            assert(!slot_text_match(*repo, id_str@, j));
        }
    }
    Err(OxenError::StashIdNotFound(id_str.to_owned()))
}

/// Resolves a stash identifier to its entry.
pub fn resolve_stash_id_to_entry(repo: &LocalRepository, stash_id: Option<&str>) -> (r: Result<
    StashEntry,
    OxenError,
>)
    requires
        repo.wf(),
    ensures
        match r {
            Ok(e) => exists|i: int|
                #![auto]
                0 <= i && repo.refs@.contains_key(stash_ref_spec(i)) && e.name@ == stash_name_spec(
                    i,
                ) && e.ref_name@ == stash_ref_spec(i) && e.commit@ == repo.commits@[repo.refs@[stash_ref_spec(
                    i,
                )]@]@ && resolves_to_slot(
                    *repo,
                    match stash_id {
                        Some(s) => Some(s@),
                        None => None,
                    },
                    i,
                ),
            Err(e) => match e {
                OxenError::NoStashesFound => repo.stash_slots_exactly(0),
                OxenError::StashIdNotFound(_) => stash_id is Some && !repo.stash_slots_exactly(0),
                _ => false,
            },
        },
{
    let idx = match resolve_stash_id_to_index(repo, stash_id) {
        Ok(i) => i,
        Err(e) => {
            return Err(e);
        },
    };
    let ref_name = stash_ref_name(idx);
    let commit = match repo.refs.get(ref_name.as_str()) {
        Some(cid) => match repo.commits.get(cid.as_str()) {
            Some(c) => c.clone(),
            None => {
                proof {
                    assert(false);
                }
                unreached()
            },
        },
        None => {
            proof {
                let n = choose|n: int| #![auto] 0 <= n && repo.stash_slots_exactly(n) && (idx as int) < n;
                assert(repo.refs@.contains_key(stash_ref_spec(idx as int)));
                assert(false);
            }
            unreached()
        },
    };
    let name = stash_display_name(idx);
    Ok(StashEntry { name, ref_name, commit })
}

/// Removes a single stash entry from the stash list, compacting the stack:
/// the resolved slot vanishes, lower slots stay as they were, and every
/// higher slot moves down by one.
pub fn drop(repo: &mut LocalRepository, stash_id: Option<&str>) -> (r: Result<(), OxenError>)
    requires
        old(repo).wf(),
    ensures
        final(repo).wf(),
        match r {
            Ok(_) => exists|i: int|
                #![auto]
                0 <= i && old(repo).refs@.contains_key(stash_ref_spec(i)) && resolves_to_slot(
                    *old(repo),
                    match stash_id {
                        Some(s) => Some(s@),
                        None => None,
                    },
                    i,
                ) && (forall|n: int|
                    0 <= n && old(repo).stash_slots_exactly(n) ==> final(repo).stash_slots_exactly(
                        n - 1,
                    )) && (forall|j: int|
                    #![trigger final(repo).refs@[stash_ref_spec(j)]]
                    0 <= j < i ==> final(repo).refs@[stash_ref_spec(j)] == old(
                        repo,
                    ).refs@[stash_ref_spec(j)]) && (forall|j: int|
                    #![trigger final(repo).refs@[stash_ref_spec(j)]]
                    i <= j && old(repo).refs@.contains_key(stash_ref_spec(j + 1))
                        ==> final(repo).refs@[stash_ref_spec(j)]@ == old(
                        repo,
                    ).refs@[stash_ref_spec(j + 1)]@) && (
                forall|rn: Seq<char>|
                    !is_stash_ref(rn) ==> (final(repo).refs@.contains_key(rn) == old(
                        repo,
                    ).refs@.contains_key(rn)) && (old(repo).refs@.contains_key(rn)
                        ==> final(repo).refs@[rn] == old(repo).refs@[rn])),
            Err(e) => *final(repo) == *old(repo) && match e {
                OxenError::NoStashesFound => old(repo).stash_slots_exactly(0),
                OxenError::StashIdNotFound(_) => !old(repo).stash_slots_exactly(0) && (
                stash_id matches Some(s) && forall|i: int|
                    0 <= i && old(repo).refs@.contains_key(stash_ref_spec(i)) ==> !resolves_to_slot(
                        *old(repo),
                        Some(s@),
                        i,
                    )),
                _ => false,
            },
        },
        final(repo).working == old(repo).working,
        final(repo).staged == old(repo).staged,
        final(repo).conflicts == old(repo).conflicts,
        final(repo).commits == old(repo).commits,
        final(repo).trees == old(repo).trees,
        final(repo).versions == old(repo).versions,
        final(repo).head_commit_id == old(repo).head_commit_id,
        final(repo).current_branch == old(repo).current_branch,
{
    let idx = match resolve_stash_id_to_index(repo, stash_id) {
        Ok(i) => i,
        Err(e) => {
            return Err(e);
        },
    };
    let r = drop_by_index(repo, idx);
    proof {
        let n = choose|n: int|
            #![auto]
            0 <= n && old(repo).stash_slots_exactly(n) && (idx as int) < n;
        assert(old(repo).refs@.contains_key(stash_ref_spec(idx as int)));
    }
    r
}

/// Removes all stash entries.
pub fn clear(repo: &mut LocalRepository) -> (r: Result<(), OxenError>)
    requires
        old(repo).wf(),
    ensures
        r is Ok,
        final(repo).wf(),
        final(repo).stash_slots_exactly(0),
        forall|rn: Seq<char>|
            !is_stash_ref(rn) ==> (final(repo).refs@.contains_key(rn) == old(repo).refs@.contains_key(rn)) && (old(repo).refs@.contains_key(rn) ==> final(repo).refs@[rn]
                == old(repo).refs@[rn]),
        final(repo).working == old(repo).working,
        final(repo).staged == old(repo).staged,
        final(repo).conflicts == old(repo).conflicts,
        final(repo).commits == old(repo).commits,
        final(repo).trees == old(repo).trees,
        final(repo).versions == old(repo).versions,
        final(repo).head_commit_id == old(repo).head_commit_id,
        final(repo).current_branch == old(repo).current_branch,
{
    let entries = match list_stashes_raw(repo) {
        Ok(v) => v,
        Err(e) => {
            proof {
                assert(false);
            }
            return Err(e);
        },
    };
    let n = entries.len();
    let ghost nn = n as int;
    let mut i: usize = 0;
    while i < n
        invariant
            repo.working == old(repo).working,
            repo.staged == old(repo).staged,
            repo.conflicts == old(repo).conflicts,
            repo.commits == old(repo).commits,
            repo.trees == old(repo).trees,
            repo.versions == old(repo).versions,
            repo.head_commit_id == old(repo).head_commit_id,
            repo.current_branch == old(repo).current_branch,
            repo.refs.wf(),
            old(repo).wf(),
            nn == entries@.len(),
            n as int == nn,
            nn <= u64::MAX,
            old(repo).stash_slots_exactly(nn),
            i <= n,
            forall|j: int|
                0 <= j ==> (repo.refs@.contains_key(#[trigger] stash_ref_spec(j)) <==> (i <= j
                    < nn)),
            forall|rn: Seq<char>|
                !is_stash_ref(rn) ==> (repo.refs@.contains_key(rn) == old(repo).refs@.contains_key(
                    rn,
                )) && (old(repo).refs@.contains_key(rn) ==> repo.refs@[rn] == old(repo).refs@[rn]),
            forall|rn: Seq<char>|
                #![trigger repo.refs@[rn]]
                repo.refs@.contains_key(rn) ==> repo.commits@.contains_key(repo.refs@[rn]@),
        decreases n - i,
    {
        let ref_name = stash_ref_name(i as u64);
        proof {
            lemma_stash_ref_injective_all();
        }
        repo.refs.delete(ref_name.as_str());
        proof {
            assert forall|rn: Seq<char>| !is_stash_ref(rn) implies (repo.refs@.contains_key(rn)
                == old(repo).refs@.contains_key(rn)) && (old(repo).refs@.contains_key(rn)
                ==> repo.refs@[rn] == old(repo).refs@[rn]) by {
                assert(rn != stash_ref_spec(i as int));
            }
        }
        i = i + 1;
    }
    proof {
        assert(final(repo).wf()) by {
            assert(final(repo).stash_slots_exactly(0));
        }
    }
    Ok(())
}


/// The working tree is clean: it holds exactly the head commit's files, each
/// with its tracked content hash.
pub open spec fn working_clean_spec(repo: LocalRepository) -> bool {
    let t = repo.trees@[repo.head_commit_id@];
    &&& forall|k: Seq<char>| repo.working@.contains_key(k) <==> (#[trigger] t.files@.contains_key(k))
    &&& forall|k: Seq<char>|
        #[trigger] repo.working@.contains_key(k) ==> crate::hash::hash_bytes_spec(
            repo.working@[k].bytes@,
        ) == t.files@[k]@.hash
}

/// Whether the working tree is clean against the head commit.
pub fn working_is_clean(repo: &LocalRepository) -> (r: bool)
    requires
        repo.wf(),
        forall|k: Seq<char>|
            #[trigger] repo.working@.contains_key(k) ==> repo.working@[k].bytes@.len() <= u64::MAX,
    ensures
        r == working_clean_spec(*repo),
{
    let tree = match repo.trees.get(repo.head_commit_id.as_str()) {
        Some(t) => t,
        None => {
            proof {
                assert(false);
            }
            unreached()
        },
    };
    let nw = repo.working.num_keys();
    let mut i: usize = 0;
    while i < nw
        invariant
            repo.wf(),
            forall|k: Seq<char>|
                #[trigger] repo.working@.contains_key(k) ==> repo.working@[k].bytes@.len()
                    <= u64::MAX,
            *tree == repo.trees@[repo.head_commit_id@],
            nw == repo.working.keys_view().len(),
            i <= nw,
            forall|j: int|
                0 <= j < i ==> tree.files@.contains_key(#[trigger] repo.working.keys_view()[j])
                    && crate::hash::hash_bytes_spec(
                    repo.working@[repo.working.keys_view()[j]].bytes@,
                ) == tree.files@[repo.working.keys_view()[j]]@.hash,
        decreases nw - i,
    {
        let key = repo.working.key_at(i);
        let file = match repo.working.get(key.as_str()) {
            Some(f) => f,
            None => {
                proof {
                    assert(false);
                }
                unreached()
            },
        };
        match tree.get_file(key.as_str()) {
            Some(node) => {
                let h = crate::hash::hash_bytes(file.bytes.as_slice());
                if node.hash.to_u128() != h {
                    return false;
                }
            },
            None => {
                return false;
            },
        }
        i = i + 1;
    }
    proof {
        assert forall|k: Seq<char>| #[trigger] repo.working@.contains_key(k) implies tree.files@.contains_key(
            k,
        ) && crate::hash::hash_bytes_spec(repo.working@[k].bytes@) == tree.files@[k]@.hash by {
            repo.working.lemma_contained_key_listed(k);
            let j = choose|j: int|
                0 <= j < repo.working.keys_view().len() && repo.working.keys_view()[j] == k;
            assert(tree.files@.contains_key(repo.working.keys_view()[j]));
        }
    }
    let nt = tree.files.num_keys();
    let mut j: usize = 0;
    while j < nt
        invariant
            repo.wf(),
            *tree == repo.trees@[repo.head_commit_id@],
            nt == tree.files.keys_view().len(),
            j <= nt,
            forall|k: Seq<char>|
                #[trigger] repo.working@.contains_key(k) ==> tree.files@.contains_key(k)
                    && crate::hash::hash_bytes_spec(repo.working@[k].bytes@)
                    == tree.files@[k]@.hash,
            forall|m: int|
                0 <= m < j ==> repo.working@.contains_key(#[trigger] tree.files.keys_view()[m]),
        decreases nt - j,
    {
        let key = tree.files.key_at(j);
        if !repo.working.contains_key(key.as_str()) {
            return false;
        }
        j = j + 1;
    }
    proof {
        assert forall|k: Seq<char>| #[trigger] tree.files@.contains_key(k) implies repo.working@.contains_key(
            k,
        ) by {
            tree.files.lemma_contained_key_listed(k);
        }
        assert forall|k: Seq<char>| #[trigger] repo.working@.contains_key(k) implies tree.files@.contains_key(
            k,
        ) by {
            repo.working.lemma_contained_key_listed(k);
        }
    }
    true
}

/// The tree a stash commit records: one leaf per working-tree file, hashed
/// from its bytes.
pub open spec fn tree_matches_working(t: Tree, w: Map<Seq<char>, WorkingFile>) -> bool {
    &&& forall|k: Seq<char>| t.files@.contains_key(k) <==> (#[trigger] w.contains_key(k))
    &&& forall|k: Seq<char>|
        #[trigger] w.contains_key(k) ==> t.files@[k]@.hash == crate::hash::hash_bytes_spec(
            w[k].bytes@,
        ) && t.files@[k]@.name == k && t.files@[k]@.num_bytes == w[k].bytes@.len()
            && t.files@[k]@.last_modified_seconds == w[k].mtime_seconds
            && t.files@[k]@.last_modified_nanoseconds == w[k].mtime_nanoseconds
}

/// Builds the stash commit's tree from the working tree, storing every
/// file's bytes in the version store.
fn build_stash_tree(working: &KvDb<WorkingFile>, versions: &mut VersionStore) -> (r: Tree)
    requires
        working.wf(),
        crate::repo::working_wf(working@),
        old(versions).wf(),
    ensures
        final(versions).wf(),
        r.wf(),
        tree_matches_working(r, working@),
        forall|h: u128|
            #[trigger] old(versions).contents().contains_key(h) ==> final(versions).contents().contains_key(
                h,
            ) && final(versions).contents()[h] == old(versions).contents()[h],
        forall|k: Seq<char>|
            #[trigger] working@.contains_key(k) ==> final(versions).contents().contains_key(
                crate::hash::hash_bytes_spec(working@[k].bytes@),
            ),
        forall|h: u128|
            #[trigger] final(versions).contents().contains_key(h) && !old(versions).contents().contains_key(h) ==> exists|kw: Seq<char>|
                #![auto]
                working@.contains_key(kw) && h == crate::hash::hash_bytes_spec(working@[kw].bytes@)
                    && final(versions).contents()[h] == working@[kw].bytes@,
{
    let mut tree = Tree::new();
    let n = working.num_keys();
    let mut i: usize = 0;
    while i < n
        invariant
            working.wf(),
            crate::repo::working_wf(working@),
            versions.wf(),
            tree.wf(),
            n == working.keys_view().len(),
            i <= n,
            forall|k: Seq<char>|
                #[trigger] tree.files@.contains_key(k) ==> working@.contains_key(k),
            forall|j: int|
                0 <= j < i ==> tree.files@.contains_key(#[trigger] working.keys_view()[j]),
            forall|k: Seq<char>|
                #[trigger] tree.files@.contains_key(k) ==> tree.files@[k]@.hash
                    == crate::hash::hash_bytes_spec(working@[k].bytes@) && tree.files@[k]@.name == k
                    && tree.files@[k]@.num_bytes == working@[k].bytes@.len()
                    && tree.files@[k]@.last_modified_seconds == working@[k].mtime_seconds
                    && tree.files@[k]@.last_modified_nanoseconds == working@[k].mtime_nanoseconds,
            forall|h: u128|
                #[trigger] old(versions).contents().contains_key(h) ==> versions.contents().contains_key(
                    h,
                ) && versions.contents()[h] == old(versions).contents()[h],
            forall|h: u128|
                #[trigger] versions.contents().contains_key(h) && !old(versions).contents().contains_key(
                    h,
                ) ==> exists|k: Seq<char>|
                    #![auto]
                    working@.contains_key(k) && h == crate::hash::hash_bytes_spec(working@[k].bytes@)
                        && versions.contents()[h] == working@[k].bytes@,
            forall|j: int|
                0 <= j < i ==> versions.contents().contains_key(
                    crate::hash::hash_bytes_spec(
                        working@[#[trigger] working.keys_view()[j]].bytes@,
                    ),
                ),
        decreases n - i,
    {
        let key = working.key_at(i);
        let file = match working.get(key.as_str()) {
            Some(f) => f,
            None => {
                proof {
                    assert(false);
                }
                unreached()
            },
        };
        let h = crate::hash::hash_bytes(file.bytes.as_slice());
        versions.store_version(h, crate::model::clone_bytes(&file.bytes));
        let file_name = crate::paths::path_file_name(key.as_str());
        let ext = crate::paths::name_extension(file_name.as_str());
        let dt = crate::add::data_type_from_extension(ext.as_str());
        let node = FileNode {
            name: key.clone(),
            hash: crate::hash::MerkleHash::new(h),
            combined_hash: crate::hash::MerkleHash::new(h),
            metadata_hash: None,
            num_bytes: file.bytes.len() as u64,
            last_modified_seconds: file.mtime_seconds,
            last_modified_nanoseconds: file.mtime_nanoseconds,
            data_type: dt,
            metadata: None,
            mime_type: crate::add::mime_type_for(dt),
            extension: ext,
        };
        proof {
            working.lemma_listed_key_contained(i as int);
            assert forall|k: Seq<char>| #[trigger] tree.files@.contains_key(k) implies
                !crate::paths::ancestors_of(k).contains(node.name@)
                && !crate::paths::ancestors_of(node.name@).contains(k) by {
                assert(working@.contains_key(k));
            }
        }
        tree.put_file(node);
        i = i + 1;
    }
    proof {
        assert forall|k: Seq<char>| #[trigger] working@.contains_key(k) implies tree.files@.contains_key(
            k,
        ) by {
            working.lemma_contained_key_listed(k);
        }
        assert forall|k: Seq<char>| #[trigger] working@.contains_key(k) implies versions.contents().contains_key(
            crate::hash::hash_bytes_spec(working@[k].bytes@),
        ) by {
            working.lemma_contained_key_listed(k);
        }
    }
    tree
}


/// Derives an unused commit id: a hexadecimal seed, padded with zeros until
/// it is longer than every existing commit id.
fn fresh_commit_id(commits: &KvDb<Commit>, seed: u128) -> (r: String)
    requires
        commits.wf(),
    ensures
        !commits@.contains_key(r@),
        r@.len() > 0,
{
    let hex = crate::hash::MerkleHash::new(seed).to_hex_string();
    let mut id = hex;
    let n = commits.num_keys();
    let mut i: usize = 0;
    let mut max_len: usize = 0;
    while i < n
        invariant
            commits.wf(),
            n == commits.keys_view().len(),
            i <= n,
            forall|j: int| 0 <= j < i ==> (#[trigger] commits.keys_view()[j]).len() <= max_len,
        decreases n - i,
    {
        let key = commits.key_at(i);
        let klen = key.as_str().unicode_len();
        if klen > max_len {
            max_len = klen;
        }
        proof {
            assert forall|j: int| 0 <= j < i + 1 implies (#[trigger] commits.keys_view()[j]).len()
                <= max_len by {}
        }
        i = i + 1;
    }
    let ghost cap = max_len as int;
    proof {
        assert forall|j: int| 0 <= j < commits.keys_view().len() implies (
        #[trigger] commits.keys_view()[j]).len() <= cap by {}
    }
    while id.as_str().unicode_len() <= max_len
        invariant
            commits.wf(),
            forall|j: int| 0 <= j < commits.keys_view().len() ==> (#[trigger] commits.keys_view()[j]).len() <= cap,
            id@.len() > 0,
            cap == max_len as int,
        decreases cap + 1 - id@.len(),
    {
        id.append("0");
        proof {
            reveal_strlit("0");
        }
    }
    proof {
        assert(id@.len() > cap);
    }
    proof {
        assert(!commits@.contains_key(id@)) by {
            if commits@.contains_key(id@) {
                commits.lemma_contained_key_listed(id@);
                let j = choose|j: int|
                    0 <= j < commits.keys_view().len() && commits.keys_view()[j] == id@;
            }
        }
    }
    id
}

/// Materializes a commit's tree as a working tree: every leaf's bytes read
/// back from the version store, with the leaf's recorded times.
fn checkout_working(tree: &Tree, versions: &VersionStore) -> (r: KvDb<WorkingFile>)
    requires
        tree.wf(),
        versions.wf(),
        forall|k: Seq<char>|
            #[trigger] tree.files@.contains_key(k) ==> versions.contents().contains_key(
                tree.files@[k]@.hash,
            ),
    ensures
        r.wf(),
        forall|k: Seq<char>| r@.contains_key(k) == (#[trigger] tree.files@.contains_key(k)),
        forall|k: Seq<char>|
            #[trigger] tree.files@.contains_key(k) ==> r@[k].bytes@ == versions.contents()[tree.files@[k]@.hash]
                && r@[k].mtime_seconds == tree.files@[k]@.last_modified_seconds
                && r@[k].mtime_nanoseconds == tree.files@[k]@.last_modified_nanoseconds,
{
    let mut working: KvDb<WorkingFile> = KvDb::new();
    let n = tree.files.num_keys();
    let mut i: usize = 0;
    while i < n
        invariant
            tree.wf(),
            versions.wf(),
            forall|k: Seq<char>|
                #[trigger] tree.files@.contains_key(k) ==> versions.contents().contains_key(
                    tree.files@[k]@.hash,
                ),
            n == tree.files.keys_view().len(),
            i <= n,
            working.wf(),
            forall|k: Seq<char>|
                #[trigger] working@.contains_key(k) ==> tree.files@.contains_key(k),
            forall|j: int|
                0 <= j < i ==> working@.contains_key(#[trigger] tree.files.keys_view()[j]),
            forall|k: Seq<char>|
                #[trigger] working@.contains_key(k) ==> working@[k].bytes@ == versions.contents()[tree.files@[k]@.hash]
                    && working@[k].mtime_seconds == tree.files@[k]@.last_modified_seconds
                    && working@[k].mtime_nanoseconds == tree.files@[k]@.last_modified_nanoseconds,
        decreases n - i,
    {
        let key = tree.files.key_at(i);
        let node = match tree.files.get(key.as_str()) {
            Some(nd) => nd,
            None => {
                proof {
                    assert(false);
                }
                unreached()
            },
        };
        let bytes = match versions.open_version(node.hash.to_u128()) {
            Some(b) => crate::model::clone_bytes(b),
            None => {
                proof {
                    assert(false);
                }
                unreached()
            },
        };
        let file = WorkingFile {
            bytes,
            mtime_seconds: node.last_modified_seconds,
            mtime_nanoseconds: node.last_modified_nanoseconds,
        };
        working.put(key.clone(), file);
        i = i + 1;
    }
    proof {
        assert forall|k: Seq<char>| #[trigger] tree.files@.contains_key(k) implies working@.contains_key(
            k,
        ) by {
            tree.files.lemma_contained_key_listed(k);
        }
    }
    working
}

/// Records a stash commit, shifts the stash stack, and resets the working
/// tree to the head commit.
#[verifier::rlimit(100)]
#[verifier::spinoff_prover]
fn persist_stash(repo: &mut LocalRepository, stash_commit: Commit, tree: Tree)
    requires
        old(repo).wf(),
        old(repo).stash_has_capacity(),
        !old(repo).commits@.contains_key(stash_commit@.id),
        tree.wf(),
        forall|k: Seq<char>|
            #[trigger] tree.files@.contains_key(k) ==> old(repo).versions.contents().contains_key(
                tree.files@[k]@.hash,
            ),
    ensures
        final(repo).wf(),
        final(repo).commits@ == old(repo).commits@.insert(stash_commit@.id, stash_commit),
        final(repo).trees@ == old(repo).trees@.insert(stash_commit@.id, tree),
        forall|n: int|
            0 <= n && old(repo).stash_slots_exactly(n) ==> final(repo).stash_slots_exactly(n + 1),
        final(repo).refs@.contains_key(stash_ref_spec(0)) && final(repo).refs@[stash_ref_spec(0)]@
            == stash_commit@.id,
        forall|i: int|
            #![trigger final(repo).refs@[stash_ref_spec(i + 1)]]
            0 <= i && old(repo).refs@.contains_key(stash_ref_spec(i)) ==> final(repo).refs@.contains_key(
                stash_ref_spec(i + 1),
            ) && final(repo).refs@[stash_ref_spec(i + 1)]@ == old(repo).refs@[stash_ref_spec(i)]@,
        forall|rn: Seq<char>|
            !is_stash_ref(rn) ==> (final(repo).refs@.contains_key(rn) == old(
                repo,
            ).refs@.contains_key(rn)) && (old(repo).refs@.contains_key(rn) ==> final(repo).refs@[rn]
                == old(repo).refs@[rn]),
        forall|k: Seq<char>|
            final(repo).working@.contains_key(k) == (#[trigger] old(repo).trees@[old(
                repo,
            ).head_commit_id@].files@.contains_key(k)),
        forall|k: Seq<char>|
            #[trigger] old(repo).trees@[old(repo).head_commit_id@].files@.contains_key(k)
                ==> final(repo).working@[k].bytes@ == old(repo).versions.contents()[old(
                repo,
            ).trees@[old(repo).head_commit_id@].files@[k]@.hash],
        final(repo).staged == old(repo).staged,
        final(repo).conflicts == old(repo).conflicts,
        final(repo).versions == old(repo).versions,
        final(repo).head_commit_id == old(repo).head_commit_id,
        final(repo).current_branch == old(repo).current_branch,
        final(repo).author == old(repo).author,
{
    let ghost cid = stash_commit@.id;
    let commit_id = stash_commit.id.clone();
    record_stash_commit(repo, stash_commit, tree);
    let ghost mid1 = *repo;
    proof {
        let m = choose|m: int| 0 <= m < u64::MAX && old(repo).stash_slots_exactly(m);
        assert(repo.stash_slots_exactly(m));
        assert(repo.stash_has_capacity());
    }
    shift_refs_up(repo, &commit_id);
    let ghost mid2 = *repo;
    proof {
        assert(repo.head_commit_id@ != cid);
        assert(repo.trees@[repo.head_commit_id@] == old(repo).trees@[old(repo).head_commit_id@]);
    }
    reset_working_to_head(repo);
    proof {
        assert forall|n: int| 0 <= n && old(repo).stash_slots_exactly(n) implies final(repo).stash_slots_exactly(
            n + 1,
        ) by {
            assert(mid1.stash_slots_exactly(n));
            assert(mid2.stash_slots_exactly(n + 1));
        }
    }
}

/// Saves the current state of the working directory to a new stash: builds
/// a stash commit whose tree snapshots the working files, shifts every
/// existing slot up by one, records the commit at slot `0`, and resets the
/// working tree to the head commit. Returns the stash commit, or `None`
/// when the working tree is clean.
/// Records a stash commit and its tree in the repository.
#[verifier::rlimit(100)]
fn record_stash_commit(repo: &mut LocalRepository, stash_commit: Commit, tree: Tree)
    requires
        old(repo).wf(),
        !old(repo).commits@.contains_key(stash_commit@.id),
        tree.wf(),
        forall|k: Seq<char>|
            #[trigger] tree.files@.contains_key(k) ==> old(repo).versions.contents().contains_key(
                tree.files@[k]@.hash,
            ),
    ensures
        final(repo).wf(),
        final(repo).commits@ == old(repo).commits@.insert(stash_commit@.id, stash_commit),
        final(repo).trees@ == old(repo).trees@.insert(stash_commit@.id, tree),
        final(repo).working == old(repo).working,
        final(repo).staged == old(repo).staged,
        final(repo).conflicts == old(repo).conflicts,
        final(repo).versions == old(repo).versions,
        final(repo).refs == old(repo).refs,
        final(repo).head_commit_id == old(repo).head_commit_id,
        final(repo).current_branch == old(repo).current_branch,
        final(repo).author == old(repo).author,
{
    let ghost id = stash_commit@.id;
    let key = stash_commit.id.clone();
    let key2 = stash_commit.id.clone();
    repo.commits.put(key, stash_commit);
    repo.trees.put(key2, tree);
    proof {
        assert(repo.wf()) by {
            assert forall|cid: Seq<char>| #[trigger] repo.commits@.contains_key(cid) implies repo.commits@[cid]@.id
                == cid by {
                if cid != id {
                    assert(old(repo).commits@.contains_key(cid));
                }
            }
            assert forall|cid: Seq<char>| #[trigger] repo.commits@.contains_key(cid) implies repo.trees@.contains_key(
                cid,
            ) by {
                if cid != id {
                    assert(old(repo).commits@.contains_key(cid));
                }
            }
            assert forall|cid: Seq<char>| #[trigger] repo.trees@.contains_key(cid) implies repo.trees@[cid].wf() by {
                if cid != id {
                    assert(old(repo).trees@.contains_key(cid));
                }
            }
            assert forall|rn: Seq<char>| #[trigger] repo.refs@.contains_key(rn) implies repo.commits@.contains_key(
                repo.refs@[rn]@,
            ) by {
                assert(old(repo).refs@.contains_key(rn));
            }
            assert forall|cid: Seq<char>, k: Seq<char>|
                repo.trees@.contains_key(cid) && (#[trigger] repo.trees@[cid].files@.contains_key(
                    k,
                )) implies repo.versions.contents().contains_key(repo.trees@[cid].files@[k]@.hash) by {
                if cid != id {
                    assert(old(repo).trees@.contains_key(cid));
                    assert(old(repo).trees@[cid].files@.contains_key(k));
                }
            }
            let m = choose|m: int| 0 <= m <= u64::MAX && old(repo).stash_slots_exactly(m);
            assert(repo.stash_slots_exactly(m));
        }
    }
}

/// Shifts every stash slot up by one and records the given commit at slot
/// `0`.
#[verifier::rlimit(100)]
fn shift_refs_up(repo: &mut LocalRepository, commit_id: &String)
    requires
        old(repo).wf(),
        old(repo).stash_has_capacity(),
        old(repo).commits@.contains_key(commit_id@),
    ensures
        final(repo).wf(),
        forall|n: int|
            0 <= n && old(repo).stash_slots_exactly(n) ==> final(repo).stash_slots_exactly(n + 1),
        final(repo).refs@.contains_key(stash_ref_spec(0)) && final(repo).refs@[stash_ref_spec(0)]@
            == commit_id@,
        forall|i: int|
            #![trigger final(repo).refs@[stash_ref_spec(i + 1)]]
            0 <= i && old(repo).refs@.contains_key(stash_ref_spec(i)) ==> final(repo).refs@.contains_key(
                stash_ref_spec(i + 1),
            ) && final(repo).refs@[stash_ref_spec(i + 1)]@ == old(repo).refs@[stash_ref_spec(i)]@,
        forall|rn: Seq<char>|
            !is_stash_ref(rn) ==> (final(repo).refs@.contains_key(rn) == old(
                repo,
            ).refs@.contains_key(rn)) && (old(repo).refs@.contains_key(rn) ==> final(repo).refs@[rn]
                == old(repo).refs@[rn]),
        final(repo).working == old(repo).working,
        final(repo).staged == old(repo).staged,
        final(repo).conflicts == old(repo).conflicts,
        final(repo).versions == old(repo).versions,
        final(repo).commits == old(repo).commits,
        final(repo).trees == old(repo).trees,
        final(repo).head_commit_id == old(repo).head_commit_id,
        final(repo).current_branch == old(repo).current_branch,
        final(repo).author == old(repo).author,
{
    let entries = match list_stashes_raw(repo) {
        Ok(v) => v,
        Err(e) => {
            proof {
                assert(false);
            }
            unreached()
        },
    };
    let n = entries.len();
    let ghost nn = n as int;
    proof {
        let m = choose|m: int| 0 <= m < u64::MAX && old(repo).stash_slots_exactly(m);
        assert(repo.refs@.contains_key(stash_ref_spec(nn)) <==> nn < m);
        assert(repo.refs@.contains_key(stash_ref_spec(m)) <==> m < nn);
        assert(nn == m);
    }

    let mut i: usize = n;
    while i >= 1
        invariant
            repo.working == old(repo).working,
            repo.staged == old(repo).staged,
            repo.conflicts == old(repo).conflicts,
            repo.versions == old(repo).versions,
            repo.commits == old(repo).commits,
            repo.trees == old(repo).trees,
            repo.head_commit_id == old(repo).head_commit_id,
            repo.current_branch == old(repo).current_branch,
            repo.author == old(repo).author,
            repo.refs.wf(),
            old(repo).wf(),
            old(repo).commits@.contains_key(commit_id@),
            nn == entries@.len(),
            n as int == nn,
            old(repo).stash_slots_exactly(nn),
            0 <= nn < u64::MAX,
            i <= n,
            forall|j: int|
                0 <= j < nn ==> (#[trigger] entries@[j]).1@.id == old(repo).refs@[stash_ref_spec(j)]@,
            forall|j: int|
                0 <= j ==> (repo.refs@.contains_key(#[trigger] stash_ref_spec(j)) <==> (j < nn || (j
                    == nn && (i as int) < nn))),
            forall|j: int|
                #![trigger repo.refs@[stash_ref_spec(j + 1)]]
                i as int <= j < nn ==> repo.refs@[stash_ref_spec(j + 1)]@ == old(repo).refs@[stash_ref_spec(
                    j,
                )]@,
            forall|j: int|
                #![trigger repo.refs@[stash_ref_spec(j)]]
                0 <= j < i as int ==> repo.refs@.contains_key(stash_ref_spec(j)) && repo.refs@[stash_ref_spec(
                    j,
                )] == old(repo).refs@[stash_ref_spec(j)],
            forall|rn: Seq<char>|
                !is_stash_ref(rn) ==> (repo.refs@.contains_key(rn) == old(repo).refs@.contains_key(
                    rn,
                )) && (old(repo).refs@.contains_key(rn) ==> repo.refs@[rn] == old(repo).refs@[rn]),
            forall|rn: Seq<char>|
                #![trigger repo.refs@[rn]]
                repo.refs@.contains_key(rn) ==> repo.commits@.contains_key(repo.refs@[rn]@),
        decreases i,
    {
        let new_ref = stash_ref_name(i as u64);
        let commit_ref_id = entries[i - 1].1.id.clone();
        proof {
            lemma_stash_ref_injective_all();
            assert(old(repo).refs@.contains_key(stash_ref_spec(i - 1)));
            assert(old(repo).commits@.contains_key(old(repo).refs@[stash_ref_spec(i - 1)]@));
            assert(repo.commits@.contains_key(commit_ref_id@));
        }
        repo.refs.put(new_ref, commit_ref_id);
        i = i - 1;
    }
    let zero_ref = stash_ref_name(0);
    proof {
        lemma_stash_ref_injective_all();
    }
    repo.refs.put(zero_ref, commit_id.clone());

    proof {
        lemma_stash_ref_injective_all();
        assert forall|m: int| 0 <= m && old(repo).stash_slots_exactly(m) implies final(repo).stash_slots_exactly(
            m + 1,
        ) by {
            assert(old(repo).refs@.contains_key(stash_ref_spec(m)) <==> m < nn);
            assert(old(repo).refs@.contains_key(stash_ref_spec(nn)) <==> nn < m);
            assert(m == nn);
            assert forall|j: int| 0 <= j implies (final(repo).refs@.contains_key(
                #[trigger] stash_ref_spec(j),
            ) <==> j < nn + 1) by {}
        }
        assert(final(repo).wf()) by {
            assert(final(repo).stash_slots_exactly(nn + 1));
            assert(0 <= nn + 1 <= u64::MAX);
        }
    }
}

/// Resets the working tree to the head commit's tree, reading every file's
/// bytes back from the version store.
fn reset_working_to_head(repo: &mut LocalRepository)
    requires
        old(repo).wf(),
    ensures
        final(repo).wf(),
        forall|k: Seq<char>|
            final(repo).working@.contains_key(k) == (#[trigger] old(repo).trees@[old(
                repo,
            ).head_commit_id@].files@.contains_key(k)),
        forall|k: Seq<char>|
            #[trigger] old(repo).trees@[old(repo).head_commit_id@].files@.contains_key(k) ==> final(repo).working@[k].bytes@
                == old(repo).versions.contents()[old(repo).trees@[old(
                repo,
            ).head_commit_id@].files@[k]@.hash],
        final(repo).staged == old(repo).staged,
        final(repo).conflicts == old(repo).conflicts,
        final(repo).versions == old(repo).versions,
        final(repo).commits == old(repo).commits,
        final(repo).trees == old(repo).trees,
        final(repo).refs == old(repo).refs,
        final(repo).head_commit_id == old(repo).head_commit_id,
        final(repo).current_branch == old(repo).current_branch,
        final(repo).author == old(repo).author,
{
    let new_working = match repo.trees.get(repo.head_commit_id.as_str()) {
        Some(head_tree) => checkout_working(head_tree, &repo.versions),
        None => {
            proof {
                assert(false);
            }
            unreached()
        },
    };
    repo.working = new_working;
    proof {
        assert(repo.wf()) by {
            let m = choose|m: int| 0 <= m <= u64::MAX && old(repo).stash_slots_exactly(m);
            assert(repo.stash_slots_exactly(m));
        }
    }
}

/// Saves the dirty working tree as a new stash slot at the top of the
/// stack and resets the working tree hard to the head commit.
///
/// The stash commit captures the working tree exactly as it stands: a
/// tracked file deleted locally is recorded as absent from the stash
/// commit, so reapplying the stash does not resurrect it. This makes the
/// saved state the literal working tree rather than the head tree with the
/// local edits layered on top.
#[verifier::rlimit(100)]
#[verifier::spinoff_prover]
pub fn save(repo: &mut LocalRepository, message: Option<&str>) -> (r: Result<
    Option<Commit>,
    OxenError,
>)
    requires
        old(repo).wf(),
        old(repo).stash_has_capacity(),
        crate::repo::working_wf(old(repo).working@),
    ensures
        final(repo).wf(),
        match r {
            Ok(None) => *final(repo) == *old(repo) && working_clean_spec(*old(repo)),
            Ok(Some(c)) => {
                &&& !working_clean_spec(*old(repo))
                &&& old(repo).current_branch is Some
                &&& c@.parent_ids == seq![old(repo).head_commit_id@]
                &&& old(repo).current_branch matches Some(b) && c@.message == stash_message_spec(
                    b@,
                    old(repo).head_commit_id@,
                    old(repo).commits@[old(repo).head_commit_id@]@.message,
                    match message {
                        Some(u) => Some(u@),
                        None => None,
                    },
                )
                &&& !old(repo).commits@.contains_key(c@.id)
                &&& final(repo).commits@.contains_key(c@.id) && final(repo).commits@[c@.id]@ == c@
                &&& forall|id: Seq<char>|
                    id != c@.id ==> (final(repo).commits@.contains_key(id) == old(repo).commits@.contains_key(id)) && (old(repo).commits@.contains_key(id)
                        ==> #[trigger] final(repo).commits@[id] == old(repo).commits@[id])
                &&& final(repo).trees@.contains_key(c@.id) && tree_matches_working(
                    final(repo).trees@[c@.id],
                    old(repo).working@,
                )
                &&& forall|id: Seq<char>|
                    id != c@.id ==> (final(repo).trees@.contains_key(id) == old(repo).trees@.contains_key(id)) && (old(repo).trees@.contains_key(id)
                        ==> #[trigger] final(repo).trees@[id] == old(repo).trees@[id])
                &&& forall|n: int|
                    0 <= n && old(repo).stash_slots_exactly(n) ==> final(repo).stash_slots_exactly(
                        n + 1,
                    )
                &&& final(repo).refs@.contains_key(stash_ref_spec(0)) && final(repo).refs@[stash_ref_spec(
                    0,
                )]@ == c@.id
                &&& forall|i: int|
                    #![trigger final(repo).refs@[stash_ref_spec(i + 1)]]
                    0 <= i && old(repo).refs@.contains_key(stash_ref_spec(i)) ==> final(repo).refs@.contains_key(
                        stash_ref_spec(i + 1),
                    ) && final(repo).refs@[stash_ref_spec(i + 1)]@ == old(repo).refs@[stash_ref_spec(
                        i,
                    )]@
                &&& forall|rn: Seq<char>|
                    !is_stash_ref(rn) ==> (final(repo).refs@.contains_key(rn) == old(repo).refs@.contains_key(rn)) && (old(repo).refs@.contains_key(rn) ==> final(repo).refs@[rn]
                        == old(repo).refs@[rn])
                &&& forall|h: u128|
                    #[trigger] old(repo).versions.contents().contains_key(h) ==> final(repo).versions.contents().contains_key(
                        h,
                    ) && final(repo).versions.contents()[h] == old(repo).versions.contents()[h]
                &&& forall|h: u128|
                    #[trigger] final(repo).versions.contents().contains_key(h) && !old(repo).versions.contents().contains_key(
                        h,
                    ) ==> exists|kw: Seq<char>|
                        #![auto]
                        old(repo).working@.contains_key(kw) && h == crate::hash::hash_bytes_spec(
                            old(repo).working@[kw].bytes@,
                        ) && final(repo).versions.contents()[h] == old(repo).working@[kw].bytes@
                &&& forall|k: Seq<char>|
                    final(repo).working@.contains_key(k) == (#[trigger] old(repo).trees@[old(repo).head_commit_id@].files@.contains_key(k))
                &&& forall|k: Seq<char>|
                    #[trigger] old(repo).trees@[old(repo).head_commit_id@].files@.contains_key(k)
                        ==> final(repo).working@[k].bytes@ == old(repo).versions.contents()[old(repo).trees@[old(repo).head_commit_id@].files@[k]@.hash]
                &&& final(repo).staged == old(repo).staged
                &&& final(repo).conflicts == old(repo).conflicts
                &&& final(repo).head_commit_id == old(repo).head_commit_id
                &&& final(repo).current_branch == old(repo).current_branch
            },
            Err(e) => *final(repo) == *old(repo) && (e matches OxenError::MustBeOnBranchToStash)
                && !working_clean_spec(*old(repo)) && old(repo).current_branch is None,
        },
{
    if working_is_clean(repo) {
        return Ok(None);
    }

    let stash_message = match get_stash_commit_message(repo, message) {
        Ok(m) => m,
        Err(e) => {
            return Err(e);
        },
    };

    // The core has no clock; the stash commit reuses the head commit's
    // timestamp, and the surrounding program may overwrite it.
    let head_commit_timestamp = match repo.commits.get(repo.head_commit_id.as_str()) {
        Some(c) => c.timestamp,
        None => {
            proof {
                assert(false);
            }
            unreached()
        },
    };

    let tree = build_stash_tree(&repo.working, &mut repo.versions);

    let seed = crate::hash::combine_hashes(
        crate::hash::hash_str(stash_message.as_str()),
        crate::hash::hash_str(repo.head_commit_id.as_str()),
    );
    let commit_id = fresh_commit_id(&repo.commits, seed);

    let mut parent_ids: Vec<String> = Vec::new();
    parent_ids.push(repo.head_commit_id.clone());
    let stash_commit = Commit {
        id: commit_id.clone(),
        parent_ids,
        message: stash_message,
        author: repo.author.clone(),
        timestamp: head_commit_timestamp,
    };
    let result_commit = stash_commit.clone();
    proof {
        assert(result_commit@.parent_ids =~= seq![old(repo).head_commit_id@]);
        assert forall|k: Seq<char>| #[trigger] tree.files@.contains_key(k) implies repo.versions.contents().contains_key(
            tree.files@[k]@.hash,
        ) by {
            assert(old(repo).working@.contains_key(k));
        }
        assert(repo.wf()) by {
            assert forall|id: Seq<char>, k: Seq<char>|
                repo.trees@.contains_key(id) && (#[trigger] repo.trees@[id].files@.contains_key(k))
                    implies repo.versions.contents().contains_key(repo.trees@[id].files@[k]@.hash) by {
                assert(old(repo).trees@.contains_key(id));
                assert(old(repo).trees@[id].files@.contains_key(k));
                assert(old(repo).versions.contents().contains_key(
                    old(repo).trees@[id].files@[k]@.hash,
                ));
            }
            let m = choose|m: int| 0 <= m < u64::MAX && old(repo).stash_slots_exactly(m);
            assert(repo.stash_slots_exactly(m));
        }
        assert(repo.stash_has_capacity()) by {
            let m = choose|m: int| 0 <= m < u64::MAX && old(repo).stash_slots_exactly(m);
            assert(repo.stash_slots_exactly(m));
        }
    }
    let ghost mid = *repo;
    persist_stash(repo, stash_commit, tree);
    proof {
        assert forall|n: int|
            0 <= n && old(repo).stash_slots_exactly(n) implies final(repo).stash_slots_exactly(
            n + 1,
        ) by {
            assert(mid.stash_slots_exactly(n));
        }
        assert(final(repo).commits@[result_commit@.id]@ == result_commit@);
        assert(tree_matches_working(final(repo).trees@[result_commit@.id], old(repo).working@));
        assert forall|k: Seq<char>|
            #[trigger] old(repo).trees@[old(repo).head_commit_id@].files@.contains_key(k) implies final(repo).working@[k].bytes@
            == old(repo).versions.contents()[old(repo).trees@[old(
            repo,
        ).head_commit_id@].files@[k]@.hash] by {
            let h = old(repo).trees@[old(repo).head_commit_id@].files@[k]@.hash;
            assert(old(repo).versions.contents().contains_key(h));
        }
    }
    Ok(Some(result_commit))
}


/// The content hash a tree records at a path, when it has the file.
pub open spec fn tree_hash_at(t: Tree, p: Seq<char>) -> Option<u128> {
    if t.files@.contains_key(p) {
        Some(t.files@[p]@.hash)
    } else {
        None
    }
}

/// One path's three-way pick: when the current side equals the base the
/// stashed side wins (`Some(true)`); when the stashed side equals the base,
/// or both sides agree, the current side stays (`Some(false)`); two distinct
/// changes conflict (`None`).
pub open spec fn merge_pick(b: Option<u128>, o: Option<u128>, t: Option<u128>) -> Option<bool> {
    if o == b {
        Some(true)
    } else if t == b {
        Some(false)
    } else if o == t {
        Some(false)
    } else {
        None
    }
}

/// A path of any of the three merged trees.
pub open spec fn in_merge_union(bt: Tree, ot: Tree, tt: Tree, p: Seq<char>) -> bool {
    bt.files@.contains_key(p) || ot.files@.contains_key(p) || tt.files@.contains_key(p)
}

/// What one side's tree dictates for the working file at a path after the
/// merge: present with the tree's blob, or absent.
pub open spec fn side_applied(
    side: Tree,
    versions: crate::version_store::VersionStore,
    w: Map<Seq<char>, WorkingFile>,
    p: Seq<char>,
) -> bool {
    &&& w.contains_key(p) == side.files@.contains_key(p)
    &&& side.files@.contains_key(p) ==> w[p].bytes@ == versions.contents()[side.files@[p]@.hash]
}

/// The planned effect of the merge at one path.
enum MergeAction {
    Write(String, WorkingFile),
    Remove(String),
    Conflict(String),
}

/// The three trees a stash application merges: the stash commit's base, the
/// current head, and the stash commit itself.
pub open spec fn stash_merge_trees(o: LocalRepository, i: int) -> (Tree, Tree, Tree) {
    let c = o.commits@[o.refs@[stash_ref_spec(i)]@]@;
    (o.trees@[c.parent_ids[0]], o.trees@[o.head_commit_id@], o.trees@[c.id])
}

/// The three-way merge at slot `i` picks a side at every union path:
/// nothing conflicts.
pub open spec fn apply_merges_cleanly(o: LocalRepository, i: int) -> bool {
    let (bt, ot, tt) = stash_merge_trees(o, i);
    forall|p: Seq<char>|
        #![trigger in_merge_union(bt, ot, tt, p)]
        in_merge_union(bt, ot, tt, p) ==> merge_pick(
            tree_hash_at(bt, p),
            tree_hash_at(ot, p),
            tree_hash_at(tt, p),
        ) is Some
}

/// The checked-out working tree after the merge at slot `i`: every union
/// path whose pick is clean carries its picked side's content, every other
/// path is untouched.
pub open spec fn merge_checkout_effect(o: LocalRepository, f: LocalRepository, i: int) -> bool {
    let (bt, ot, tt) = stash_merge_trees(o, i);
    &&& forall|p: Seq<char>|
        #![trigger in_merge_union(bt, ot, tt, p)]
        in_merge_union(bt, ot, tt, p) ==> {
            let pick = merge_pick(tree_hash_at(bt, p), tree_hash_at(ot, p), tree_hash_at(tt, p));
            (pick == Some(true) ==> side_applied(tt, o.versions, f.working@, p)) && (pick == Some(
                false,
            ) ==> side_applied(ot, o.versions, f.working@, p))
        }
    &&& forall|p: Seq<char>|
        #![trigger f.working@.contains_key(p)]
        !in_merge_union(bt, ot, tt, p) ==> (f.working@.contains_key(p) == o.working@.contains_key(
            p,
        )) && (o.working@.contains_key(p) ==> f.working@[p] == o.working@[p])
}

/// The resolved slot's commit records a base and that base commit exists.
pub open spec fn stash_commit_sound(o: LocalRepository, i: int) -> bool {
    let c = o.commits@[o.refs@[stash_ref_spec(i)]@]@;
    c.parent_ids.len() > 0 && o.commits@.contains_key(c.parent_ids[0])
}

/// The effect of a clean stash application resolved to slot `i`: every path
/// of the three trees carries its picked side's content in the working
/// tree, every other path is untouched, and nothing else changes.
pub open spec fn apply_ok_effect(o: LocalRepository, f: LocalRepository, i: int) -> bool {
    &&& apply_merges_cleanly(o, i)
    &&& merge_checkout_effect(o, f, i)
    &&& f.staged == o.staged
    &&& f.conflicts == o.conflicts
    &&& f.versions == o.versions
    &&& f.refs == o.refs
    &&& f.commits == o.commits
    &&& f.trees == o.trees
    &&& f.head_commit_id == o.head_commit_id
    &&& f.current_branch == o.current_branch
    &&& f.author == o.author
}

/// The effect of a conflicting stash application at slot `i`: some union
/// path conflicts, the clean part of the merge is still checked out,
/// exactly the conflicting union paths gain conflict records naming their
/// own path, and everything but the working tree and the conflict store
/// stays as it was — the stash slot included.
pub open spec fn merge_conflict_effect(o: LocalRepository, f: LocalRepository, i: int) -> bool {
    let (bt, ot, tt) = stash_merge_trees(o, i);
    &&& !apply_merges_cleanly(o, i)
    &&& merge_checkout_effect(o, f, i)
    &&& forall|p: Seq<char>|
        #![trigger f.conflicts@.contains_key(p)]
        f.conflicts@.contains_key(p) <==> (o.conflicts@.contains_key(p) || (in_merge_union(
            bt,
            ot,
            tt,
            p,
        ) && merge_pick(tree_hash_at(bt, p), tree_hash_at(ot, p), tree_hash_at(tt, p)) is None))
    &&& forall|p: Seq<char>|
        #![trigger f.conflicts@[p]]
        f.conflicts@.contains_key(p) ==> (in_merge_union(bt, ot, tt, p) && merge_pick(
            tree_hash_at(bt, p),
            tree_hash_at(ot, p),
            tree_hash_at(tt, p),
        ) is None && f.conflicts@[p]@.merge_entry_path == p) || (o.conflicts@.contains_key(p)
            && f.conflicts@[p] == o.conflicts@[p])
    &&& f.staged == o.staged
    &&& f.versions == o.versions
    &&& f.refs == o.refs
    &&& f.commits == o.commits
    &&& f.trees == o.trees
    &&& f.head_commit_id == o.head_commit_id
    &&& f.current_branch == o.current_branch
    &&& f.author == o.author
}

/// Applies the stash at slot `idx` to the working directory by a three-way
/// merge of the stash commit's base, the current head, and the stash
/// commit. Does not remove the stash.
#[verifier::rlimit(100)]
#[verifier::spinoff_prover]
fn apply_by_index(repo: &mut LocalRepository, idx: u64) -> (r: Result<(), OxenError>)
    requires
        old(repo).wf(),
        exists|n: int| #![auto] 0 <= n && old(repo).stash_slots_exactly(n) && (idx as int) < n,
    ensures
        final(repo).wf(),
        match r {
            Ok(_) => stash_commit_sound(*old(repo), idx as int) && apply_ok_effect(
                *old(repo),
                *final(repo),
                idx as int,
            ),
            Err(e) => match e {
                OxenError::CorruptStashCommit(_) => *final(repo) == *old(repo) && old(
                    repo,
                ).commits@[old(repo).refs@[stash_ref_spec(idx as int)]@]@.parent_ids.len() == 0,
                OxenError::CommitIdDoesNotExist(_) => *final(repo) == *old(repo) && old(
                    repo,
                ).commits@[old(repo).refs@[stash_ref_spec(idx as int)]@]@.parent_ids.len() > 0
                    && !old(repo).commits@.contains_key(
                    old(repo).commits@[old(repo).refs@[stash_ref_spec(idx as int)]@]@.parent_ids[0],
                ),
                OxenError::MergeConflict(_) => stash_commit_sound(*old(repo), idx as int)
                    && merge_conflict_effect(*old(repo), *final(repo), idx as int),
                _ => false,
            },
        },
{
    let ref_name = stash_ref_name(idx);
    let stash_commit = match repo.refs.get(ref_name.as_str()) {
        Some(cid) => match repo.commits.get(cid.as_str()) {
            Some(c) => c.clone(),
            None => {
                proof {
                    assert(false);
                }
                unreached()
            },
        },
        None => {
            proof {
                let n = choose|n: int| #![auto] 0 <= n && repo.stash_slots_exactly(n) && (idx as int) < n;
                assert(repo.refs@.contains_key(stash_ref_spec(idx as int)));
                assert(false);
            }
            unreached()
        },
    };
    if stash_commit.parent_ids.len() == 0 {
        return Err(OxenError::CorruptStashCommit(stash_commit.id));
    }
    let base_id = stash_commit.parent_ids[0].clone();
    if !repo.commits.contains_key(base_id.as_str()) {
        return Err(OxenError::CommitIdDoesNotExist(base_id));
    }

    let ghost iv = idx as int;
    let ghost ot_g = stash_merge_trees(*old(repo), iv).1;

    let mut actions: Vec<MergeAction> = Vec::new();
    {
        let base_tree = match repo.trees.get(base_id.as_str()) {
            Some(t) => t,
            None => {
                proof {
                    assert(false);
                }
                unreached()
            },
        };
        let head_tree = match repo.trees.get(repo.head_commit_id.as_str()) {
            Some(t) => t,
            None => {
                proof {
                    assert(false);
                }
                unreached()
            },
        };
        let theirs_tree = match repo.trees.get(stash_commit.id.as_str()) {
            Some(t) => t,
            None => {
                proof {
                    assert(false);
                }
                unreached()
            },
        };

        let mut union_keys: Vec<String> = Vec::new();
        let mut seen = vstd::hash_set::StringHashSet::new();
        collect_keys(&base_tree.files, &mut union_keys, &mut seen);
        let ghost snap1 = union_keys@;
        collect_keys(&head_tree.files, &mut union_keys, &mut seen);
        let ghost snap2 = union_keys@;
        collect_keys(&theirs_tree.files, &mut union_keys, &mut seen);
        proof {
            assert forall|m: int| 0 <= m < union_keys@.len() implies in_merge_union(
                *base_tree,
                *head_tree,
                *theirs_tree,
                (#[trigger] union_keys@[m])@,
            ) by {
                if m < snap1.len() {
                    assert(union_keys@[m] == snap2[m]);
                    assert(snap2[m] == snap1[m]);
                    assert(base_tree.files@.contains_key(snap1[m]@));
                } else if m < snap2.len() {
                    assert(union_keys@[m] == snap2[m]);
                    assert(head_tree.files@.contains_key(snap2[m]@));
                } else {
                    assert(theirs_tree.files@.contains_key(union_keys@[m]@));
                }
            }
        }
        proof {
            assert forall|p: Seq<char>|
                in_merge_union(*base_tree, *head_tree, *theirs_tree, p) implies exists|j: int|
                0 <= j < union_keys@.len() && union_keys@[j]@ == p by {
                if base_tree.files@.contains_key(p) {
                    base_tree.files.lemma_contained_key_listed(p);
                } else if head_tree.files@.contains_key(p) {
                    head_tree.files.lemma_contained_key_listed(p);
                } else {
                    theirs_tree.files.lemma_contained_key_listed(p);
                }
            }
        }

        let nu = union_keys.len();
        let mut j: usize = 0;
        while j < nu
            invariant
                repo.wf(),
                base_tree.wf(),
                head_tree.wf(),
                theirs_tree.wf(),
                *base_tree == stash_merge_trees(*old(repo), iv).0,
                *head_tree == stash_merge_trees(*old(repo), iv).1,
                *theirs_tree == stash_merge_trees(*old(repo), iv).2,
                forall|k: Seq<char>|
                    #[trigger] base_tree.files@.contains_key(k)
                        ==> repo.versions.contents().contains_key(base_tree.files@[k]@.hash),
                forall|k: Seq<char>|
                    #[trigger] head_tree.files@.contains_key(k)
                        ==> repo.versions.contents().contains_key(head_tree.files@[k]@.hash),
                forall|k: Seq<char>|
                    #[trigger] theirs_tree.files@.contains_key(k)
                        ==> repo.versions.contents().contains_key(theirs_tree.files@[k]@.hash),
                nu == union_keys@.len(),
                j <= nu,
                forall|p: Seq<char>|
                    in_merge_union(*base_tree, *head_tree, *theirs_tree, p) ==> exists|m: int|
                        0 <= m < union_keys@.len() && union_keys@[m]@ == p,
                actions@.len() == j,
                forall|m: int|
                    0 <= m < j ==> action_matches(
                        #[trigger] actions@[m],
                        *base_tree,
                        *head_tree,
                        *theirs_tree,
                        *old(repo),
                        union_keys@[m]@,
                    ),
                forall|m: int|
                    0 <= m < nu ==> in_merge_union(
                        *base_tree,
                        *head_tree,
                        *theirs_tree,
                        (#[trigger] union_keys@[m])@,
                    ),
                forall|m1: int, m2: int|
                    0 <= m1 < m2 < nu ==> (#[trigger] union_keys@[m1])@ != (
                    #[trigger] union_keys@[m2])@,
            decreases nu - j,
        {
            let key = &union_keys[j];
            let bh = base_tree.get_file(key.as_str());
            let oh = head_tree.get_file(key.as_str());
            let th = theirs_tree.get_file(key.as_str());
            let pick_theirs: Option<bool> = match (&bh, &oh, &th) {
                (Some(b), Some(o), _) if o.hash.to_u128() == b.hash.to_u128() => Some(true),
                (None, None, _) => Some(true),
                (Some(b), _, Some(t)) if t.hash.to_u128() == b.hash.to_u128() => Some(false),
                (None, _, None) => Some(false),
                (_, Some(o), Some(t)) if o.hash.to_u128() == t.hash.to_u128() => Some(false),
                (_, None, None) => Some(false),
                _ => None,
            };
            proof {
                assert(pick_theirs == merge_pick(
                    tree_hash_at(*base_tree, key@),
                    tree_hash_at(*head_tree, key@),
                    tree_hash_at(*theirs_tree, key@),
                ));
            }
            let action = match pick_theirs {
                Some(true) => match th {
                    Some(node) => MergeAction::Write(
                        key.clone(),
                        fetch_working_file(&repo.versions, node),
                    ),
                    None => MergeAction::Remove(key.clone()),
                },
                Some(false) => match oh {
                    Some(node) => MergeAction::Write(
                        key.clone(),
                        fetch_working_file(&repo.versions, node),
                    ),
                    None => MergeAction::Remove(key.clone()),
                },
                None => MergeAction::Conflict(key.clone()),
            };
            actions.push(action);
            j = j + 1;
        }
        proof {
            let tf = stash_merge_trees(*old(repo), iv);
            assert forall|p: Seq<char>| in_merge_union(tf.0, tf.1, tf.2, p) implies exists|m: int|
                0 <= m < actions@.len() && action_path(#[trigger] actions@[m]) == p by {
                let m = choose|m: int| 0 <= m < union_keys@.len() && union_keys@[m]@ == p;
                assert(action_matches(actions@[m], tf.0, tf.1, tf.2, *old(repo), union_keys@[m]@));
                assert(action_path(actions@[m]) == p);
            }
            assert forall|m1: int, m2: int| 0 <= m1 < m2 < actions@.len() implies action_path(
                #[trigger] actions@[m1],
            ) != action_path(#[trigger] actions@[m2]) by {
                assert(action_matches(actions@[m1], tf.0, tf.1, tf.2, *old(repo), union_keys@[m1]@));
                assert(action_matches(actions@[m2], tf.0, tf.1, tf.2, *old(repo), union_keys@[m2]@));
            }
            assert forall|m: int| 0 <= m < actions@.len() implies action_matches(
                #[trigger] actions@[m],
                tf.0,
                tf.1,
                tf.2,
                *old(repo),
                action_path(actions@[m]),
            ) by {
                assert(action_matches(actions@[m], tf.0, tf.1, tf.2, *old(repo), union_keys@[m]@));
            }
            assert forall|m: int| 0 <= m < actions@.len() implies in_merge_union(
                tf.0,
                tf.1,
                tf.2,
                action_path(#[trigger] actions@[m]),
            ) by {
                assert(action_matches(actions@[m], tf.0, tf.1, tf.2, *old(repo), union_keys@[m]@));
                assert(in_merge_union(tf.0, tf.1, tf.2, union_keys@[m]@));
            }
        }
    }

    let mut any_conflict = false;
    let na0 = actions.len();
    let mut m0: usize = 0;
    while m0 < na0
        invariant_except_break
            !any_conflict,
            forall|m: int|
                0 <= m < m0 ==> !((#[trigger] actions@[m]) matches MergeAction::Conflict(_)),
        invariant
            na0 == actions@.len(),
            m0 <= na0,
        ensures
            any_conflict == exists|m: int|
                0 <= m < actions@.len() && (#[trigger] actions@[m]) matches MergeAction::Conflict(
                    _,
                ),
        decreases na0 - m0,
    {
        if matches!(&actions[m0], MergeAction::Conflict(_)) {
            any_conflict = true;
            proof {
                assert(actions@[m0 as int] matches MergeAction::Conflict(_));
            }
            break;
        }
        m0 = m0 + 1;
    }

    let ghost trees_for_effect = stash_merge_trees(*old(repo), iv);
    let na = actions.len();
    let mut a: usize = 0;
    while a < na
        invariant
            repo.staged == old(repo).staged,
            repo.versions == old(repo).versions,
            repo.refs == old(repo).refs,
            repo.commits == old(repo).commits,
            repo.trees == old(repo).trees,
            repo.head_commit_id == old(repo).head_commit_id,
            repo.current_branch == old(repo).current_branch,
            repo.author == old(repo).author,
            repo.working.wf(),
            repo.conflicts.wf(),
            old(repo).wf(),
            na == actions@.len(),
            a <= na,
            forall|m: int|
                0 <= m < na ==> action_matches(
                    #[trigger] actions@[m],
                    trees_for_effect.0,
                    trees_for_effect.1,
                    trees_for_effect.2,
                    *old(repo),
                    action_path(actions@[m]),
                ),
            forall|m: int|
                0 <= m < na ==> in_merge_union(
                    trees_for_effect.0,
                    trees_for_effect.1,
                    trees_for_effect.2,
                    action_path(#[trigger] actions@[m]),
                ),
            forall|p: Seq<char>|
                in_merge_union(trees_for_effect.0, trees_for_effect.1, trees_for_effect.2, p)
                    ==> exists|m: int| 0 <= m < na && action_path(#[trigger] actions@[m]) == p,
            forall|m1: int, m2: int|
                0 <= m1 < m2 < na ==> action_path(#[trigger] actions@[m1]) != action_path(
                    #[trigger] actions@[m2],
                ),
            forall|m: int|
                0 <= m < a ==> action_applied(#[trigger] actions@[m], *old(repo), repo.working@, repo.conflicts@),
            forall|p: Seq<char>|
                !is_action_path(actions@, p) ==> (repo.working@.contains_key(p) == old(
                    repo,
                ).working@.contains_key(p)) && (old(repo).working@.contains_key(p)
                    ==> repo.working@[p] == old(repo).working@[p]),
            forall|p: Seq<char>|
                #[trigger] old(repo).conflicts@.contains_key(p) ==> repo.conflicts@.contains_key(p),
            forall|p: Seq<char>|
                #[trigger] repo.conflicts@.contains_key(p) ==> (old(repo).conflicts@.contains_key(p)
                    && repo.conflicts@[p] == old(repo).conflicts@[p]) || (exists|m: int|
                    0 <= m < a && ((#[trigger] actions@[m]) matches MergeAction::Conflict(_))
                        && action_path(actions@[m]) == p && repo.conflicts@[p]@.merge_entry_path
                        == p),
            (forall|m: int|
                0 <= m < a ==> !((#[trigger] actions@[m]) matches MergeAction::Conflict(_)))
                ==> repo.conflicts == old(repo).conflicts,
        decreases na - a,
    {
        let action = &actions[a];
        match action {
            MergeAction::Write(path, file) => {
                let wf_clone = WorkingFile {
                    bytes: crate::model::clone_bytes(&file.bytes),
                    mtime_seconds: file.mtime_seconds,
                    mtime_nanoseconds: file.mtime_nanoseconds,
                };
                repo.working.put(path.clone(), wf_clone);
            },
            MergeAction::Remove(path) => {
                repo.working.delete(path.as_str());
            },
            MergeAction::Conflict(path) => {
                let record = NodeMergeConflict {
                    merge_entry_path: path.clone(),
                    base_hash: None,
                    head_hash: None,
                    merge_hash: None,
                };
                repo.conflicts.put(path.clone(), record);
            },
        }
        proof {
            assert(is_action_path(actions@, action_path(actions@[a as int])));
            assert forall|m: int|
                0 <= m < a + 1 implies action_applied(
                #[trigger] actions@[m],
                *old(repo),
                repo.working@,
                repo.conflicts@,
            ) by {
                if m < a {
                    assert(action_path(actions@[m]) != action_path(actions@[a as int]));
                }
            }
            let ghost pre_conflicts = old(repo).conflicts@;
            assert forall|p: Seq<char>| #[trigger] repo.conflicts@.contains_key(p) implies (
            pre_conflicts.contains_key(p) && repo.conflicts@[p] == pre_conflicts[p]) || (exists|
                m: int,
            |
                0 <= m < a + 1 && ((#[trigger] actions@[m]) matches MergeAction::Conflict(_))
                    && action_path(actions@[m]) == p && repo.conflicts@[p]@.merge_entry_path
                    == p) by {
                if actions@[a as int] matches MergeAction::Conflict(q) && q@ == p {
                    assert((actions@[a as int] matches MergeAction::Conflict(_)) && action_path(
                        actions@[a as int],
                    ) == p && repo.conflicts@[p]@.merge_entry_path == p);
                }
            }
        }
        a = a + 1;
    }

    proof {
        assert(repo.wf()) by {
            let m = choose|m: int| 0 <= m <= u64::MAX && old(repo).stash_slots_exactly(m);
            assert(repo.stash_slots_exactly(m));
        }
        let bt = trees_for_effect.0;
        let ot = trees_for_effect.1;
        let tt = trees_for_effect.2;
        assert forall|p: Seq<char>|
            #![trigger in_merge_union(bt, ot, tt, p)]
            in_merge_union(bt, ot, tt, p) implies {
            let pick = merge_pick(tree_hash_at(bt, p), tree_hash_at(ot, p), tree_hash_at(tt, p));
            (pick == Some(true) ==> side_applied(tt, old(repo).versions, repo.working@, p)) && (
            pick == Some(false) ==> side_applied(ot, old(repo).versions, repo.working@, p))
        } by {
            let m = choose|m: int| 0 <= m < actions@.len() && action_path(#[trigger] actions@[m]) == p;
            assert(action_matches(actions@[m], bt, ot, tt, *old(repo), p));
            assert(action_applied(actions@[m], *old(repo), repo.working@, repo.conflicts@));
        }
        assert forall|p: Seq<char>|
            #![trigger repo.working@.contains_key(p)]
            !in_merge_union(bt, ot, tt, p) implies (repo.working@.contains_key(p) == old(
            repo,
        ).working@.contains_key(p)) && (old(repo).working@.contains_key(p)
            ==> repo.working@[p] == old(repo).working@[p]) by {
            if is_action_path(actions@, p) {
                let m = choose|m: int| 0 <= m < actions@.len() && action_path(#[trigger] actions@[m]) == p;
                assert(in_merge_union(bt, ot, tt, action_path(actions@[m])));
            }
        }
        assert(merge_checkout_effect(*old(repo), *repo, iv));
    }
    if any_conflict {
        proof {
            let bt = trees_for_effect.0;
            let ot = trees_for_effect.1;
            let tt = trees_for_effect.2;
            let mc = choose|m: int|
                0 <= m < actions@.len() && (#[trigger] actions@[m]) matches MergeAction::Conflict(
                    _,
                );
            assert(action_matches(actions@[mc], bt, ot, tt, *old(repo), action_path(actions@[mc])));
            assert(in_merge_union(bt, ot, tt, action_path(actions@[mc])));
            assert(!apply_merges_cleanly(*old(repo), iv));
            assert forall|p: Seq<char>|
                #![trigger repo.conflicts@.contains_key(p)]
                repo.conflicts@.contains_key(p) <==> (old(repo).conflicts@.contains_key(p) || (
            in_merge_union(bt, ot, tt, p) && merge_pick(
                tree_hash_at(bt, p),
                tree_hash_at(ot, p),
                tree_hash_at(tt, p),
            ) is None)) by {
                if repo.conflicts@.contains_key(p) && !old(repo).conflicts@.contains_key(p) {
                    let m = choose|m: int|
                        0 <= m < actions@.len() && ((#[trigger] actions@[m])
                            matches MergeAction::Conflict(_)) && action_path(actions@[m]) == p
                            && repo.conflicts@[p]@.merge_entry_path == p;
                    assert(action_matches(actions@[m], bt, ot, tt, *old(repo), p));
                }
                if in_merge_union(bt, ot, tt, p) && merge_pick(
                    tree_hash_at(bt, p),
                    tree_hash_at(ot, p),
                    tree_hash_at(tt, p),
                ) is None {
                    let m = choose|m: int|
                        0 <= m < actions@.len() && action_path(#[trigger] actions@[m]) == p;
                    assert(action_matches(actions@[m], bt, ot, tt, *old(repo), p));
                    assert(action_applied(actions@[m], *old(repo), repo.working@, repo.conflicts@));
                }
            }
            assert forall|p: Seq<char>|
                #![trigger repo.conflicts@[p]]
                repo.conflicts@.contains_key(p) implies (in_merge_union(bt, ot, tt, p)
                && merge_pick(
                tree_hash_at(bt, p),
                tree_hash_at(ot, p),
                tree_hash_at(tt, p),
            ) is None && repo.conflicts@[p]@.merge_entry_path == p) || (old(
                repo,
            ).conflicts@.contains_key(p) && repo.conflicts@[p] == old(repo).conflicts@[p]) by {
                if !(old(repo).conflicts@.contains_key(p) && repo.conflicts@[p] == old(
                    repo,
                ).conflicts@[p]) {
                    let m = choose|m: int|
                        0 <= m < actions@.len() && ((#[trigger] actions@[m])
                            matches MergeAction::Conflict(_)) && action_path(actions@[m]) == p
                            && repo.conflicts@[p]@.merge_entry_path == p;
                    assert(action_matches(actions@[m], bt, ot, tt, *old(repo), p));
                }
            }
            assert(merge_conflict_effect(*old(repo), *repo, iv));
        }
        return Err(
            OxenError::MergeConflict(
                String::from_str("Conflicts encountered while applying stash."),
            ),
        );
    }
    proof {
        let bt = trees_for_effect.0;
        let ot = trees_for_effect.1;
        let tt = trees_for_effect.2;
        assert forall|p: Seq<char>|
            #![trigger in_merge_union(bt, ot, tt, p)]
            in_merge_union(bt, ot, tt, p) implies merge_pick(
            tree_hash_at(bt, p),
            tree_hash_at(ot, p),
            tree_hash_at(tt, p),
        ) is Some by {
            let m = choose|m: int| 0 <= m < actions@.len() && action_path(#[trigger] actions@[m]) == p;
            assert(action_matches(actions@[m], bt, ot, tt, *old(repo), p));
        }
        assert(apply_ok_effect(*old(repo), *repo, iv));
    }
    Ok(())
}

/// Applies a stash entry to the working directory by a three-way merge of
/// the stash commit's base, the current head, and the stash commit. Does
/// not remove the stash. When the merge conflicts, the conflicted paths
/// are recorded in the conflict database, the stash is retained, and the
/// merged paths that did not conflict are still checked out.
pub fn apply(repo: &mut LocalRepository, stash_id: Option<&str>) -> (r: Result<(), OxenError>)
    requires
        old(repo).wf(),
    ensures
        final(repo).wf(),
        match r {
            Ok(_) => exists|i: int|
                #![auto]
                0 <= i && old(repo).refs@.contains_key(stash_ref_spec(i)) && resolves_to_slot(
                    *old(repo),
                    match stash_id {
                        Some(s) => Some(s@),
                        None => None,
                    },
                    i,
                ) && stash_commit_sound(*old(repo), i) && apply_ok_effect(
                    *old(repo),
                    *final(repo),
                    i,
                ),
            Err(e) => match e {
                OxenError::NoStashesFound => *final(repo) == *old(repo) && old(
                    repo,
                ).stash_slots_exactly(0),
                OxenError::StashIdNotFound(_) => *final(repo) == *old(repo) && !old(
                    repo,
                ).stash_slots_exactly(0) && (stash_id matches Some(s) && forall|i: int|
                    0 <= i && old(repo).refs@.contains_key(stash_ref_spec(i)) ==> !resolves_to_slot(
                        *old(repo),
                        Some(s@),
                        i,
                    )),
                OxenError::CorruptStashCommit(_) => *final(repo) == *old(repo) && exists|i: int|
                    #![auto]
                    0 <= i && old(repo).refs@.contains_key(stash_ref_spec(i)) && resolves_to_slot(
                        *old(repo),
                        match stash_id {
                            Some(s) => Some(s@),
                            None => None,
                        },
                        i,
                    ) && old(repo).commits@[old(repo).refs@[stash_ref_spec(i)]@]@.parent_ids.len()
                        == 0,
                OxenError::CommitIdDoesNotExist(_) => *final(repo) == *old(repo) && exists|i: int|
                    #![auto]
                    0 <= i && old(repo).refs@.contains_key(stash_ref_spec(i)) && resolves_to_slot(
                        *old(repo),
                        match stash_id {
                            Some(s) => Some(s@),
                            None => None,
                        },
                        i,
                    ) && old(repo).commits@[old(repo).refs@[stash_ref_spec(i)]@]@.parent_ids.len()
                        > 0 && !old(repo).commits@.contains_key(
                        old(repo).commits@[old(repo).refs@[stash_ref_spec(i)]@]@.parent_ids[0],
                    ),
                OxenError::MergeConflict(_) => exists|i: int|
                    #![auto]
                    0 <= i && old(repo).refs@.contains_key(stash_ref_spec(i)) && resolves_to_slot(
                        *old(repo),
                        match stash_id {
                            Some(s) => Some(s@),
                            None => None,
                        },
                        i,
                    ) && stash_commit_sound(*old(repo), i) && merge_conflict_effect(
                        *old(repo),
                        *final(repo),
                        i,
                    ),
                _ => false,
            },
        },
{
    let idx = match resolve_stash_id_to_index(repo, stash_id) {
        Ok(i) => i,
        Err(e) => {
            return Err(e);
        },
    };
    proof {
        let n = choose|n: int|
            #![auto]
            0 <= n && old(repo).stash_slots_exactly(n) && (idx as int) < n;
        assert(old(repo).refs@.contains_key(stash_ref_spec(idx as int)));
    }
    apply_by_index(repo, idx)
}

/// The combined effect of a clean pop at slot `i`: the working tree holds
/// the merge result, the slot is dropped with the stack compacted, and
/// nothing else changes.
pub open spec fn pop_ok_effect(o: LocalRepository, f: LocalRepository, i: int) -> bool {
    &&& apply_merges_cleanly(o, i)
    &&& merge_checkout_effect(o, f, i)
    &&& f.staged == o.staged
    &&& f.conflicts == o.conflicts
    &&& f.versions == o.versions
    &&& f.commits == o.commits
    &&& f.trees == o.trees
    &&& f.head_commit_id == o.head_commit_id
    &&& f.current_branch == o.current_branch
    &&& f.author == o.author
    &&& forall|n: int| 0 <= n && o.stash_slots_exactly(n) ==> f.stash_slots_exactly(n - 1)
    &&& forall|j: int|
        #![trigger f.refs@[stash_ref_spec(j)]]
        0 <= j < i ==> f.refs@[stash_ref_spec(j)] == o.refs@[stash_ref_spec(j)]
    &&& forall|j: int|
        #![trigger f.refs@[stash_ref_spec(j)]]
        i <= j && o.refs@.contains_key(stash_ref_spec(j + 1)) ==> f.refs@[stash_ref_spec(j)]@
            == o.refs@[stash_ref_spec(j + 1)]@
    &&& forall|rn: Seq<char>|
        !is_stash_ref(rn) ==> (f.refs@.contains_key(rn) == o.refs@.contains_key(rn)) && (
        o.refs@.contains_key(rn) ==> f.refs@[rn] == o.refs@[rn])
}

/// Whether some planned action concerns the path.
spec fn is_action_path(actions: Seq<MergeAction>, p: Seq<char>) -> bool {
    exists|m: int| 0 <= m < actions.len() && action_path(#[trigger] actions[m]) == p
}

/// The path an action concerns.
spec fn action_path(a: MergeAction) -> Seq<char> {
    match a {
        MergeAction::Write(p, _) => p@,
        MergeAction::Remove(p) => p@,
        MergeAction::Conflict(p) => p@,
    }
}

/// An action is the one the three-way pick dictates at its path.
spec fn action_matches(
    a: MergeAction,
    bt: Tree,
    ot: Tree,
    tt: Tree,
    o: LocalRepository,
    p: Seq<char>,
) -> bool {
    let pick = merge_pick(tree_hash_at(bt, p), tree_hash_at(ot, p), tree_hash_at(tt, p));
    &&& action_path(a) == p
    &&& match a {
        MergeAction::Write(_, file) => (pick == Some(true) && tt.files@.contains_key(p) && file@.bytes
            == o.versions.contents()[tt.files@[p]@.hash]) || (pick == Some(false)
            && ot.files@.contains_key(p) && file@.bytes == o.versions.contents()[ot.files@[p]@.hash]),
        MergeAction::Remove(_) => (pick == Some(true) && !tt.files@.contains_key(p)) || (pick
            == Some(false) && !ot.files@.contains_key(p)),
        MergeAction::Conflict(_) => pick is None,
    }
}

/// An action has been carried out on the working tree and conflict store.
spec fn action_applied(
    a: MergeAction,
    o: LocalRepository,
    w: Map<Seq<char>, WorkingFile>,
    conflicts: Map<Seq<char>, crate::model::NodeMergeConflict>,
) -> bool {
    match a {
        MergeAction::Write(p, file) => w.contains_key(p@) && w[p@].bytes@ == file.bytes@,
        MergeAction::Remove(p) => !w.contains_key(p@),
        MergeAction::Conflict(p) => conflicts.contains_key(p@),
    }
}

/// Reads a tree leaf's blob out of the version store as a working file.
fn fetch_working_file(versions: &VersionStore, node: &FileNode) -> (r: WorkingFile)
    requires
        versions.wf(),
        versions.contents().contains_key(node@.hash),
    ensures
        r@.bytes == versions.contents()[node@.hash],
        r@.mtime_seconds == node@.last_modified_seconds,
        r@.mtime_nanoseconds == node@.last_modified_nanoseconds,
{
    let bytes = match versions.open_version(node.hash.to_u128()) {
        Some(b) => crate::model::clone_bytes(b),
        None => {
            proof {
                assert(false);
            }
            unreached()
        },
    };
    WorkingFile {
        bytes,
        mtime_seconds: node.last_modified_seconds,
        mtime_nanoseconds: node.last_modified_nanoseconds,
    }
}

/// Appends every key of a store to the list, skipping keys already seen.
fn collect_keys(
    db: &KvDb<FileNode>,
    keys: &mut Vec<String>,
    seen: &mut vstd::hash_set::StringHashSet,
)
    requires
        db.wf(),
        forall|j: int|
            0 <= j < old(keys)@.len() ==> old(seen)@.contains((#[trigger] old(keys)@[j])@),
        forall|j1: int, j2: int|
            0 <= j1 < j2 < old(keys)@.len() ==> (#[trigger] old(keys)@[j1])@ != (
            #[trigger] old(keys)@[j2])@,
        forall|p: Seq<char>|
            #[trigger] old(seen)@.contains(p) ==> exists|j: int|
                0 <= j < old(keys)@.len() && old(keys)@[j]@ == p,
    ensures
        forall|j: int|
            0 <= j < final(keys)@.len() ==> final(seen)@.contains((#[trigger] final(keys)@[j])@),
        forall|j1: int, j2: int|
            0 <= j1 < j2 < final(keys)@.len() ==> (#[trigger] final(keys)@[j1])@ != (
            #[trigger] final(keys)@[j2])@,
        forall|p: Seq<char>|
            #[trigger] final(seen)@.contains(p) ==> exists|j: int|
                0 <= j < final(keys)@.len() && final(keys)@[j]@ == p,
        forall|j: int|
            0 <= j < old(keys)@.len() ==> (#[trigger] final(keys)@[j]) == old(keys)@[j],
        forall|p: Seq<char>|
            #[trigger] old(seen)@.contains(p) ==> final(seen)@.contains(p),
        forall|k: Seq<char>|
            #[trigger] db@.contains_key(k) ==> final(seen)@.contains(k),
        forall|j: int|
            old(keys)@.len() <= j < final(keys)@.len() ==> db@.contains_key(
                (#[trigger] final(keys)@[j])@,
            ),
        final(keys)@.len() >= old(keys)@.len(),
{
    let n = db.num_keys();
    let mut i: usize = 0;
    while i < n
        invariant
            db.wf(),
            n == db.keys_view().len(),
            i <= n,
            forall|j: int|
                0 <= j < keys@.len() ==> seen@.contains((#[trigger] keys@[j])@),
            forall|j1: int, j2: int|
                0 <= j1 < j2 < keys@.len() ==> (#[trigger] keys@[j1])@ != (#[trigger] keys@[j2])@,
            forall|p: Seq<char>|
                #[trigger] seen@.contains(p) ==> exists|j: int|
                    0 <= j < keys@.len() && keys@[j]@ == p,
            forall|j: int|
                0 <= j < old(keys)@.len() ==> (#[trigger] keys@[j]) == old(keys)@[j],
            keys@.len() >= old(keys)@.len(),
            forall|p: Seq<char>| #[trigger] old(seen)@.contains(p) ==> seen@.contains(p),
            forall|j: int| 0 <= j < i ==> seen@.contains(#[trigger] db.keys_view()[j]),
            forall|j: int|
                old(keys)@.len() <= j < keys@.len() ==> db@.contains_key(
                    (#[trigger] keys@[j])@,
                ),
        decreases n - i,
    {
        let key = db.key_at(i);
        if !seen.contains(key.as_str()) {
            proof {
                db.lemma_listed_key_contained(i as int);
            }
            let ghost pre_seen = seen@;
            let ghost pre_keys = keys@;
            keys.push(key.clone());
            let _ins = seen.insert(key.clone());
            proof {
                assert(keys@[keys@.len() - 1]@ == key@);
                assert forall|p: Seq<char>| #[trigger] seen@.contains(p) implies exists|j: int|
                    0 <= j < keys@.len() && keys@[j]@ == p by {
                    if p == key@ {
                        assert(keys@[keys@.len() - 1]@ == p);
                    } else {
                        assert(pre_seen.contains(p));
                        let j = choose|j: int| 0 <= j < pre_keys.len() && pre_keys[j]@ == p;
                        assert(keys@[j]@ == p);
                    }
                }
            }
        }
        i = i + 1;
    }
    proof {
        assert forall|k: Seq<char>| #[trigger] db@.contains_key(k) implies seen@.contains(k) by {
            db.lemma_contained_key_listed(k);
        }
    }
}

/// Removes a stash entry from the list and applies it to the working
/// directory: a clean application is followed by dropping the resolved
/// slot with compaction, while after a conflicting application the slot is
/// retained at its index, the conflicted paths are recorded, and the clean
/// part of the merge is still checked out.
pub fn pop(repo: &mut LocalRepository, stash_id: Option<&str>) -> (r: Result<(), OxenError>)
    requires
        old(repo).wf(),
    ensures
        final(repo).wf(),
        match r {
            Ok(_) => exists|i: int|
                #![auto]
                0 <= i && old(repo).refs@.contains_key(stash_ref_spec(i)) && resolves_to_slot(
                    *old(repo),
                    match stash_id {
                        Some(s) => Some(s@),
                        None => None,
                    },
                    i,
                ) && stash_commit_sound(*old(repo), i) && pop_ok_effect(*old(repo), *final(repo), i),
            Err(e) => match e {
                OxenError::NoStashesFound => *final(repo) == *old(repo) && old(
                    repo,
                ).stash_slots_exactly(0),
                OxenError::StashIdNotFound(_) => *final(repo) == *old(repo) && !old(
                    repo,
                ).stash_slots_exactly(0) && (stash_id matches Some(s) && forall|i: int|
                    0 <= i && old(repo).refs@.contains_key(stash_ref_spec(i)) ==> !resolves_to_slot(
                        *old(repo),
                        Some(s@),
                        i,
                    )),
                OxenError::CorruptStashCommit(_) => *final(repo) == *old(repo) && exists|i: int|
                    #![auto]
                    0 <= i && old(repo).refs@.contains_key(stash_ref_spec(i)) && resolves_to_slot(
                        *old(repo),
                        match stash_id {
                            Some(s) => Some(s@),
                            None => None,
                        },
                        i,
                    ) && old(repo).commits@[old(repo).refs@[stash_ref_spec(i)]@]@.parent_ids.len()
                        == 0,
                OxenError::CommitIdDoesNotExist(_) => *final(repo) == *old(repo) && exists|i: int|
                    #![auto]
                    0 <= i && old(repo).refs@.contains_key(stash_ref_spec(i)) && resolves_to_slot(
                        *old(repo),
                        match stash_id {
                            Some(s) => Some(s@),
                            None => None,
                        },
                        i,
                    ) && old(repo).commits@[old(repo).refs@[stash_ref_spec(i)]@]@.parent_ids.len()
                        > 0 && !old(repo).commits@.contains_key(
                        old(repo).commits@[old(repo).refs@[stash_ref_spec(i)]@]@.parent_ids[0],
                    ),
                OxenError::MergeConflict(_) => exists|i: int|
                    #![auto]
                    0 <= i && old(repo).refs@.contains_key(stash_ref_spec(i)) && resolves_to_slot(
                        *old(repo),
                        match stash_id {
                            Some(s) => Some(s@),
                            None => None,
                        },
                        i,
                    ) && stash_commit_sound(*old(repo), i) && merge_conflict_effect(
                        *old(repo),
                        *final(repo),
                        i,
                    ),
                _ => false,
            },
        },
{
    let idx = match resolve_stash_id_to_index(repo, stash_id) {
        Ok(i) => i,
        Err(e) => {
            return Err(e);
        },
    };
    proof {
        let n = choose|n: int|
            #![auto]
            0 <= n && old(repo).stash_slots_exactly(n) && (idx as int) < n;
        assert(old(repo).refs@.contains_key(stash_ref_spec(idx as int)));
    }
    match apply_by_index(repo, idx) {
        Ok(_) => {},
        Err(e) => {
            return Err(e);
        },
    }
    let ghost mid = *repo;
    proof {
        let n0 = choose|n: int|
            #![auto]
            0 <= n && old(repo).stash_slots_exactly(n) && (idx as int) < n;
        assert(repo.stash_slots_exactly(n0));
    }
    let r = drop_by_index(repo, idx);
    proof {
        assert(r is Ok);
        assert forall|n: int|
            0 <= n && old(repo).stash_slots_exactly(n) implies final(repo).stash_slots_exactly(
            n - 1,
        ) by {
            assert(mid.stash_slots_exactly(n));
        }
        assert(pop_ok_effect(*old(repo), *repo, idx as int));
    }
    r
}


/// Save-then-apply round trip: starting from a dirty working tree, saving a
/// stash and immediately applying it restores the working tree, file for
/// file and byte for byte.
///
/// The hypotheses on the version store state content addressing without
/// collisions among the involved blobs: a stored blob under a working
/// file's hash holds that file's bytes, and no two working files share a
/// hash with different bytes.
#[verifier::rlimit(100)]
#[verifier::spinoff_prover]
pub fn save_apply_round_trip(repo: &mut LocalRepository, message: Option<&str>) -> (r: Result<
    Commit,
    OxenError,
>)
    requires
        old(repo).wf(),
        old(repo).stash_has_capacity(),
        crate::repo::working_wf(old(repo).working@),
        !working_clean_spec(*old(repo)),
        old(repo).current_branch is Some,
        forall|k: Seq<char>|
            #[trigger] old(repo).working@.contains_key(k) && old(repo).versions.contents().contains_key(
                crate::hash::hash_bytes_spec(old(repo).working@[k].bytes@),
            ) ==> old(repo).versions.contents()[crate::hash::hash_bytes_spec(
                old(repo).working@[k].bytes@,
            )] == old(repo).working@[k].bytes@,
        forall|k1: Seq<char>, k2: Seq<char>|
            old(repo).working@.contains_key(k1) && old(repo).working@.contains_key(k2)
                && crate::hash::hash_bytes_spec(old(repo).working@[k1].bytes@)
                == crate::hash::hash_bytes_spec(old(repo).working@[k2].bytes@) ==> old(
                repo,
            ).working@[k1].bytes@ == old(repo).working@[k2].bytes@,
    ensures
        final(repo).wf(),
        r is Ok,
        forall|k: Seq<char>|
            final(repo).working@.contains_key(k) == (#[trigger] old(repo).working@.contains_key(
                k,
            )),
        forall|k: Seq<char>|
            #[trigger] old(repo).working@.contains_key(k) ==> final(repo).working@[k].bytes@ == old(
                repo,
            ).working@[k].bytes@,
{
    let saved = match save(repo, message) {
        Ok(Some(c)) => c,
        Ok(None) => {
            proof {
                assert(false);
            }
            unreached()
        },
        Err(_) => {
            proof {
                assert(false);
            }
            unreached()
        },
    };
    let ghost mid = *repo;
    proof {
        assert(mid.refs@.contains_key(stash_ref_spec(0)));
    }
    match apply(repo, None) {
        Ok(_) => {
            proof {
                let i = choose|i: int|
                    #![auto]
                    0 <= i && mid.refs@.contains_key(stash_ref_spec(i)) && resolves_to_slot(
                        mid,
                        None,
                        i,
                    ) && apply_ok_effect(mid, *repo, i);
                assert(i == 0);
                let c = mid.commits@[mid.refs@[stash_ref_spec(0)]@]@;
                assert(mid.refs@[stash_ref_spec(0)]@ == saved@.id);
                assert(c == saved@);
                assert(c.parent_ids[0] == old(repo).head_commit_id@);
                let bt = mid.trees@[c.parent_ids[0]];
                let ot = mid.trees@[mid.head_commit_id@];
                let tt = mid.trees@[c.id];
                assert(bt == ot);
                assert(tree_matches_working(tt, old(repo).working@));
                assert forall|k: Seq<char>| #[trigger] old(repo).working@.contains_key(k) implies (
                repo.working@.contains_key(k) && repo.working@[k].bytes@ == old(
                    repo,
                ).working@[k].bytes@) by {
                    assert(tt.files@.contains_key(k));
                    assert(in_merge_union(bt, ot, tt, k));
                    let pick = merge_pick(tree_hash_at(bt, k), tree_hash_at(ot, k), tree_hash_at(tt, k));
                    assert(pick == Some(true));
                    assert(side_applied(tt, mid.versions, repo.working@, k));
                    let h = tt.files@[k]@.hash;
                    assert(h == crate::hash::hash_bytes_spec(old(repo).working@[k].bytes@));
                    assert(repo.working@[k].bytes@ == mid.versions.contents()[h]);
                    if old(repo).versions.contents().contains_key(h) {
                        assert(mid.versions.contents()[h] == old(repo).versions.contents()[h]);
                        assert(old(repo).versions.contents()[h] == old(repo).working@[k].bytes@);
                    } else {
                        assert(mid.versions.contents().contains_key(h));
                        let kw = choose|kw: Seq<char>|
                            #![auto]
                            old(repo).working@.contains_key(kw) && h == crate::hash::hash_bytes_spec(
                                old(repo).working@[kw].bytes@,
                            ) && mid.versions.contents()[h] == old(repo).working@[kw].bytes@;
                        assert(old(repo).working@[kw].bytes@ == old(repo).working@[k].bytes@);
                    }
                }
                assert forall|k: Seq<char>| #[trigger] repo.working@.contains_key(k) implies old(
                    repo,
                ).working@.contains_key(k) by {
                    if in_merge_union(bt, ot, tt, k) {
                        let pick = merge_pick(
                            tree_hash_at(bt, k),
                            tree_hash_at(ot, k),
                            tree_hash_at(tt, k),
                        );
                        assert(pick == Some(true));
                        assert(side_applied(tt, mid.versions, repo.working@, k));
                        assert(tt.files@.contains_key(k));
                    } else {
                        assert(repo.working@.contains_key(k) == mid.working@.contains_key(k));
                        assert(mid.working@.contains_key(k) == old(repo).trees@[old(
                            repo,
                        ).head_commit_id@].files@.contains_key(k));
                        assert(in_merge_union(bt, ot, tt, k));
                    }
                }
            }
            Ok(saved)
        },
        Err(e) => {
            proof {
                match e {
                    OxenError::NoStashesFound => {
                        assert(mid.refs@.contains_key(stash_ref_spec(0)));
                        assert(false);
                    },
                    OxenError::StashIdNotFound(_) => {
                        assert(false);
                    },
                    OxenError::CorruptStashCommit(_) => {
                        let i = choose|i: int|
                            #![auto]
                            0 <= i && mid.refs@.contains_key(stash_ref_spec(i)) && resolves_to_slot(
                                mid,
                                None,
                                i,
                            ) && mid.commits@[mid.refs@[stash_ref_spec(i)]@]@.parent_ids.len() == 0;
                        assert(i == 0);
                        assert(mid.commits@[mid.refs@[stash_ref_spec(0)]@]@ == saved@);
                        assert(saved@.parent_ids.len() == 1);
                        assert(false);
                    },
                    OxenError::CommitIdDoesNotExist(_) => {
                        let i = choose|i: int|
                            #![auto]
                            0 <= i && mid.refs@.contains_key(stash_ref_spec(i)) && resolves_to_slot(
                                mid,
                                None,
                                i,
                            ) && mid.commits@[mid.refs@[stash_ref_spec(i)]@]@.parent_ids.len() > 0
                                && !mid.commits@.contains_key(
                                mid.commits@[mid.refs@[stash_ref_spec(i)]@]@.parent_ids[0],
                            );
                        assert(i == 0);
                        assert(mid.commits@[mid.refs@[stash_ref_spec(0)]@]@ == saved@);
                        assert(saved@.parent_ids[0] == old(repo).head_commit_id@);
                        assert(mid.commits@.contains_key(old(repo).head_commit_id@));
                        assert(false);
                    },
                    OxenError::MergeConflict(_) => {
                        let i = choose|i: int|
                            #![auto]
                            0 <= i && mid.refs@.contains_key(stash_ref_spec(i)) && resolves_to_slot(
                                mid,
                                None,
                                i,
                            ) && stash_commit_sound(mid, i) && merge_conflict_effect(mid, *repo, i);
                        assert(i == 0);
                        assert(mid.commits@[mid.refs@[stash_ref_spec(0)]@]@ == saved@);
                        assert(stash_merge_trees(mid, 0).0 == stash_merge_trees(mid, 0).1);
                        assert(apply_merges_cleanly(mid, 0)) by {
                            let bt = stash_merge_trees(mid, 0).0;
                            let ot = stash_merge_trees(mid, 0).1;
                            let tt = stash_merge_trees(mid, 0).2;
                            assert forall|p: Seq<char>|
                                #![trigger in_merge_union(bt, ot, tt, p)]
                                in_merge_union(bt, ot, tt, p) implies merge_pick(
                                tree_hash_at(bt, p),
                                tree_hash_at(ot, p),
                                tree_hash_at(tt, p),
                            ) is Some by {
                                assert(tree_hash_at(ot, p) == tree_hash_at(bt, p));
                            }
                        }
                        assert(false);
                    },
                    _ => {
                        assert(false);
                    },
                }
            }
            Err(e)
        },
    }
}

/// All distinct slot numbers have distinct ref names.
proof fn lemma_stash_ref_injective_all()
    ensures
        forall|a: int, b: int|
            #![trigger stash_ref_spec(a), stash_ref_spec(b)]
            0 <= a && 0 <= b && a != b ==> stash_ref_spec(a) != stash_ref_spec(b),
{
    assert forall|a: int, b: int|
        #![trigger stash_ref_spec(a), stash_ref_spec(b)]
        0 <= a && 0 <= b && a != b implies stash_ref_spec(a) != stash_ref_spec(b) by {
        if stash_ref_spec(a) == stash_ref_spec(b) {
            lemma_stash_ref_injective(a, b);
        }
    }
}

} // verus!
