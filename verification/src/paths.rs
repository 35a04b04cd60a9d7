//! Relative repository paths, kept as strings with `/` separators.
//!
//! A staged entry is keyed by the path of its file relative to the repository
//! root; the root itself is the empty string. The functions here compute the
//! parent directory of a path and its file name, and enumerate the chain of
//! ancestor directories that the staging writer records for every file.

use vstd::prelude::*;

verus! {

/// Index of the last `/` in a path, or `-1` when it has none.
pub open spec fn last_slash_idx(p: Seq<char>) -> int
    decreases p.len(),
{
    if p.len() == 0 {
        -1
    } else if p.last() == '/' {
        p.len() - 1
    } else {
        last_slash_idx(p.drop_last())
    }
}

pub proof fn lemma_last_slash_idx_bounds(p: Seq<char>)
    ensures
        -1 <= last_slash_idx(p) < p.len(),
        last_slash_idx(p) >= 0 ==> p[last_slash_idx(p)] == '/',
    decreases p.len(),
{
    if p.len() > 0 && p.last() != '/' {
        lemma_last_slash_idx_bounds(p.drop_last());
    }
}

/// The parent directory of a path: everything before the last `/`, the empty
/// path (the repository root) when there is no `/`.
pub open spec fn parent_of(p: Seq<char>) -> Seq<char> {
    if last_slash_idx(p) <= 0 {
        Seq::empty()
    } else {
        p.subrange(0, last_slash_idx(p))
    }
}

/// The file name of a path: everything after the last `/`.
pub open spec fn file_name_of(p: Seq<char>) -> Seq<char> {
    p.subrange(last_slash_idx(p) + 1, p.len() as int)
}

pub proof fn lemma_parent_shorter(p: Seq<char>)
    requires
        p.len() > 0,
    ensures
        parent_of(p).len() < p.len(),
{
    lemma_last_slash_idx_bounds(p);
}

/// The chain of ancestor directories of a path, nearest first: the parent,
/// the parent's parent, and so on down to the repository root.
pub open spec fn ancestors_of(p: Seq<char>) -> Seq<Seq<char>>
    decreases p.len(),
    via ancestors_of_decreases
{
    if p.len() == 0 {
        seq![]
    } else {
        seq![parent_of(p)] + ancestors_of(parent_of(p))
    }
}

#[via_fn]
proof fn ancestors_of_decreases(p: Seq<char>) {
    if p.len() > 0 {
        lemma_parent_shorter(p);
    }
}

/// Membership in the ancestor chain, unfolded one step: an ancestor of a
/// path is either its parent or an ancestor of its parent.
pub proof fn lemma_ancestors_unfold(p: Seq<char>, a: Seq<char>)
    ensures
        ancestors_of(p).contains(a) <==> (p.len() > 0 && (a == parent_of(p) || ancestors_of(
            parent_of(p),
        ).contains(a))),
{
    if p.len() > 0 {
        lemma_parent_shorter(p);
        let chain = ancestors_of(p);
        let sub = ancestors_of(parent_of(p));
        assert(chain == seq![parent_of(p)] + sub);
        if chain.contains(a) {
            let i = choose|i: int| 0 <= i < chain.len() && chain[i] == a;
            if i == 0 {
                assert(a == parent_of(p));
            } else {
                assert(sub[i - 1] == a);
            }
        }
        if sub.contains(a) {
            let i = choose|i: int| 0 <= i < sub.len() && sub[i] == a;
            assert(chain[i + 1] == a);
        }
        if a == parent_of(p) {
            assert(chain[0] == a);
        }
    }
}

/// Ancestors are strictly shorter than the path itself.
pub proof fn lemma_ancestors_shorter(p: Seq<char>, a: Seq<char>)
    requires
        ancestors_of(p).contains(a),
    ensures
        a.len() < p.len(),
    decreases p.len(),
{
    lemma_parent_shorter(p);
    let chain = ancestors_of(p);
    let i = choose|i: int| 0 <= i < chain.len() && chain[i] == a;
    if i == 0 {
    } else {
        assert(ancestors_of(parent_of(p))[i - 1] == a);
        lemma_ancestors_shorter(parent_of(p), a);
    }
}

/// Every nonempty path has the repository root among its ancestors.
pub proof fn lemma_root_is_ancestor(p: Seq<char>)
    requires
        p.len() > 0,
    ensures
        ancestors_of(p).contains(Seq::<char>::empty()),
    decreases p.len(),
{
    lemma_parent_shorter(p);
    if parent_of(p).len() == 0 {
        assert(ancestors_of(p)[0] == Seq::<char>::empty());
    } else {
        lemma_root_is_ancestor(parent_of(p));
        let q = parent_of(p);
        let i = choose|i: int| 0 <= i < ancestors_of(q).len() && ancestors_of(q)[i] == Seq::<char>::empty();
        assert(ancestors_of(p)[i + 1] == Seq::<char>::empty());
    }
}

/// Index of the last `/` in a string, or `None` when it has none.
pub fn last_slash_index(p: &str) -> (r: Option<usize>)
    ensures
        match r {
            Some(i) => last_slash_idx(p@) == i,
            None => last_slash_idx(p@) == -1,
        },
{
    let n = p.unicode_len();
    let mut best: Option<usize> = None;
    let mut i: usize = 0;
    while i < n
        invariant
            n == p@.len(),
            i <= n,
            match best {
                Some(b) => last_slash_idx(p@.subrange(0, i as int)) == b,
                None => last_slash_idx(p@.subrange(0, i as int)) == -1,
            },
        decreases n - i,
    {
        let c = p.get_char(i);
        proof {
            let pre = p@.subrange(0, i as int);
            let post = p@.subrange(0, i + 1 as int);
            assert(post.drop_last() =~= pre);
            assert(post.last() == p@[i as int]);
        }
        if c == '/' {
            best = Some(i);
        }
        i = i + 1;
    }
    proof {
        assert(p@.subrange(0, p@.len() as int) =~= p@);
    }
    best
}

/// Computes [`parent_of`] a path string.
pub fn path_parent(p: &str) -> (r: String)
    ensures
        r@ == parent_of(p@),
{
    match last_slash_index(p) {
        Some(i) => {
            if i == 0 {
                String::new()
            } else {
                proof {
                    lemma_last_slash_idx_bounds(p@);
                }
                p.substring_char(0, i).to_owned()
            }
        },
        None => String::new(),
    }
}

/// Computes [`file_name_of`] a path string.
pub fn path_file_name(p: &str) -> (r: String)
    ensures
        r@ == file_name_of(p@),
{
    let n = p.unicode_len();
    match last_slash_index(p) {
        Some(i) => {
            proof {
                lemma_last_slash_idx_bounds(p@);
            }
            p.substring_char(i + 1, n).to_owned()
        },
        None => {
            proof {
                assert(p@.subrange(0, p@.len() as int) =~= p@);
            }
            p.to_owned()
        },
    }
}

/// True when a sequence holds no `/` separator, as a file name must.
pub open spec fn no_slash(s: Seq<char>) -> bool {
    forall|i: int| 0 <= i < s.len() ==> s[i] != '/'
}

/// Joining a directory path and a child name: the root joins to the bare
/// name, any other directory contributes a `/` separator.
pub open spec fn join_path(d: Seq<char>, f: Seq<char>) -> Seq<char> {
    if d.len() == 0 {
        f
    } else {
        d + seq!['/'] + f
    }
}

/// After the last `/` of a path no further `/` occurs.
pub proof fn lemma_no_slash_after_last(p: Seq<char>, j: int)
    requires
        last_slash_idx(p) < j < p.len(),
    ensures
        p[j] != '/',
    decreases p.len(),
{
    lemma_last_slash_idx_bounds(p);
    if p.len() > 0 {
        if j == p.len() - 1 {
            if p.last() == '/' {
                assert(last_slash_idx(p) == p.len() - 1);
            }
        } else {
            if p.last() == '/' {
                assert(last_slash_idx(p) == p.len() - 1);
            } else {
                lemma_no_slash_after_last(p.drop_last(), j);
            }
        }
    }
}

/// The file name of a path holds no separator.
pub proof fn lemma_file_name_no_slash(p: Seq<char>)
    ensures
        no_slash(file_name_of(p)),
{
    lemma_last_slash_idx_bounds(p);
    assert forall|i: int| 0 <= i < file_name_of(p).len() implies file_name_of(p)[i] != '/' by {
        lemma_no_slash_after_last(p, last_slash_idx(p) + 1 + i);
    }
}

/// A path that does not start with `/` is the join of its parent and its
/// file name.
pub proof fn lemma_join_parent_name(p: Seq<char>)
    requires
        p.len() > 0,
        p[0] != '/',
    ensures
        join_path(parent_of(p), file_name_of(p)) == p,
{
    lemma_last_slash_idx_bounds(p);
    let i = last_slash_idx(p);
    if i <= 0 {
        if i == 0 {
            assert(p[0] == '/');
        }
        assert(join_path(parent_of(p), file_name_of(p)) =~= p);
    } else {
        assert(join_path(parent_of(p), file_name_of(p)) =~= p);
    }
}

/// In a join with a slash-free name, the last separator is the one the join
/// inserted.
proof fn lemma_last_slash_of_join(d: Seq<char>, f: Seq<char>)
    requires
        no_slash(f),
    ensures
        d.len() == 0 ==> last_slash_idx(f) == -1,
        d.len() > 0 ==> last_slash_idx(d + seq!['/'] + f) == d.len(),
    decreases f.len(),
{
    if f.len() == 0 {
        if d.len() > 0 {
            let p = d + seq!['/'] + f;
            assert(p.last() == '/');
        }
    } else {
        assert(no_slash(f.drop_last()));
        lemma_last_slash_of_join(d, f.drop_last());
        if d.len() == 0 {
            assert(f.last() != '/');
        } else {
            let p = d + seq!['/'] + f;
            assert(p.last() == f.last());
            assert(p.last() != '/');
            assert(p.drop_last() =~= d + seq!['/'] + f.drop_last());
        }
    }
}

/// Splitting a join recovers its parts: the parent of the joined path is the
/// directory, its file name is the name.
pub proof fn lemma_parent_of_join(d: Seq<char>, f: Seq<char>)
    requires
        no_slash(f),
    ensures
        parent_of(join_path(d, f)) == d,
        file_name_of(join_path(d, f)) == f,
{
    lemma_last_slash_of_join(d, f);
    if d.len() == 0 {
        assert(parent_of(f) =~= d);
        assert(file_name_of(f) =~= f);
    } else {
        let p = d + seq!['/'] + f;
        assert(parent_of(p) =~= d);
        assert(file_name_of(p) =~= f);
    }
}

/// Joins a directory path and a child name.
pub fn path_join(d: &str, f: &str) -> (r: String)
    ensures
        r@ == join_path(d@, f@),
{
    if d.unicode_len() == 0 {
        f.to_owned()
    } else {
        let mut r = d.to_owned();
        r.append("/");
        r.append(f);
        proof {
            reveal_strlit("/");
            assert(r@ =~= d@ + seq!['/'] + f@);
        }
        r
    }
}

/// Index of the last `.` in a name, or `-1` when it has none.
pub open spec fn last_dot_idx(s: Seq<char>) -> int
    decreases s.len(),
{
    if s.len() == 0 {
        -1
    } else if s.last() == '.' {
        s.len() - 1
    } else {
        last_dot_idx(s.drop_last())
    }
}

/// The extension of a file name: what follows the last `.`, empty when there
/// is none or the name begins with its only `.`.
pub open spec fn extension_of(name: Seq<char>) -> Seq<char> {
    if last_dot_idx(name) <= 0 {
        Seq::empty()
    } else {
        name.subrange(last_dot_idx(name) + 1, name.len() as int)
    }
}

pub proof fn lemma_last_dot_idx_bounds(s: Seq<char>)
    ensures
        -1 <= last_dot_idx(s) < s.len(),
    decreases s.len(),
{
    if s.len() > 0 && s.last() != '.' {
        lemma_last_dot_idx_bounds(s.drop_last());
    }
}

/// Computes [`extension_of`] a file name.
pub fn name_extension(name: &str) -> (r: String)
    ensures
        r@ == extension_of(name@),
{
    let n = name.unicode_len();
    let mut best: Option<usize> = None;
    let mut i: usize = 0;
    while i < n
        invariant
            n == name@.len(),
            i <= n,
            match best {
                Some(b) => last_dot_idx(name@.subrange(0, i as int)) == b,
                None => last_dot_idx(name@.subrange(0, i as int)) == -1,
            },
        decreases n - i,
    {
        let c = name.get_char(i);
        proof {
            let pre = name@.subrange(0, i as int);
            let post = name@.subrange(0, i + 1 as int);
            assert(post.drop_last() =~= pre);
            assert(post.last() == name@[i as int]);
        }
        if c == '.' {
            best = Some(i);
        }
        i = i + 1;
    }
    proof {
        assert(name@.subrange(0, name@.len() as int) =~= name@);
    }
    match best {
        Some(b) => {
            if b == 0 {
                String::new()
            } else {
                proof {
                    lemma_last_dot_idx_bounds(name@);
                }
                name.substring_char(b + 1, n).to_owned()
            }
        },
        None => String::new(),
    }
}

/// True when a path string names a glob pattern rather than a literal path:
/// it contains `*`, `?`, or a bracketed character set.
pub open spec fn is_glob_spec(p: Seq<char>) -> bool {
    exists|i: int| 0 <= i < p.len() && (p[i] == '*' || p[i] == '?' || p[i] == '[')
}

/// Whether the given path contains a glob metacharacter.
pub fn is_glob_path(p: &str) -> (r: bool)
    ensures
        r == is_glob_spec(p@),
{
    let n = p.unicode_len();
    let mut i: usize = 0;
    while i < n
        invariant
            n == p@.len(),
            i <= n,
            forall|j: int| 0 <= j < i ==> !(p@[j] == '*' || p@[j] == '?' || p@[j] == '['),
        decreases n - i,
    {
        let c = p.get_char(i);
        if c == '*' || c == '?' || c == '[' {
            return true;
        }
        i = i + 1;
    }
    false
}

} // verus!
