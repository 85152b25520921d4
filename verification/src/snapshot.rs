//! Relative-path logic for directory snapshots.
//!
//! A snapshot names every file by its path relative to the tree's root,
//! POSIX style: forward slashes, no leading slash.  This module holds the
//! path arithmetic the transfer uses: taking a path's last segment, stripping
//! a directory prefix, joining a directory to a relative path, and the
//! ancestor directories a path needs created.

use vstd::prelude::*;
use vstd::string::StrSliceExecFns;
use vstd::string::StringExecFns;

verus! {

/// Index of the last `/` in `p`, or `-1` when there is none.
pub open spec fn last_slash(p: Seq<char>) -> int
    decreases p.len(),
{
    if p.len() == 0 {
        -1
    } else if p[p.len() - 1] == '/' {
        p.len() - 1
    } else {
        last_slash(p.drop_last())
    }
}

/// The segment of `p` after its last `/`; all of `p` when it has none.
pub open spec fn leaf_spec(p: Seq<char>) -> Seq<char> {
    p.subrange(last_slash(p) + 1, p.len() as int)
}

/// `last_slash` is the greatest index of a `/`, or `-1` when there is none.
pub proof fn lemma_last_slash(p: Seq<char>)
    ensures
        -1 <= last_slash(p) < p.len(),
        last_slash(p) >= 0 ==> p[last_slash(p)] == '/',
        forall|j: int| last_slash(p) < j < p.len() ==> p[j] != '/',
    decreases p.len(),
{
    if p.len() == 0 {
    } else if p[p.len() - 1] == '/' {
    } else {
        lemma_last_slash(p.drop_last());
        assert(forall|j: int| 0 <= j < p.len() - 1 ==> p[j] == p.drop_last()[j]);
    }
}

/// A `/` with nothing after it is the last one.
pub proof fn lemma_last_slash_at(p: Seq<char>, k: int)
    requires
        0 <= k < p.len(),
        p[k] == '/',
        forall|j: int| k < j < p.len() ==> p[j] != '/',
    ensures
        last_slash(p) == k,
    decreases p.len(),
{
    if k == p.len() - 1 {
    } else {
        assert(p[p.len() - 1] != '/');
        assert(forall|j: int| 0 <= j < p.len() - 1 ==> p.drop_last()[j] == p[j]);
        lemma_last_slash_at(p.drop_last(), k);
    }
}

/// The last path segment: everything after the final `/`, or the whole path
/// when it has none.
pub fn leaf_of(p: &str) -> (r: String)
    ensures
        r@ == leaf_spec(p@),
{
    proof {
        lemma_last_slash(p@);
    }
    let n = p.unicode_len();
    let mut i: usize = n;
    while i > 0
        invariant
            i <= n,
            n == p@.len(),
            forall|j: int| i <= j < n ==> p@[j] != '/',
        decreases i,
    {
        if p.get_char(i - 1) == '/' {
            proof {
                assert(p@[i - 1] == '/');
                lemma_last_slash_at(p@, i - 1);
            }
            let r = p.substring_char(i, n);
            return String::from_str(r);
        }
        i = i - 1;
    }
    proof {
        assert(last_slash(p@) == -1);
        assert(p@.subrange(0, p@.len() as int) =~= p@);
    }
    String::from_str(p.substring_char(0, n))
}

/// Whether `pre` is a prefix of `p`.
pub open spec fn has_prefix(p: Seq<char>, pre: Seq<char>) -> bool {
    pre.len() <= p.len() && p.subrange(0, pre.len() as int) == pre
}

/// The path with a directory prefix taken off, when it carries that prefix.
pub fn strip_prefix(p: &str, pre: &str) -> (r: Option<String>)
    ensures
        r matches Some(rest) ==> p@ == pre@ + rest@,
        r is None ==> !has_prefix(p@, pre@),
{
    let n = p.unicode_len();
    let m = pre.unicode_len();
    if m > n {
        return None;
    }
    let mut i: usize = 0;
    while i < m
        invariant
            0 <= i <= m <= n,
            n == p@.len(),
            m == pre@.len(),
            forall|j: int| 0 <= j < i ==> p@[j] == pre@[j],
        decreases m - i,
    {
        if p.get_char(i) != pre.get_char(i) {
            proof {
                assert(p@.subrange(0, pre@.len() as int)[i as int] != pre@[i as int]);
            }
            return None;
        }
        i = i + 1;
    }
    let rest = String::from_str(p.substring_char(m, n));
    proof {
        assert(p@ =~= pre@ + rest@);
    }
    Some(rest)
}

/// `dir` and `rel` joined with a single `/`.
pub fn join_path(dir: &str, rel: &str) -> (r: String)
    ensures
        r@ == dir@ + seq!['/'] + rel@,
{
    proof {
        reveal_strlit("/");
    }
    let mut r = String::from_str(dir);
    r.append("/");
    r.append(rel);
    proof {
        assert(r@ =~= dir@ + seq!['/'] + rel@);
    }
    r
}

/// The directory list after recording every ancestor of `p` from position
/// `i` on, in order, skipping those already present.
pub open spec fn record_ancestors_from(dirs: Seq<Seq<char>>, p: Seq<char>, i: int) -> Seq<
    Seq<char>,
>
    decreases p.len() - i,
{
    if i < 0 || i >= p.len() {
        dirs
    } else {
        let dirs2 = if p[i] == '/' && !dirs.contains(p.subrange(0, i)) {
            dirs.push(p.subrange(0, i))
        } else {
            dirs
        };
        record_ancestors_from(dirs2, p, i + 1)
    }
}

/// The directory list after creating every missing ancestor of `p`.
pub open spec fn record_ancestors(dirs: Seq<Seq<char>>, p: Seq<char>) -> Seq<Seq<char>> {
    record_ancestors_from(dirs, p, 0)
}

/// Recording ancestors never removes a directory.
pub proof fn lemma_record_keeps(dirs: Seq<Seq<char>>, p: Seq<char>, i: int, q: Seq<char>)
    requires
        dirs.contains(q),
    ensures
        record_ancestors_from(dirs, p, i).contains(q),
    decreases p.len() - i,
{
    if i < 0 || i >= p.len() {
    } else {
        let dirs2 = if p[i] == '/' && !dirs.contains(p.subrange(0, i)) {
            dirs.push(p.subrange(0, i))
        } else {
            dirs
        };
        assert(dirs2.contains(q)) by {
            if dirs2 != dirs {
                assert(dirs2 == dirs.push(p.subrange(0, i)));
                let k = choose|k: int| 0 <= k < dirs.len() && dirs[k] == q;
                assert(dirs2[k] == q);
            }
        }
        lemma_record_keeps(dirs2, p, i + 1, q);
    }
}

/// After recording, every ancestor of `p` is present.
pub proof fn lemma_record_complete(dirs: Seq<Seq<char>>, p: Seq<char>, i: int, j: int)
    requires
        0 <= i <= j < p.len(),
        p[j] == '/',
    ensures
        record_ancestors_from(dirs, p, i).contains(p.subrange(0, j)),
    decreases p.len() - i,
{
    let dirs2 = if p[i] == '/' && !dirs.contains(p.subrange(0, i)) {
        dirs.push(p.subrange(0, i))
    } else {
        dirs
    };
    if i == j {
        assert(dirs2.contains(p.subrange(0, j))) by {
            if !dirs.contains(p.subrange(0, i)) {
                assert(dirs2[dirs.len() as int] == p.subrange(0, i));
            }
        }
        lemma_record_keeps(dirs2, p, i + 1, p.subrange(0, j));
    } else {
        lemma_record_complete(dirs2, p, i + 1, j);
    }
}

/// Recording adds nothing when every ancestor of `p` is already present.
pub proof fn lemma_record_noop(dirs: Seq<Seq<char>>, p: Seq<char>, i: int)
    requires
        forall|j: int| i <= j < p.len() && p[j] == '/' ==> dirs.contains(p.subrange(0, j)),
    ensures
        record_ancestors_from(dirs, p, i) == dirs,
    decreases p.len() - i,
{
    if i < 0 || i >= p.len() {
    } else {
        lemma_record_noop(dirs, p, i + 1);
    }
}

/// Creating a path's ancestor directories is idempotent: recording them a
/// second time returns the directory list unchanged.
pub proof fn lemma_ensure_parents_idempotent(dirs: Seq<Seq<char>>, p: Seq<char>)
    ensures
        record_ancestors(record_ancestors(dirs, p), p) == record_ancestors(dirs, p),
{
    let once = record_ancestors(dirs, p);
    assert forall|j: int| 0 <= j < p.len() && p[j] == '/' implies once.contains(
        p.subrange(0, j),
    ) by {
        lemma_record_complete(dirs, p, 0, j);
    }
    lemma_record_noop(once, p, 0);
}



} // verus!
