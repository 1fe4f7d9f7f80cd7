//! Aggregations over the commit sequence: ownership, coupling, revision
//! counts, line totals, timestamps and the summary. Each function is one
//! pass over the commits (or over a previously computed map), and its
//! contract pins every entry of the result down.

use vstd::prelude::*;
use crate::repo::{CommitInfo, wf_commit, wf_commits};
use crate::strmap::{StrMap, lemma_assoc_view_len};

verus! {

/// Whether commit `c` touches path `p`.
pub open spec fn commit_touches(c: CommitInfo, p: Seq<char>) -> bool {
    exists|i: int| 0 <= i < c.file_changes@.len() && c.file_changes@[i].path@ == p
}

/// The change entry of path `p` within commit `c`; under `wf_commit`
/// there is at most one.
pub open spec fn commit_entry(c: CommitInfo, p: Seq<char>) -> crate::repo::FileChange {
    c.file_changes@[choose|i: int| 0 <= i < c.file_changes@.len() && c.file_changes@[i].path@ == p]
}

/// The number of commits of `cs` touching path `p`. A path touched twice
/// within one commit still counts once, since a well-formed commit holds
/// one entry per path.
pub open spec fn touch_count(cs: Seq<CommitInfo>, p: Seq<char>) -> nat
    decreases cs.len(),
{
    if cs.len() == 0 {
        0
    } else {
        touch_count(cs.drop_last(), p) + if commit_touches(cs.last(), p) {
            1nat
        } else {
            0nat
        }
    }
}

/// The number of commits of `cs` by author `a` touching path `p`.
pub open spec fn edit_count(cs: Seq<CommitInfo>, p: Seq<char>, a: Seq<char>) -> nat
    decreases cs.len(),
{
    if cs.len() == 0 {
        0
    } else {
        edit_count(cs.drop_last(), p, a) + if cs.last().author_name@ == a && commit_touches(
            cs.last(),
            p,
        ) {
            1nat
        } else {
            0nat
        }
    }
}

/// Whether any commit of `cs` has author `a`.
pub open spec fn has_author(cs: Seq<CommitInfo>, a: Seq<char>) -> bool {
    exists|i: int| 0 <= i < cs.len() && cs[i].author_name@ == a
}

/// The cumulative insertions recorded for path `p` across `cs`.
pub open spec fn ins_total(cs: Seq<CommitInfo>, p: Seq<char>) -> nat
    decreases cs.len(),
{
    if cs.len() == 0 {
        0
    } else {
        ins_total(cs.drop_last(), p) + if commit_touches(cs.last(), p) {
            commit_entry(cs.last(), p).insertions as nat
        } else {
            0nat
        }
    }
}

/// The cumulative deletions recorded for path `p` across `cs`.
pub open spec fn del_total(cs: Seq<CommitInfo>, p: Seq<char>) -> nat
    decreases cs.len(),
{
    if cs.len() == 0 {
        0
    } else {
        del_total(cs.drop_last(), p) + if commit_touches(cs.last(), p) {
            commit_entry(cs.last(), p).deletions as nat
        } else {
            0nat
        }
    }
}

/// The timestamp of the first commit of `cs` touching `p`; with the
/// newest-first traversal order this is the most recent touch.
pub open spec fn first_touch_ts(cs: Seq<CommitInfo>, p: Seq<char>) -> i64
    decreases cs.len(),
{
    if cs.len() == 0 {
        0
    } else if touch_count(cs.drop_last(), p) > 0 {
        first_touch_ts(cs.drop_last(), p)
    } else if commit_touches(cs.last(), p) {
        cs.last().timestamp
    } else {
        0
    }
}

/// The timestamp of the first commit of `cs` by author `a`; with the
/// newest-first traversal order this is the author's most recent commit.
pub open spec fn first_author_ts(cs: Seq<CommitInfo>, a: Seq<char>) -> i64
    decreases cs.len(),
{
    if cs.len() == 0 {
        0
    } else if has_author(cs.drop_last(), a) {
        first_author_ts(cs.drop_last(), a)
    } else if cs.last().author_name@ == a {
        cs.last().timestamp
    } else {
        0
    }
}

/// A commit touches `p` exactly when some prefix entry does; helper
/// connecting entry scans to `commit_touches`.
pub open spec fn touches_prefix(c: CommitInfo, j: int, p: Seq<char>) -> bool {
    exists|k: int| 0 <= k < j && c.file_changes@[k].path@ == p
}

/// A path's touch count never exceeds the number of commits.
pub proof fn lemma_touch_count_le(cs: Seq<CommitInfo>, p: Seq<char>)
    ensures
        touch_count(cs, p) <= cs.len(),
    decreases cs.len(),
{
    if cs.len() > 0 {
        lemma_touch_count_le(cs.drop_last(), p);
    }
}

/// An author's edit count on a path never exceeds its touch count.
pub proof fn lemma_edit_count_le(cs: Seq<CommitInfo>, p: Seq<char>, a: Seq<char>)
    ensures
        edit_count(cs, p, a) <= touch_count(cs, p),
    decreases cs.len(),
{
    if cs.len() > 0 {
        lemma_edit_count_le(cs.drop_last(), p, a);
    }
}

/// Under `wf_commit`, the entry at index `k` is the entry of its path.
pub proof fn lemma_commit_entry(c: CommitInfo, k: int)
    requires
        wf_commit(c),
        0 <= k < c.file_changes@.len(),
    ensures
        commit_entry(c, c.file_changes@[k].path@) == c.file_changes@[k],
{
    let p = c.file_changes@[k].path@;
    assert(commit_touches(c, p));
    let i = choose|i: int| 0 <= i < c.file_changes@.len() && c.file_changes@[i].path@ == p;
    assert(i == k);
}

/// Prefix totals never exceed the whole sequence's totals.
pub proof fn lemma_totals_prefix(cs: Seq<CommitInfo>, i: int, p: Seq<char>)
    requires
        0 <= i <= cs.len(),
    ensures
        ins_total(cs.take(i), p) <= ins_total(cs, p),
        del_total(cs.take(i), p) <= del_total(cs, p),
    decreases cs.len(),
{
    if i < cs.len() {
        assert(cs.take(i) =~= cs.drop_last().take(i));
        lemma_totals_prefix(cs.drop_last(), i, p);
    } else {
        assert(cs.take(i) =~= cs);
    }
}

/// A file no commit touches has no recorded lines.
pub proof fn lemma_totals_zero(cs: Seq<CommitInfo>, p: Seq<char>)
    requires
        touch_count(cs, p) == 0,
    ensures
        ins_total(cs, p) == 0,
        del_total(cs, p) == 0,
    decreases cs.len(),
{
    if cs.len() > 0 {
        lemma_totals_zero(cs.drop_last(), p);
    }
}

/// How many commits touch each file: path to revision count.
pub fn get_revision_counts(commits: &[CommitInfo]) -> (r: StrMap<usize>)
    requires
        wf_commits(commits@),
    ensures
        r.wf(),
        forall|p: Seq<char>| #[trigger] r@.contains_key(p) <==> touch_count(commits@, p) > 0,
        forall|p: Seq<char>| #[trigger]
            r@.contains_key(p) ==> r@[p] == touch_count(commits@, p),
{
    let n = commits.len();
    let mut r: StrMap<usize> = StrMap::new();
    let mut i: usize = 0;
    proof {
        assert(commits@.take(0) =~= Seq::<CommitInfo>::empty());
    }
    while i < n
        invariant
            n == commits@.len(),
            wf_commits(commits@),
            i <= n,
            r.wf(),
            forall|p: Seq<char>| #[trigger]
                r@.contains_key(p) <==> touch_count(commits@.take(i as int), p) > 0,
            forall|p: Seq<char>| #[trigger]
                r@.contains_key(p) ==> r@[p] == touch_count(commits@.take(i as int), p),
        decreases n - i,
    {
        let ghost pre = commits@.take(i as int);
        let c = &commits[i];
        proof {
            assert(commits@.take(i + 1).drop_last() =~= pre);
            assert(commits@.take(i + 1).last() == commits@[i as int]);
        }
        let m = c.file_changes.len();
        let mut j: usize = 0;
        while j < m
            invariant
                n == commits@.len(),
                wf_commits(commits@),
                i < n,
                pre == commits@.take(i as int),
                *c == commits@[i as int],
                m == c.file_changes@.len(),
                j <= m,
                r.wf(),
                forall|p: Seq<char>| #[trigger]
                    r@.contains_key(p) <==> touch_count(pre, p) > 0 || touches_prefix(
                        *c,
                        j as int,
                        p,
                    ),
                forall|p: Seq<char>| #[trigger]
                    r@.contains_key(p) ==> r@[p] == touch_count(pre, p) + if touches_prefix(
                        *c,
                        j as int,
                        p,
                    ) {
                        1int
                    } else {
                        0int
                    },
            decreases m - j,
        {
            let ghost pj = c.file_changes@[j as int].path@;
            proof {
                assert(pre == commits@.take(i as int));
                assert(pre.len() == i as int);
                assert(wf_commit(commits@[i as int]));
                assert(!touches_prefix(*c, j as int, pj));
                lemma_touch_count_le(pre, pj);
            }
            r.bump(c.file_changes[j].path.as_str());
            proof {
                assert(forall|p: Seq<char>|
                    p != pj ==> (touches_prefix(*c, j + 1, p) <==> touches_prefix(*c, j as int, p)));
                assert(touches_prefix(*c, j + 1, pj));
            }
            j = j + 1;
        }
        proof {
            assert(forall|p: Seq<char>|
                touches_prefix(*c, m as int, p) <==> commit_touches(commits@[i as int], p));
        }
        i = i + 1;
    }
    proof {
        assert(commits@.take(n as int) =~= commits@);
    }
    r
}

/// When each author last committed: author to the timestamp of their most
/// recent commit. The traversal is newest first, so the first commit seen
/// for an author already carries it.
pub fn get_user_last_active(commits: &[CommitInfo]) -> (r: StrMap<i64>)
    ensures
        r.wf(),
        forall|a: Seq<char>| #[trigger] r@.contains_key(a) <==> has_author(commits@, a),
        forall|a: Seq<char>| #[trigger]
            r@.contains_key(a) ==> r@[a] == first_author_ts(commits@, a),
{
    let n = commits.len();
    let mut r: StrMap<i64> = StrMap::new();
    let mut i: usize = 0;
    proof {
        assert(commits@.take(0) =~= Seq::<CommitInfo>::empty());
    }
    while i < n
        invariant
            n == commits@.len(),
            i <= n,
            r.wf(),
            forall|a: Seq<char>| #[trigger]
                r@.contains_key(a) <==> has_author(commits@.take(i as int), a),
            forall|a: Seq<char>| #[trigger]
                r@.contains_key(a) ==> r@[a] == first_author_ts(commits@.take(i as int), a),
        decreases n - i,
    {
        let ghost pre = commits@.take(i as int);
        let c = &commits[i];
        proof {
            assert(commits@.take(i + 1).drop_last() =~= pre);
            assert(commits@.take(i + 1).last() == commits@[i as int]);
            if has_author(pre, c.author_name@) {
            } else {
                assert(commits@.take(i + 1)[i as int] == commits@[i as int]);
            }
        }
        match r.get(c.author_name.as_str()) {
            Some(_) => {
                proof {
                    assert(has_author(commits@.take(i + 1), c.author_name@));
                    assert(forall|a: Seq<char>|
                        a != c.author_name@ ==> (has_author(commits@.take(i + 1), a) <==> has_author(
                            pre,
                            a,
                        )));
                }
            },
            None => {
                r.insert(c.author_name.as_str(), c.timestamp);
                proof {
                    assert(has_author(commits@.take(i + 1), c.author_name@)) by {
                        assert(commits@.take(i + 1)[i as int].author_name@ == c.author_name@);
                    }
                    assert(forall|a: Seq<char>|
                        a != c.author_name@ ==> (has_author(commits@.take(i + 1), a) <==> has_author(
                            pre,
                            a,
                        )));
                }
            },
        }
        i = i + 1;
    }
    proof {
        assert(commits@.take(n as int) =~= commits@);
    }
    r
}

/// When each file was last touched: path to the timestamp of the most
/// recent commit touching it.
pub fn get_files_last_modified(commits: &[CommitInfo]) -> (r: StrMap<i64>)
    ensures
        r.wf(),
        forall|p: Seq<char>| #[trigger] r@.contains_key(p) <==> touch_count(commits@, p) > 0,
        forall|p: Seq<char>| #[trigger]
            r@.contains_key(p) ==> r@[p] == first_touch_ts(commits@, p),
{
    let n = commits.len();
    let mut r: StrMap<i64> = StrMap::new();
    let mut i: usize = 0;
    proof {
        assert(commits@.take(0) =~= Seq::<CommitInfo>::empty());
    }
    while i < n
        invariant
            n == commits@.len(),
            i <= n,
            r.wf(),
            forall|p: Seq<char>| #[trigger]
                r@.contains_key(p) <==> touch_count(commits@.take(i as int), p) > 0,
            forall|p: Seq<char>| #[trigger]
                r@.contains_key(p) ==> r@[p] == first_touch_ts(commits@.take(i as int), p),
        decreases n - i,
    {
        let ghost pre = commits@.take(i as int);
        let c = &commits[i];
        proof {
            assert(commits@.take(i + 1).drop_last() =~= pre);
            assert(commits@.take(i + 1).last() == commits@[i as int]);
        }
        let m = c.file_changes.len();
        let mut j: usize = 0;
        while j < m
            invariant
                n == commits@.len(),
                i < n,
                pre == commits@.take(i as int),
                *c == commits@[i as int],
                m == c.file_changes@.len(),
                j <= m,
                r.wf(),
                forall|p: Seq<char>| #[trigger]
                    r@.contains_key(p) <==> touch_count(pre, p) > 0 || touches_prefix(
                        *c,
                        j as int,
                        p,
                    ),
                forall|p: Seq<char>| #[trigger]
                    r@.contains_key(p) ==> r@[p] == if touch_count(pre, p) > 0 {
                        first_touch_ts(pre, p)
                    } else {
                        c.timestamp
                    },
            decreases m - j,
        {
            let ghost pj = c.file_changes@[j as int].path@;
            match r.get(c.file_changes[j].path.as_str()) {
                Some(_) => {},
                None => {
                    r.insert(c.file_changes[j].path.as_str(), c.timestamp);
                },
            }
            proof {
                assert(touches_prefix(*c, j + 1, pj));
                assert(forall|p: Seq<char>|
                    p != pj ==> (touches_prefix(*c, j + 1, p) <==> touches_prefix(*c, j as int, p)));
            }
            j = j + 1;
        }
        proof {
            assert(forall|p: Seq<char>|
                touches_prefix(*c, m as int, p) <==> commit_touches(commits@[i as int], p));
        }
        i = i + 1;
    }
    proof {
        assert(commits@.take(n as int) =~= commits@);
    }
    r
}

/// Cumulative line changes per file: path to total insertions and total
/// deletions across history, summed independently and never netted.
pub fn get_line_changes(commits: &[CommitInfo]) -> (r: StrMap<(usize, usize)>)
    requires
        wf_commits(commits@),
        forall|p: Seq<char>|
            ins_total(commits@, p) <= usize::MAX && del_total(commits@, p) <= usize::MAX,
    ensures
        r.wf(),
        forall|p: Seq<char>| #[trigger] r@.contains_key(p) <==> touch_count(commits@, p) > 0,
        forall|p: Seq<char>| #[trigger]
            r@.contains_key(p) ==> r@[p].0 == ins_total(commits@, p) && r@[p].1 == del_total(
                commits@,
                p,
            ),
{
    let n = commits.len();
    let mut r: StrMap<(usize, usize)> = StrMap::new();
    let mut i: usize = 0;
    proof {
        assert(commits@.take(0) =~= Seq::<CommitInfo>::empty());
    }
    while i < n
        invariant
            n == commits@.len(),
            wf_commits(commits@),
            forall|p: Seq<char>|
                ins_total(commits@, p) <= usize::MAX && del_total(commits@, p) <= usize::MAX,
            i <= n,
            r.wf(),
            forall|p: Seq<char>| #[trigger]
                r@.contains_key(p) <==> touch_count(commits@.take(i as int), p) > 0,
            forall|p: Seq<char>| #[trigger]
                r@.contains_key(p) ==> r@[p].0 == ins_total(commits@.take(i as int), p)
                    && r@[p].1 == del_total(commits@.take(i as int), p),
        decreases n - i,
    {
        let ghost pre = commits@.take(i as int);
        let c = &commits[i];
        proof {
            assert(commits@.take(i + 1).drop_last() =~= pre);
            assert(commits@.take(i + 1).last() == commits@[i as int]);
        }
        let m = c.file_changes.len();
        let mut j: usize = 0;
        while j < m
            invariant
                n == commits@.len(),
                wf_commits(commits@),
                forall|p: Seq<char>|
                    ins_total(commits@, p) <= usize::MAX && del_total(commits@, p) <= usize::MAX,
                i < n,
                pre == commits@.take(i as int),
                *c == commits@[i as int],
                m == c.file_changes@.len(),
                j <= m,
                r.wf(),
                forall|p: Seq<char>| #[trigger]
                    r@.contains_key(p) <==> touch_count(pre, p) > 0 || touches_prefix(
                        *c,
                        j as int,
                        p,
                    ),
                forall|p: Seq<char>| #[trigger]
                    r@.contains_key(p) ==> r@[p].0 == ins_total(pre, p) + if touches_prefix(
                        *c,
                        j as int,
                        p,
                    ) {
                        commit_entry(*c, p).insertions as int
                    } else {
                        0int
                    } && r@[p].1 == del_total(pre, p) + if touches_prefix(*c, j as int, p) {
                        commit_entry(*c, p).deletions as int
                    } else {
                        0int
                    },
            decreases m - j,
        {
            let ghost pj = c.file_changes@[j as int].path@;
            proof {
                assert(pre == commits@.take(i as int));
                assert(commits@.take(i + 1).drop_last() =~= pre);
                assert(commits@.take(i + 1).last() == commits@[i as int]);
                assert(wf_commit(commits@[i as int]));
                assert(!touches_prefix(*c, j as int, pj));
                lemma_commit_entry(commits@[i as int], j as int);
                lemma_totals_prefix(commits@, i + 1, pj);
                assert(ins_total(commits@.take(i + 1), pj) == ins_total(pre, pj) + commit_entry(
                    *c,
                    pj,
                ).insertions);
                assert(del_total(commits@.take(i + 1), pj) == del_total(pre, pj) + commit_entry(
                    *c,
                    pj,
                ).deletions);
            }
            proof {
                if touch_count(pre, pj) == 0 {
                    lemma_totals_zero(pre, pj);
                }
            }
            let fc = &c.file_changes[j];
            let cur: (usize, usize) = match r.get(fc.path.as_str()) {
                Some(v) => *v,
                None => (0, 0),
            };
            r.insert(fc.path.as_str(), (cur.0 + fc.insertions, cur.1 + fc.deletions));
            proof {
                assert(touches_prefix(*c, j + 1, pj));
                assert(forall|p: Seq<char>|
                    p != pj ==> (touches_prefix(*c, j + 1, p) <==> touches_prefix(*c, j as int, p)));
            }
            j = j + 1;
        }
        proof {
            assert(forall|p: Seq<char>|
                touches_prefix(*c, m as int, p) <==> commit_touches(commits@[i as int], p));
        }
        i = i + 1;
    }
    proof {
        assert(commits@.take(n as int) =~= commits@);
    }
    r
}

/// Ownership: path to a table of per-author edit counts, where an edit is
/// one commit by that author touching that file.
pub fn get_owners(commits: &[CommitInfo]) -> (r: StrMap<StrMap<usize>>)
    requires
        wf_commits(commits@),
    ensures
        crate::strmap::nested_wf(&r),
        forall|p: Seq<char>| #[trigger] r@.contains_key(p) <==> touch_count(commits@, p) > 0,
        forall|p: Seq<char>, a: Seq<char>|
            r@.contains_key(p) ==> ((#[trigger] r@[p]@.contains_key(a)) <==> edit_count(
                commits@,
                p,
                a,
            ) > 0),
        forall|p: Seq<char>, a: Seq<char>|
            r@.contains_key(p) && r@[p]@.contains_key(a) ==> (#[trigger] r@[p]@[a]) == edit_count(
                commits@,
                p,
                a,
            ),
{
    let n = commits.len();
    let mut r: StrMap<StrMap<usize>> = StrMap::new();
    let mut i: usize = 0;
    proof {
        assert(commits@.take(0) =~= Seq::<CommitInfo>::empty());
    }
    while i < n
        invariant
            n == commits@.len(),
            wf_commits(commits@),
            i <= n,
            crate::strmap::nested_wf(&r),
            forall|p: Seq<char>| #[trigger]
                r@.contains_key(p) <==> touch_count(commits@.take(i as int), p) > 0,
            forall|p: Seq<char>, a: Seq<char>|
                r@.contains_key(p) ==> ((#[trigger] r@[p]@.contains_key(a)) <==> edit_count(
                    commits@.take(i as int),
                    p,
                    a,
                ) > 0),
            forall|p: Seq<char>, a: Seq<char>|
                r@.contains_key(p) && r@[p]@.contains_key(a) ==> (#[trigger] r@[p]@[a])
                    == edit_count(commits@.take(i as int), p, a),
        decreases n - i,
    {
        let ghost pre = commits@.take(i as int);
        let c = &commits[i];
        let ghost au = c.author_name@;
        proof {
            assert(commits@.take(i + 1).drop_last() =~= pre);
            assert(commits@.take(i + 1).last() == commits@[i as int]);
        }
        let m = c.file_changes.len();
        let mut j: usize = 0;
        while j < m
            invariant
                n == commits@.len(),
                wf_commits(commits@),
                i < n,
                pre == commits@.take(i as int),
                *c == commits@[i as int],
                au == c.author_name@,
                m == c.file_changes@.len(),
                j <= m,
                crate::strmap::nested_wf(&r),
                forall|p: Seq<char>| #[trigger]
                    r@.contains_key(p) <==> touch_count(pre, p) > 0 || touches_prefix(
                        *c,
                        j as int,
                        p,
                    ),
                forall|p: Seq<char>, a: Seq<char>|
                    r@.contains_key(p) ==> ((#[trigger] r@[p]@.contains_key(a)) <==> edit_count(
                        pre,
                        p,
                        a,
                    ) > 0 || (a == au && touches_prefix(*c, j as int, p))),
                forall|p: Seq<char>, a: Seq<char>|
                    r@.contains_key(p) && r@[p]@.contains_key(a) ==> (#[trigger] r@[p]@[a])
                        == edit_count(pre, p, a) + if a == au && touches_prefix(*c, j as int, p) {
                        1int
                    } else {
                        0int
                    },
            decreases m - j,
        {
            let ghost pj = c.file_changes@[j as int].path@;
            proof {
                assert(pre == commits@.take(i as int));
                assert(pre.len() == i as int);
                assert(wf_commit(commits@[i as int]));
                assert(!touches_prefix(*c, j as int, pj));
                lemma_edit_count_le(pre, pj, au);
                lemma_touch_count_le(pre, pj);
            }
            proof {
                if touch_count(pre, pj) == 0 {
                    assert forall|a: Seq<char>| edit_count(pre, pj, a) == 0 by {
                        lemma_edit_count_le(pre, pj, a);
                    }
                }
            }
            r.bump_nested(c.file_changes[j].path.as_str(), c.author_name.as_str());
            proof {
                assert(touches_prefix(*c, j + 1, pj));
                assert(forall|p: Seq<char>|
                    p != pj ==> (touches_prefix(*c, j + 1, p) <==> touches_prefix(*c, j as int, p)));
            }
            j = j + 1;
        }
        proof {
            assert(forall|p: Seq<char>|
                touches_prefix(*c, m as int, p) <==> commit_touches(commits@[i as int], p));
        }
        i = i + 1;
    }
    proof {
        assert(commits@.take(n as int) =~= commits@);
    }
    r
}

/// A newest-first commit sequence: timestamps never increase.
pub open spec fn newest_first(cs: Seq<CommitInfo>) -> bool {
    forall|k: int, l: int| 0 <= k < l < cs.len() ==> cs[k].timestamp >= cs[l].timestamp
}

/// The recorded first-touch timestamp is the timestamp of some commit
/// touching the file.
pub proof fn lemma_first_touch_witness(cs: Seq<CommitInfo>, p: Seq<char>)
    requires
        touch_count(cs, p) > 0,
    ensures
        exists|j: int|
            0 <= j < cs.len() && commit_touches(#[trigger] cs[j], p) && first_touch_ts(cs, p)
                == cs[j].timestamp,
    decreases cs.len(),
{
    if touch_count(cs.drop_last(), p) > 0 {
        lemma_first_touch_witness(cs.drop_last(), p);
        let j = choose|j: int|
            0 <= j < cs.drop_last().len() && commit_touches(#[trigger] cs.drop_last()[j], p)
                && first_touch_ts(cs.drop_last(), p) == cs.drop_last()[j].timestamp;
        assert(commit_touches(cs[j], p) && first_touch_ts(cs, p) == cs[j].timestamp);
    } else {
        assert(commit_touches(cs[cs.len() - 1], p));
    }
}

/// Over a newest-first sequence, the first commit touching a file
/// carries its most recent modification time: no commit touching the
/// file is newer.
pub proof fn lemma_first_touch_is_latest(cs: Seq<CommitInfo>, p: Seq<char>, i: int)
    requires
        newest_first(cs),
        0 <= i < cs.len(),
        commit_touches(cs[i], p),
    ensures
        cs[i].timestamp <= first_touch_ts(cs, p),
    decreases cs.len(),
{
    assert(touch_count(cs, p) > 0) by {
        lemma_touch_prefix_positive(cs, p, i);
    }
    if touch_count(cs.drop_last(), p) > 0 {
        if i < cs.len() - 1 {
            assert(newest_first(cs.drop_last()));
            assert(cs.drop_last()[i] == cs[i]);
            lemma_first_touch_is_latest(cs.drop_last(), p, i);
        } else {
            lemma_first_touch_witness(cs.drop_last(), p);
            let j = choose|j: int|
                0 <= j < cs.drop_last().len() && commit_touches(#[trigger] cs.drop_last()[j], p)
                    && first_touch_ts(cs.drop_last(), p) == cs.drop_last()[j].timestamp;
            assert(cs[j].timestamp >= cs[i].timestamp);
        }
    } else {
        // no earlier commit touches the file, so `i` is the last one
        if i < cs.len() - 1 {
            assert(cs.drop_last()[i] == cs[i]);
            lemma_touch_prefix_positive(cs.drop_last(), p, i);
        }
    }
}

proof fn lemma_touch_prefix_positive(cs: Seq<CommitInfo>, p: Seq<char>, i: int)
    requires
        0 <= i < cs.len(),
        commit_touches(cs[i], p),
    ensures
        touch_count(cs, p) > 0,
    decreases cs.len(),
{
    if i < cs.len() - 1 {
        assert(cs.drop_last()[i] == cs[i]);
        lemma_touch_prefix_positive(cs.drop_last(), p, i);
    }
}

/// Over a newest-first sequence, the first commit by an author carries
/// their most recent activity: no commit of theirs is newer.
pub proof fn lemma_first_author_is_latest(cs: Seq<CommitInfo>, a: Seq<char>, i: int)
    requires
        newest_first(cs),
        0 <= i < cs.len(),
        cs[i].author_name@ == a,
    ensures
        cs[i].timestamp <= first_author_ts(cs, a),
    decreases cs.len(),
{
    assert(has_author(cs, a));
    if has_author(cs.drop_last(), a) {
        if i < cs.len() - 1 {
            assert(newest_first(cs.drop_last()));
            assert(cs.drop_last()[i] == cs[i]);
            lemma_first_author_is_latest(cs.drop_last(), a, i);
        } else {
            lemma_first_author_witness(cs.drop_last(), a);
            let j = choose|j: int|
                0 <= j < cs.drop_last().len() && (#[trigger] cs.drop_last()[j]).author_name@ == a
                    && first_author_ts(cs.drop_last(), a) == cs.drop_last()[j].timestamp;
            assert(cs[j].timestamp >= cs[i].timestamp);
        }
    } else {
        // no earlier commit has this author, so `i` is the last one
        if i < cs.len() - 1 {
            assert(cs.drop_last()[i].author_name@ == a);
        }
    }
}

/// The recorded last-active timestamp is the timestamp of some commit by
/// the author.
pub proof fn lemma_first_author_witness(cs: Seq<CommitInfo>, a: Seq<char>)
    requires
        has_author(cs, a),
    ensures
        exists|j: int|
            0 <= j < cs.len() && (#[trigger] cs[j]).author_name@ == a && first_author_ts(cs, a)
                == cs[j].timestamp,
    decreases cs.len(),
{
    if has_author(cs.drop_last(), a) {
        lemma_first_author_witness(cs.drop_last(), a);
        let j = choose|j: int|
            0 <= j < cs.drop_last().len() && (#[trigger] cs.drop_last()[j]).author_name@ == a
                && first_author_ts(cs.drop_last(), a) == cs.drop_last()[j].timestamp;
        assert(cs[j].author_name@ == a && first_author_ts(cs, a) == cs[j].timestamp);
    } else {
        let j = choose|j: int| 0 <= j < cs.len() && cs[j].author_name@ == a;
        assert(j == cs.len() - 1) by {
            if j < cs.len() - 1 {
                assert(cs.drop_last()[j].author_name@ == a);
            }
        }
    }
}

/// Whether `a` is the primary owner under table `t`: it holds the
/// maximum edit count, and among authors sharing that maximum it is the
/// lexicographically smallest name.
pub open spec fn is_primary_of(t: StrMap<usize>, a: Seq<char>) -> bool {
    &&& t@.contains_key(a)
    &&& forall|b: Seq<char>| #[trigger] t@.contains_key(b) ==> t@[b] <= t@[a]
    &&& forall|b: Seq<char>| #[trigger] t@.contains_key(b) && t@[b] == t@[a] ==> crate::order::lex_leq(a, b)
}

/// Primary owner per file: the author with the maximum edit count, ties
/// resolved deterministically toward the lexicographically smallest name.
pub fn get_primary_owners(file_owners: &StrMap<StrMap<usize>>) -> (r: StrMap<String>)
    requires
        crate::strmap::nested_wf(file_owners),
        forall|p: Seq<char>| #[trigger]
            file_owners@.contains_key(p) ==> exists|a: Seq<char>|
                file_owners@[p]@.contains_key(a),
    ensures
        r.wf(),
        forall|p: Seq<char>| #[trigger]
            r@.contains_key(p) <==> file_owners@.contains_key(p),
        forall|p: Seq<char>| #[trigger]
            r@.contains_key(p) ==> is_primary_of(file_owners@[p], r@[p]@),
{
    let n = file_owners.len();
    let mut r: StrMap<String> = StrMap::new();
    let mut i: usize = 0;
    while i < n
        invariant
            crate::strmap::nested_wf(file_owners),
            forall|p: Seq<char>| #[trigger]
                file_owners@.contains_key(p) ==> exists|a: Seq<char>|
                    file_owners@[p]@.contains_key(a),
            n == file_owners.entries@.len(),
            i <= n,
            r.wf(),
            forall|p: Seq<char>| #[trigger]
                r@.contains_key(p) <==> crate::strmap::key_in_prefix(
                    file_owners.entries@,
                    i as int,
                    p,
                ),
            forall|p: Seq<char>| #[trigger]
                r@.contains_key(p) ==> file_owners@.contains_key(p) && is_primary_of(
                    file_owners@[p],
                    r@[p]@,
                ),
        decreases n - i,
    {
        proof {
            crate::strmap::lemma_assoc_view_at(file_owners.entries@, i as int);
        }
        let ghost pv = file_owners.entries@[i as int].0@;
        let t = &file_owners.entries[i].1;
        proof {
            assert(file_owners@[pv] == *t);
            assert(t.wf());
            assert(t.entries@.len() > 0) by {
                let a = choose|a: Seq<char>| file_owners@[pv]@.contains_key(a);
                crate::strmap::lemma_assoc_view_contains(t.entries@, a);
            }
        }
        let m = t.entries.len();
        let mut best: usize = 0;
        let mut k: usize = 1;
        while k < m
            invariant
                t.wf(),
                m == t.entries@.len(),
                0 < m,
                best < k,
                k <= m,
                forall|l: int|
                    0 <= l < k ==> (#[trigger] t.entries@[l]).1 <= t.entries@[best as int].1,
                forall|l: int|
                    0 <= l < k && (#[trigger] t.entries@[l]).1 == t.entries@[best as int].1
                        ==> crate::order::lex_leq(t.entries@[best as int].0@, t.entries@[l].0@),
            decreases m - k,
        {
            let cnt = t.entries[k].1;
            let bv = t.entries[best].1;
            if cnt > bv || (cnt == bv && crate::order::str_lt(
                t.entries[k].0.as_str(),
                t.entries[best].0.as_str(),
            )) {
                proof {
                    assert forall|l: int|
                        0 <= l < k + 1 && (#[trigger] t.entries@[l]).1 == t.entries@[k as int].1
                            implies crate::order::lex_leq(t.entries@[k as int].0@, t.entries@[l].0@) by {
                        if l < k && t.entries@[l].1 == t.entries@[k as int].1 {
                            crate::order::lemma_lex_leq_trans(
                                t.entries@[k as int].0@,
                                t.entries@[best as int].0@,
                                t.entries@[l].0@,
                            );
                        }
                    }
                }
                best = k;
            } else {
                proof {
                    if cnt == bv {
                        crate::order::lemma_lex_trichotomy(
                            t.entries@[best as int].0@,
                            t.entries@[k as int].0@,
                        );
                    }
                }
            }
            k = k + 1;
        }
        let owner = t.entries[best].0.clone();
        proof {
            assert(is_primary_of(*t, owner@)) by {
                crate::strmap::lemma_assoc_view_at(t.entries@, best as int);
                assert forall|b: Seq<char>| #[trigger] t@.contains_key(b) implies t@[b]
                    <= t@[owner@] by {
                    crate::strmap::lemma_assoc_view_contains(t.entries@, b);
                    let l = choose|l: int| 0 <= l < t.entries@.len() && t.entries@[l].0@ == b;
                    crate::strmap::lemma_assoc_view_at(t.entries@, l);
                }
                assert forall|b: Seq<char>| #[trigger] t@.contains_key(b) && t@[b] == t@[owner@]
                    implies crate::order::lex_leq(owner@, b) by {
                    crate::strmap::lemma_assoc_view_contains(t.entries@, b);
                    let l = choose|l: int| 0 <= l < t.entries@.len() && t.entries@[l].0@ == b;
                    crate::strmap::lemma_assoc_view_at(t.entries@, l);
                }
            }
        }
        r.insert(file_owners.entries[i].0.as_str(), owner);
        proof {
            assert(forall|p: Seq<char>|
                p != pv ==> (crate::strmap::key_in_prefix(file_owners.entries@, i + 1, p)
                    <==> crate::strmap::key_in_prefix(file_owners.entries@, i as int, p)));
            assert(crate::strmap::key_in_prefix(file_owners.entries@, i + 1, pv)) by {
                assert(file_owners.entries@[i as int].0@ == pv);
            }
        }
        i = i + 1;
    }
    proof {
        assert forall|p: Seq<char>| #[trigger]
            r@.contains_key(p) <==> file_owners@.contains_key(p) by {
            crate::strmap::lemma_assoc_view_contains(file_owners.entries@, p);
        }
    }
    r
}

/// Aggregate counts over the whole history.
pub struct SummaryStats {
    pub commits: usize,
    pub files: usize,
    pub file_changes: usize,
    pub authors: usize,
}

/// The total number of file-change events, commit list lengths summed
/// and not deduplicated.
pub open spec fn change_events_total(cs: Seq<CommitInfo>) -> nat
    decreases cs.len(),
{
    if cs.len() == 0 {
        0
    } else {
        change_events_total(cs.drop_last()) + cs.last().file_changes@.len()
    }
}

/// The set of distinct files the history touches.
pub open spec fn distinct_files(cs: Seq<CommitInfo>) -> Set<Seq<char>> {
    Set::new(|p: Seq<char>| touch_count(cs, p) > 0)
}

/// The set of distinct authors in the history.
pub open spec fn distinct_authors(cs: Seq<CommitInfo>) -> Set<Seq<char>> {
    Set::new(|a: Seq<char>| has_author(cs, a))
}

proof fn lemma_events_prefix(cs: Seq<CommitInfo>, i: int)
    requires
        0 <= i <= cs.len(),
    ensures
        change_events_total(cs.take(i)) <= change_events_total(cs),
    decreases cs.len(),
{
    if i < cs.len() {
        assert(cs.take(i) =~= cs.drop_last().take(i));
        lemma_events_prefix(cs.drop_last(), i);
    } else {
        assert(cs.take(i) =~= cs);
    }
}

/// Co-change coupling per canonical file pair; see
/// `crate::analysis::coupling`.
pub fn get_coupling(commits: &[CommitInfo]) -> (r: crate::analysis::coupling::PairMap)
    requires
        wf_commits(commits@),
    ensures
        r.wf(),
        forall|a: Seq<char>, b: Seq<char>| #[trigger]
            r@.contains_key((a, b)) <==> (crate::order::lex_lt(a, b)
                && crate::analysis::coupling::pair_count(commits@, a, b) > 0),
        forall|a: Seq<char>, b: Seq<char>| #[trigger]
            r@.contains_key((a, b)) ==> r@[(a, b)] == crate::analysis::coupling::pair_count(
                commits@,
                a,
                b,
            ),
{
    crate::analysis::coupling::get_coupling(commits)
}

/// Aggregate counts: commits, distinct files, total file-change events,
/// and distinct authors.
pub fn get_summary(commits: &[CommitInfo]) -> (r: SummaryStats)
    requires
        wf_commits(commits@),
        change_events_total(commits@) <= usize::MAX,
    ensures
        r.commits == commits@.len(),
        r.file_changes == change_events_total(commits@),
        distinct_files(commits@).finite(),
        r.files == distinct_files(commits@).len(),
        distinct_authors(commits@).finite(),
        r.authors == distinct_authors(commits@).len(),
{
    let owners = get_owners(commits);
    let files = owners.len();
    proof {
        lemma_assoc_view_len(owners.entries@);
        assert(owners@.dom() =~= distinct_files(commits@));
    }
    let users = get_user_last_active(commits);
    let authors = users.len();
    proof {
        lemma_assoc_view_len(users.entries@);
        assert(users@.dom() =~= distinct_authors(commits@));
    }
    let n = commits.len();
    let mut file_changes: usize = 0;
    let mut i: usize = 0;
    proof {
        assert(commits@.take(0) =~= Seq::<CommitInfo>::empty());
    }
    while i < n
        invariant
            n == commits@.len(),
            change_events_total(commits@) <= usize::MAX,
            i <= n,
            file_changes == change_events_total(commits@.take(i as int)),
        decreases n - i,
    {
        proof {
            assert(commits@.take(i + 1).drop_last() =~= commits@.take(i as int));
            assert(commits@.take(i + 1).last() == commits@[i as int]);
            lemma_events_prefix(commits@, i + 1);
        }
        file_changes = file_changes + commits[i].file_changes.len();
        i = i + 1;
    }
    proof {
        assert(commits@.take(n as int) =~= commits@);
    }
    SummaryStats { commits: n, files, file_changes, authors }
}

} // verus!
