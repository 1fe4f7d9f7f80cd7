//! Ownership views of the history: per-file author edit counts, primary
//! owners, ownership concentration, and author activity.

use vstd::prelude::*;
use crate::repo::{CommitInfo, wf_commits};
use crate::strmap::{StrMap, nested_wf, key_in_prefix, lemma_assoc_view_at, lemma_assoc_view_contains};
use crate::analysis::metrics;

verus! {

/// The sum of the counters of an entry sequence.
pub open spec fn sum_counts_seq(s: Seq<(String, usize)>) -> nat
    decreases s.len(),
{
    if s.len() == 0 {
        0
    } else {
        sum_counts_seq(s.drop_last()) + s.last().1 as nat
    }
}

/// The total of all authors' edit counts in one file's table.
pub open spec fn sum_counts(t: StrMap<usize>) -> nat {
    sum_counts_seq(t.entries@)
}

proof fn lemma_sum_counts_step(s: Seq<(String, usize)>, k: int)
    requires
        0 <= k < s.len(),
    ensures
        sum_counts_seq(s.take(k + 1)) == sum_counts_seq(s.take(k)) + s[k].1,
    decreases s.len(),
{
    assert(s.take(k + 1).drop_last() =~= s.take(k));
    assert(s.take(k + 1).last() == s[k]);
}

proof fn lemma_sum_counts_prefix(s: Seq<(String, usize)>, k: int)
    requires
        0 <= k <= s.len(),
    ensures
        sum_counts_seq(s.take(k)) <= sum_counts_seq(s),
    decreases s.len() - k,
{
    if k < s.len() {
        lemma_sum_counts_step(s, k);
        lemma_sum_counts_prefix(s, k + 1);
    } else {
        assert(s.take(k) =~= s);
    }
}

/// Every single counter is at most the table's total.
proof fn lemma_sum_counts_entry(s: Seq<(String, usize)>, l: int)
    requires
        0 <= l < s.len(),
    ensures
        s[l].1 <= sum_counts_seq(s),
    decreases s.len(),
{
    if l == s.len() - 1 {
    } else {
        assert(s.drop_last()[l] == s[l]);
        lemma_sum_counts_entry(s.drop_last(), l);
    }
}

/// Ownership: path to a table of per-author edit counts.
pub fn get_owners(commits: &[CommitInfo]) -> (r: StrMap<StrMap<usize>>)
    requires
        wf_commits(commits@),
    ensures
        nested_wf(&r),
        forall|p: Seq<char>| #[trigger]
            r@.contains_key(p) <==> metrics::touch_count(commits@, p) > 0,
        forall|p: Seq<char>, a: Seq<char>|
            r@.contains_key(p) ==> ((#[trigger] r@[p]@.contains_key(a)) <==> metrics::edit_count(
                commits@,
                p,
                a,
            ) > 0),
        forall|p: Seq<char>, a: Seq<char>|
            r@.contains_key(p) && r@[p]@.contains_key(a) ==> (#[trigger] r@[p]@[a])
                == metrics::edit_count(commits@, p, a),
{
    metrics::get_owners(commits)
}

/// Primary owner per file, ties resolved toward the lexicographically
/// smallest author name.
pub fn get_primary_owners(file_owners: &StrMap<StrMap<usize>>) -> (r: StrMap<String>)
    requires
        nested_wf(file_owners),
        forall|p: Seq<char>| #[trigger]
            file_owners@.contains_key(p) ==> exists|a: Seq<char>|
                file_owners@[p]@.contains_key(a),
    ensures
        r.wf(),
        forall|p: Seq<char>| #[trigger]
            r@.contains_key(p) <==> file_owners@.contains_key(p),
        forall|p: Seq<char>| #[trigger]
            r@.contains_key(p) ==> metrics::is_primary_of(file_owners@[p], r@[p]@),
{
    metrics::get_primary_owners(file_owners)
}

/// When each author last committed.
pub fn get_user_last_active(commits: &[CommitInfo]) -> (r: StrMap<i64>)
    ensures
        r.wf(),
        forall|a: Seq<char>| #[trigger]
            r@.contains_key(a) <==> metrics::has_author(commits@, a),
        forall|a: Seq<char>| #[trigger]
            r@.contains_key(a) ==> r@[a] == metrics::first_author_ts(commits@, a),
{
    metrics::get_user_last_active(commits)
}

/// Ownership concentration per file, as the exact fraction
/// `primary owner's count / total edits`: the pair `(numerator,
/// denominator)` with `0 < numerator <= denominator`, so the fraction
/// always lies in `(0, 1]`.
pub fn get_file_concentrations(
    file_owners: &StrMap<StrMap<usize>>,
    file_primary_owners: &StrMap<String>,
) -> (r: StrMap<(usize, usize)>)
    requires
        nested_wf(file_owners),
        file_primary_owners.wf(),
        forall|p: Seq<char>| #[trigger]
            file_owners@.contains_key(p) ==> file_primary_owners@.contains_key(p)
                && file_owners@[p]@.contains_key(file_primary_owners@[p]@),
        forall|p: Seq<char>| #[trigger]
            file_owners@.contains_key(p) ==> sum_counts(file_owners@[p]) <= usize::MAX,
        forall|p: Seq<char>, a: Seq<char>|
            file_owners@.contains_key(p) && (#[trigger] file_owners@[p]@.contains_key(a)) ==> 1
                <= file_owners@[p]@[a],
    ensures
        r.wf(),
        forall|p: Seq<char>| #[trigger] r@.contains_key(p) <==> file_owners@.contains_key(p),
        forall|p: Seq<char>| #[trigger]
            r@.contains_key(p) ==> r@[p].0 == file_owners@[p]@[file_primary_owners@[p]@]
                && r@[p].1 == sum_counts(file_owners@[p]) && 0 < r@[p].0 <= r@[p].1,
{
    let n = file_owners.len();
    let mut r: StrMap<(usize, usize)> = StrMap::new();
    let mut i: usize = 0;
    while i < n
        invariant
            nested_wf(file_owners),
            file_primary_owners.wf(),
            forall|p: Seq<char>| #[trigger]
                file_owners@.contains_key(p) ==> file_primary_owners@.contains_key(p)
                    && file_owners@[p]@.contains_key(file_primary_owners@[p]@),
            forall|p: Seq<char>| #[trigger]
                file_owners@.contains_key(p) ==> sum_counts(file_owners@[p]) <= usize::MAX,
            forall|p: Seq<char>, a: Seq<char>|
                file_owners@.contains_key(p) && (#[trigger] file_owners@[p]@.contains_key(a)) ==> 1
                    <= file_owners@[p]@[a],
            n == file_owners.entries@.len(),
            i <= n,
            r.wf(),
            forall|p: Seq<char>| #[trigger]
                r@.contains_key(p) <==> key_in_prefix(file_owners.entries@, i as int, p),
            forall|p: Seq<char>| #[trigger]
                r@.contains_key(p) ==> file_owners@.contains_key(p) && r@[p].0
                    == file_owners@[p]@[file_primary_owners@[p]@] && r@[p].1 == sum_counts(
                    file_owners@[p],
                ) && 0 < r@[p].0 <= r@[p].1,
        decreases n - i,
    {
        proof {
            lemma_assoc_view_at(file_owners.entries@, i as int);
        }
        let ghost pv = file_owners.entries@[i as int].0@;
        let t = &file_owners.entries[i].1;
        proof {
            assert(file_owners@[pv] == *t);
        }
        let primary: &String = match file_primary_owners.get(file_owners.entries[i].0.as_str()) {
            Some(s) => s,
            None => {
                proof {
                    assert(false);
                }
                &file_owners.entries[i].0
            },
        };
        let num: usize = match t.get(primary.as_str()) {
            Some(v) => *v,
            None => {
                proof {
                    assert(false);
                }
                0
            },
        };
        let m = t.entries.len();
        let mut den: usize = 0;
        let mut k: usize = 0;
        proof {
            assert(t.entries@.take(0) =~= Seq::<(String, usize)>::empty());
        }
        while k < m
            invariant
                nested_wf(file_owners),
                i < n,
                n == file_owners.entries@.len(),
                pv == file_owners.entries@[i as int].0@,
                *t == file_owners.entries@[i as int].1,
                file_owners@.contains_key(pv) && file_owners@[pv] == *t,
                sum_counts(file_owners@[pv]) <= usize::MAX,
                m == t.entries@.len(),
                k <= m,
                den == sum_counts_seq(t.entries@.take(k as int)),
            decreases m - k,
        {
            proof {
                lemma_sum_counts_step(t.entries@, k as int);
                lemma_sum_counts_prefix(t.entries@, k + 1);
            }
            den = den + t.entries[k].1;
            k = k + 1;
        }
        proof {
            assert(t.entries@.take(m as int) =~= t.entries@);
            assert(den == sum_counts(file_owners@[pv]));
            // the primary owner's count is one of the summands
            lemma_assoc_view_contains(t.entries@, primary@);
            let l = choose|l: int| 0 <= l < t.entries@.len() && t.entries@[l].0@ == primary@;
            lemma_assoc_view_at(t.entries@, l);
            lemma_sum_counts_entry(t.entries@, l);
            assert(num <= den);
        }
        r.insert(file_owners.entries[i].0.as_str(), (num, den));
        proof {
            assert(forall|p: Seq<char>|
                p != pv ==> (key_in_prefix(file_owners.entries@, i + 1, p) <==> key_in_prefix(
                    file_owners.entries@,
                    i as int,
                    p,
                )));
            assert(key_in_prefix(file_owners.entries@, i + 1, pv)) by {
                assert(file_owners.entries@[i as int].0@ == pv);
            }
        }
        i = i + 1;
    }
    proof {
        assert forall|p: Seq<char>| #[trigger]
            r@.contains_key(p) <==> file_owners@.contains_key(p) by {
            lemma_assoc_view_contains(file_owners.entries@, p);
        }
    }
    r
}

} // verus!
