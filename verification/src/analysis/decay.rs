//! Knowledge decay: a per-file score in `[0, 1]` combining calendar
//! staleness with the primary owner's inactivity, the latter weighted by
//! ownership concentration. Scores are exact fixed-point values on the
//! scale `0 ..= DECAY_SCALE`; dividing by `DECAY_SCALE` gives the
//! fraction. The reference time is an explicit parameter, so the
//! computation is reproducible.

use vstd::prelude::*;
use vstd::arithmetic::div_mod::{lemma_div_is_ordered, lemma_div_pos_is_pos, lemma_div_multiples_vanish};
use vstd::arithmetic::mul::lemma_mul_inequality;
use crate::repo::{CommitInfo, wf_commits};
use crate::strmap::{StrMap, distinct_keys, key_in_prefix, lemma_assoc_view_at, lemma_assoc_view_contains};
use crate::analysis::metrics::{
    self, commit_touches, touch_count, edit_count, has_author, first_touch_ts, first_author_ts,
    is_primary_of,
};
use crate::analysis::ownership::{self, sum_counts, sum_counts_seq};
use crate::order::{lex_leq, lemma_lex_trichotomy};

verus! {

/// The staleness and inactivity horizon: 180 days, in seconds.
pub const DECAY_THRESHOLD: i64 = 180 * 24 * 60 * 60;

/// Scores are thousandths: a score of `DECAY_SCALE` means 1.0.
pub const DECAY_SCALE: u64 = 1000;

/// An age, scaled to `0 ..= DECAY_SCALE` against the decay horizon:
/// `min(1, delta / threshold)` in thousandths, never negative.
pub open spec fn scaled_ratio(delta: int) -> int {
    if delta <= 0 {
        0
    } else if delta >= DECAY_THRESHOLD as int {
        DECAY_SCALE as int
    } else {
        delta * (DECAY_SCALE as int) / (DECAY_THRESHOLD as int)
    }
}

/// The decay formula on scaled parts: with staleness and inactivity in
/// thousandths and the concentration `num / den`,
/// `min(1, 0.3 * staleness + 0.7 * inactivity * concentration)`,
/// computed as `min(SCALE, (3 * stale + 7 * inact * num / den) / 10)`.
pub open spec fn decay_from_parts(stale: int, inact: int, num: int, den: int) -> int
    recommends
        den > 0,
{
    vstd::math::min(
        DECAY_SCALE as int,
        (3 * stale + 7 * inact * num / den) / 10,
    )
}

/// The decay score of a file from the raw inputs: the reference time,
/// the file's last-modified time, its primary owner's last-active time,
/// and the ownership concentration `num / den`.
pub open spec fn decay_spec(
    now: int,
    last_mod: int,
    owner_last_active: int,
    num: int,
    den: int,
) -> int {
    decay_from_parts(scaled_ratio(now - last_mod), scaled_ratio(now - owner_last_active), num, den)
}

/// Scaling an age is monotone and lands in `0 ..= DECAY_SCALE`.
pub proof fn lemma_scaled_ratio_monotone(d1: int, d2: int)
    requires
        d1 <= d2,
    ensures
        0 <= scaled_ratio(d1) <= scaled_ratio(d2) <= DECAY_SCALE as int,
{
    lemma_scaled_ratio_bounds(d1);
    lemma_scaled_ratio_bounds(d2);
    if 0 < d1 && d2 < DECAY_THRESHOLD as int {
        lemma_mul_inequality(d1, d2, DECAY_SCALE as int);
        lemma_div_is_ordered(
            d1 * (DECAY_SCALE as int),
            d2 * (DECAY_SCALE as int),
            DECAY_THRESHOLD as int,
        );
    }
}

/// A scaled age lies in `0 ..= DECAY_SCALE`.
pub proof fn lemma_scaled_ratio_bounds(d: int)
    ensures
        0 <= scaled_ratio(d) <= DECAY_SCALE as int,
{
    if 0 < d && d < DECAY_THRESHOLD as int {
        lemma_div_pos_is_pos(d * (DECAY_SCALE as int), DECAY_THRESHOLD as int);
        lemma_mul_inequality(d, DECAY_THRESHOLD as int, DECAY_SCALE as int);
        lemma_div_is_ordered(
            d * (DECAY_SCALE as int),
            (DECAY_THRESHOLD as int) * (DECAY_SCALE as int),
            DECAY_THRESHOLD as int,
        );
        lemma_div_multiples_vanish(DECAY_SCALE as int, DECAY_THRESHOLD as int);
    }
}

/// The decay score always lies in `[0, 1]`, and is monotone
/// non-decreasing in staleness and in inactivity with the other inputs
/// fixed.
pub proof fn lemma_decay_monotone(s1: int, s2: int, i1: int, i2: int, num: int, den: int)
    requires
        0 <= s1 <= s2 <= DECAY_SCALE as int,
        0 <= i1 <= i2 <= DECAY_SCALE as int,
        0 < num <= den,
    ensures
        0 <= decay_from_parts(s1, i1, num, den) <= DECAY_SCALE as int,
        0 <= decay_from_parts(s2, i2, num, den) <= DECAY_SCALE as int,
        decay_from_parts(s1, i1, num, den) <= decay_from_parts(s2, i2, num, den),
{
    lemma_decay_bounds(s1, i1, num, den);
    lemma_decay_bounds(s2, i2, num, den);
    lemma_mul_inequality(7 * i1, 7 * i2, num);
    assert(7 * i1 * num <= 7 * i2 * num) by (nonlinear_arith)
        requires (7 * i1) * num <= (7 * i2) * num;
    lemma_div_is_ordered(7 * i1 * num, 7 * i2 * num, den);
    lemma_div_is_ordered(
        3 * s1 + 7 * i1 * num / den,
        3 * s2 + 7 * i2 * num / den,
        10,
    );
}

/// The decay score lies in `[0, 1]`.
pub proof fn lemma_decay_bounds(stale: int, inact: int, num: int, den: int)
    requires
        0 <= stale <= DECAY_SCALE as int,
        0 <= inact <= DECAY_SCALE as int,
        0 < num <= den,
    ensures
        0 <= decay_from_parts(stale, inact, num, den) <= DECAY_SCALE as int,
{
    assert(7 * inact * num >= 0) by (nonlinear_arith)
        requires inact >= 0, num >= 0;
    lemma_div_pos_is_pos(7 * inact * num, den);
    lemma_div_pos_is_pos(3 * stale + 7 * inact * num / den, 10);
    assert(7 * inact * num <= 7 * inact * den) by (nonlinear_arith)
        requires num <= den, inact >= 0;
    lemma_div_is_ordered(7 * inact * num, 7 * inact * den, den);
    lemma_div_multiples_vanish(7 * inact, den);
    assert(7 * inact * num / den <= 7 * inact);
}

/// Sum of the edit counts of `cs` on `p` over the keys of an entry
/// sequence.
pub open spec fn sum_edits_over(
    s: Seq<(String, usize)>,
    cs: Seq<CommitInfo>,
    p: Seq<char>,
) -> nat
    decreases s.len(),
{
    if s.len() == 0 {
        0
    } else {
        sum_edits_over(s.drop_last(), cs, p) + edit_count(cs, p, s.last().0@)
    }
}

proof fn lemma_sum_edits_step(s: Seq<(String, usize)>, cs: Seq<CommitInfo>, p: Seq<char>)
    requires
        distinct_keys(s),
        cs.len() > 0,
    ensures
        sum_edits_over(s, cs, p) == sum_edits_over(s, cs.drop_last(), p) + if commit_touches(
            cs.last(),
            p,
        ) && (exists|l: int| 0 <= l < s.len() && (#[trigger] s[l]).0@ == cs.last().author_name@) {
            1int
        } else {
            0int
        },
    decreases s.len(),
{
    if s.len() > 0 {
        assert(distinct_keys(s.drop_last()));
        lemma_sum_edits_step(s.drop_last(), cs, p);
        let au = cs.last().author_name@;
        if commit_touches(cs.last(), p) {
            if s.last().0@ == au {
                // the last entry takes the increment; no earlier entry has this key
                if exists|l: int|
                    0 <= l < s.drop_last().len() && (#[trigger] s.drop_last()[l]).0@ == au {
                    let l = choose|l: int|
                        0 <= l < s.drop_last().len() && (#[trigger] s.drop_last()[l]).0@ == au;
                    assert(s[l].0@ == au && s[s.len() - 1].0@ == au);
                }
                assert(exists|l: int| 0 <= l < s.len() && (#[trigger] s[l]).0@ == au) by {
                    assert(s[s.len() - 1].0@ == au);
                }
            } else {
                if exists|l: int| 0 <= l < s.len() && (#[trigger] s[l]).0@ == au {
                    let l = choose|l: int| 0 <= l < s.len() && (#[trigger] s[l]).0@ == au;
                    assert(s.drop_last()[l].0@ == au);
                }
                if exists|l: int|
                    0 <= l < s.drop_last().len() && (#[trigger] s.drop_last()[l]).0@ == au {
                    let l = choose|l: int|
                        0 <= l < s.drop_last().len() && (#[trigger] s.drop_last()[l]).0@ == au;
                    assert(s[l].0@ == au);
                }
            }
        }
    }
}

/// Over a key set that covers every author with edits on `p`, the edit
/// counts sum to the file's touch count: every touching commit is
/// attributed to exactly one author.
pub proof fn lemma_sum_edits_is_touch_count(
    s: Seq<(String, usize)>,
    cs: Seq<CommitInfo>,
    p: Seq<char>,
)
    requires
        distinct_keys(s),
        forall|b: Seq<char>|
            edit_count(cs, p, b) > 0 ==> exists|l: int|
                0 <= l < s.len() && (#[trigger] s[l]).0@ == b,
    ensures
        sum_edits_over(s, cs, p) == touch_count(cs, p),
    decreases cs.len(),
{
    if cs.len() == 0 {
        lemma_sum_edits_zero(s, cs, p);
    } else {
        let dl = cs.drop_last();
        assert forall|b: Seq<char>| edit_count(dl, p, b) > 0 implies exists|l: int|
            0 <= l < s.len() && (#[trigger] s[l]).0@ == b by {
            assert(edit_count(cs, p, b) >= edit_count(dl, p, b));
        }
        lemma_sum_edits_is_touch_count(s, dl, p);
        lemma_sum_edits_step(s, cs, p);
        if commit_touches(cs.last(), p) {
            let au = cs.last().author_name@;
            assert(edit_count(cs, p, au) > 0);
        }
    }
}

proof fn lemma_sum_edits_zero(s: Seq<(String, usize)>, cs: Seq<CommitInfo>, p: Seq<char>)
    requires
        cs.len() == 0,
    ensures
        sum_edits_over(s, cs, p) == 0,
    decreases s.len(),
{
    if s.len() > 0 {
        lemma_sum_edits_zero(s.drop_last(), cs, p);
    }
}

proof fn lemma_sum_edits_matches_counts(
    s: Seq<(String, usize)>,
    cs: Seq<CommitInfo>,
    p: Seq<char>,
)
    requires
        forall|l: int| 0 <= l < s.len() ==> (#[trigger] s[l]).1 == edit_count(cs, p, s[l].0@),
    ensures
        sum_counts_seq(s) == sum_edits_over(s, cs, p),
    decreases s.len(),
{
    if s.len() > 0 {
        assert(forall|l: int|
            0 <= l < s.drop_last().len() ==> (#[trigger] s.drop_last()[l]).1 == edit_count(
                cs,
                p,
                s.drop_last()[l].0@,
            ));
        lemma_sum_edits_matches_counts(s.drop_last(), cs, p);
    }
}

/// A touched file has at least one author with edits on it.
pub proof fn lemma_touch_implies_author(cs: Seq<CommitInfo>, p: Seq<char>)
    requires
        touch_count(cs, p) > 0,
    ensures
        exists|a: Seq<char>| edit_count(cs, p, a) > 0,
    decreases cs.len(),
{
    if cs.len() > 0 {
        if commit_touches(cs.last(), p) {
            assert(edit_count(cs, p, cs.last().author_name@) > 0);
        } else {
            lemma_touch_implies_author(cs.drop_last(), p);
            let a = choose|a: Seq<char>| edit_count(cs.drop_last(), p, a) > 0;
            assert(edit_count(cs, p, a) > 0);
        }
    }
}

/// An author with edits appears in the history.
pub proof fn lemma_edit_implies_has_author(cs: Seq<CommitInfo>, p: Seq<char>, a: Seq<char>)
    requires
        edit_count(cs, p, a) > 0,
    ensures
        has_author(cs, a),
    decreases cs.len(),
{
    if cs.len() > 0 {
        if cs.last().author_name@ == a && commit_touches(cs.last(), p) {
            assert(cs[cs.len() - 1].author_name@ == a);
        } else {
            lemma_edit_implies_has_author(cs.drop_last(), p, a);
            let i = choose|i: int|
                0 <= i < cs.drop_last().len() && cs.drop_last()[i].author_name@ == a;
            assert(cs[i].author_name@ == a);
        }
    }
}

/// Whether `a` is the primary owner of `p` over the whole history: some
/// edits, no author with more, and lexicographically smallest among the
/// authors sharing the maximum.
pub open spec fn is_primary_author(cs: Seq<CommitInfo>, p: Seq<char>, a: Seq<char>) -> bool {
    &&& edit_count(cs, p, a) > 0
    &&& forall|b: Seq<char>| #[trigger] edit_count(cs, p, b) <= edit_count(cs, p, a)
    &&& forall|b: Seq<char>|
        (#[trigger] edit_count(cs, p, b)) == edit_count(cs, p, a) && edit_count(cs, p, b) > 0
            ==> lex_leq(a, b)
}

/// An age scaled against the decay horizon, computed exactly.
fn clamp_ratio(now: i64, then: i64) -> (r: u64)
    ensures
        r == scaled_ratio(now - then),
        r <= DECAY_SCALE,
{
    let delta: i128 = (now as i128) - (then as i128);
    if delta <= 0 {
        0
    } else if delta >= DECAY_THRESHOLD as i128 {
        DECAY_SCALE
    } else {
        proof {
            lemma_scaled_ratio_bounds(now - then);
        }
        ((delta * (DECAY_SCALE as i128)) / (DECAY_THRESHOLD as i128)) as u64
    }
}

/// The decay formula on scaled parts, computed exactly.
fn decay_value(stale: u64, inact: u64, num: usize, den: usize) -> (r: u64)
    requires
        stale <= DECAY_SCALE,
        inact <= DECAY_SCALE,
        0 < num <= den,
    ensures
        r == decay_from_parts(stale as int, inact as int, num as int, den as int),
        r <= DECAY_SCALE,
{
    proof {
        lemma_decay_bounds(stale as int, inact as int, num as int, den as int);
        assert(7 * (inact as int) * (num as int) <= 7 * (DECAY_SCALE as int) * (usize::MAX
            as int)) by (nonlinear_arith)
            requires
                0 <= inact as int <= DECAY_SCALE as int,
                0 <= num as int <= usize::MAX as int,
        ;
    }
    let prod: i128 = 7 * (inact as i128) * (num as i128) / (den as i128);
    let val: i128 = (3 * (stale as i128) + prod) / 10;
    if val >= DECAY_SCALE as i128 {
        DECAY_SCALE
    } else {
        val as u64
    }
}

/// Knowledge-decay score per file, in thousandths, from an explicit
/// reference time `now`. For a file with primary owner `a`, the score is
/// the decay formula applied to the file's staleness, the owner's
/// inactivity, and the ownership concentration, whose denominator is the
/// file's touch count: each touching commit is one edit by one author.
pub fn get_decay(commits: &[CommitInfo], now: i64) -> (r: StrMap<u64>)
    requires
        wf_commits(commits@),
    ensures
        r.wf(),
        forall|p: Seq<char>| #[trigger] r@.contains_key(p) <==> touch_count(commits@, p) > 0,
        forall|p: Seq<char>| #[trigger] r@.contains_key(p) ==> r@[p] <= DECAY_SCALE,
        forall|p: Seq<char>| #[trigger]
            r@.contains_key(p) ==> exists|a: Seq<char>| is_primary_author(commits@, p, a),
        forall|p: Seq<char>, a: Seq<char>|
            #![trigger r@.contains_key(p), edit_count(commits@, p, a)]
            r@.contains_key(p) && is_primary_author(commits@, p, a) ==> r@[p] == decay_spec(
                now as int,
                first_touch_ts(commits@, p) as int,
                first_author_ts(commits@, a) as int,
                edit_count(commits@, p, a) as int,
                touch_count(commits@, p) as int,
            ),
{
    let ncommits = commits.len();
    proof {
        assert(commits@.len() <= usize::MAX);
    }
    let files_last_modified = metrics::get_files_last_modified(commits);
    let file_owners = metrics::get_owners(commits);
    proof {
        assert forall|p: Seq<char>| #[trigger] file_owners@.contains_key(p) implies exists|
            a: Seq<char>,
        | file_owners@[p]@.contains_key(a) by {
            lemma_touch_implies_author(commits@, p);
            let a = choose|a: Seq<char>| edit_count(commits@, p, a) > 0;
            assert(file_owners@[p]@.contains_key(a));
        }
    }
    let file_primary_owners = metrics::get_primary_owners(&file_owners);
    proof {
        assert forall|p: Seq<char>| #[trigger] file_owners@.contains_key(p) implies sum_counts(
            file_owners@[p],
        ) <= usize::MAX by {
            let t = file_owners@[p];
            assert forall|l: int|
                0 <= l < t.entries@.len() implies (#[trigger] t.entries@[l]).1 == edit_count(
                commits@,
                p,
                t.entries@[l].0@,
            ) by {
                lemma_assoc_view_at(t.entries@, l);
            }
            lemma_sum_edits_matches_counts(t.entries@, commits@, p);
            assert forall|b: Seq<char>| edit_count(commits@, p, b) > 0 implies exists|l: int|
                0 <= l < t.entries@.len() && (#[trigger] t.entries@[l]).0@ == b by {
                assert(t@.contains_key(b));
                lemma_assoc_view_contains(t.entries@, b);
            }
            lemma_sum_edits_is_touch_count(t.entries@, commits@, p);
            metrics::lemma_touch_count_le(commits@, p);
            assert(sum_counts(t) == sum_counts_seq(t.entries@));
            assert(sum_counts_seq(t.entries@) == touch_count(commits@, p));
            assert(touch_count(commits@, p) <= commits@.len() <= usize::MAX);
        }
    }
    let file_concentrations = ownership::get_file_concentrations(&file_owners, &file_primary_owners);
    let users_last_active = metrics::get_user_last_active(commits);
    let n = file_owners.len();
    let mut r: StrMap<u64> = StrMap::new();
    let mut i: usize = 0;
    while i < n
        invariant
            wf_commits(commits@),
            n == file_owners.entries@.len(),
            i <= n,
            crate::strmap::nested_wf(&file_owners),
            files_last_modified.wf(),
            file_primary_owners.wf(),
            file_concentrations.wf(),
            users_last_active.wf(),
            forall|p: Seq<char>| #[trigger]
                file_owners@.contains_key(p) <==> touch_count(commits@, p) > 0,
            forall|p: Seq<char>, a: Seq<char>|
                file_owners@.contains_key(p) ==> ((#[trigger] file_owners@[p]@.contains_key(a))
                    <==> edit_count(commits@, p, a) > 0),
            forall|p: Seq<char>, a: Seq<char>|
                file_owners@.contains_key(p) && file_owners@[p]@.contains_key(a) ==> (
                #[trigger] file_owners@[p]@[a]) == edit_count(commits@, p, a),
            forall|p: Seq<char>| #[trigger]
                files_last_modified@.contains_key(p) <==> touch_count(commits@, p) > 0,
            forall|p: Seq<char>| #[trigger]
                files_last_modified@.contains_key(p) ==> files_last_modified@[p]
                    == first_touch_ts(commits@, p),
            forall|p: Seq<char>| #[trigger]
                file_primary_owners@.contains_key(p) <==> file_owners@.contains_key(p),
            forall|p: Seq<char>| #[trigger]
                file_primary_owners@.contains_key(p) ==> is_primary_of(
                    file_owners@[p],
                    file_primary_owners@[p]@,
                ),
            forall|p: Seq<char>| #[trigger]
                file_concentrations@.contains_key(p) <==> file_owners@.contains_key(p),
            forall|p: Seq<char>| #[trigger]
                file_concentrations@.contains_key(p) ==> file_concentrations@[p].0
                    == file_owners@[p]@[file_primary_owners@[p]@] && file_concentrations@[p].1
                    == sum_counts(file_owners@[p]) && 0 < file_concentrations@[p].0
                    <= file_concentrations@[p].1,
            forall|a: Seq<char>| #[trigger]
                users_last_active@.contains_key(a) <==> has_author(commits@, a),
            forall|a: Seq<char>| #[trigger]
                users_last_active@.contains_key(a) ==> users_last_active@[a] == first_author_ts(
                    commits@,
                    a,
                ),
            r.wf(),
            forall|p: Seq<char>| #[trigger]
                r@.contains_key(p) <==> key_in_prefix(file_owners.entries@, i as int, p),
            forall|p: Seq<char>| #[trigger]
                r@.contains_key(p) ==> touch_count(commits@, p) > 0 && r@[p] <= DECAY_SCALE,
            forall|p: Seq<char>| #[trigger]
                r@.contains_key(p) ==> exists|a: Seq<char>| is_primary_author(commits@, p, a),
            forall|p: Seq<char>, a: Seq<char>|
                #![trigger r@.contains_key(p), edit_count(commits@, p, a)]
                r@.contains_key(p) && is_primary_author(commits@, p, a) ==> r@[p] == decay_spec(
                    now as int,
                    first_touch_ts(commits@, p) as int,
                    first_author_ts(commits@, a) as int,
                    edit_count(commits@, p, a) as int,
                    touch_count(commits@, p) as int,
                ),
        decreases n - i,
    {
        proof {
            lemma_assoc_view_at(file_owners.entries@, i as int);
        }
        let ghost pv = file_owners.entries@[i as int].0@;
        let path = &file_owners.entries[i].0;
        proof {
            assert(file_owners@.contains_key(pv));
            assert(touch_count(commits@, pv) > 0);
            assert(files_last_modified@.contains_key(pv));
            assert(file_primary_owners@.contains_key(pv));
            assert(file_concentrations@.contains_key(pv));
            assert(path@ == pv);
        }
        let last_modified: i64 = match files_last_modified.get(path.as_str()) {
            Some(v) => *v,
            None => {
                proof {
                    assert(false);
                }
                0
            },
        };
        let primary: &String = match file_primary_owners.get(path.as_str()) {
            Some(s) => s,
            None => {
                proof {
                    assert(false);
                }
                path
            },
        };
        let conc: (usize, usize) = match file_concentrations.get(path.as_str()) {
            Some(v) => *v,
            None => {
                proof {
                    assert(false);
                }
                (1, 1)
            },
        };
        proof {
            assert(is_primary_of(file_owners@[pv], primary@));
            assert(file_owners@[pv]@.contains_key(primary@));
            assert(edit_count(commits@, pv, primary@) > 0);
            lemma_edit_implies_has_author(commits@, pv, primary@);
        }
        let user_last_active: i64 = match users_last_active.get(primary.as_str()) {
            Some(v) => *v,
            None => {
                proof {
                    assert(false);
                }
                0
            },
        };
        let stale = clamp_ratio(now, last_modified);
        let inact = clamp_ratio(now, user_last_active);
        let d = decay_value(stale, inact, conc.0, conc.1);
        r.insert(path.as_str(), d);
        proof {
            // the concentration denominator is the file's touch count
            let t = file_owners@[pv];
            assert forall|l: int|
                0 <= l < t.entries@.len() implies (#[trigger] t.entries@[l]).1 == edit_count(
                commits@,
                pv,
                t.entries@[l].0@,
            ) by {
                lemma_assoc_view_at(t.entries@, l);
            }
            lemma_sum_edits_matches_counts(t.entries@, commits@, pv);
            assert forall|b: Seq<char>| edit_count(commits@, pv, b) > 0 implies exists|l: int|
                0 <= l < t.entries@.len() && (#[trigger] t.entries@[l]).0@ == b by {
                assert(t@.contains_key(b));
                lemma_assoc_view_contains(t.entries@, b);
            }
            lemma_sum_edits_is_touch_count(t.entries@, commits@, pv);
            assert(conc.1 == touch_count(commits@, pv));
            assert(conc.0 == edit_count(commits@, pv, primary@));
            // the table's primary owner is the history's primary author,
            // and it is the only one
            assert(is_primary_author(commits@, pv, primary@)) by {
                assert forall|b: Seq<char>| #[trigger]
                    edit_count(commits@, pv, b) <= edit_count(commits@, pv, primary@) by {
                    if edit_count(commits@, pv, b) > 0 {
                        assert(t@.contains_key(b));
                        assert(t@[b] <= t@[primary@]);
                    }
                }
                assert forall|b: Seq<char>|
                    (#[trigger] edit_count(commits@, pv, b)) == edit_count(commits@, pv, primary@)
                        && edit_count(commits@, pv, b) > 0 implies lex_leq(primary@, b) by {
                    assert(t@.contains_key(b));
                }
            }
            assert forall|a: Seq<char>| is_primary_author(commits@, pv, a) implies a
                == primary@ by {
                assert(edit_count(commits@, pv, a) > 0);
                assert(t@.contains_key(a));
                assert(t@[a] == edit_count(commits@, pv, a));
                assert(t@[primary@] == edit_count(commits@, pv, primary@));
                assert(edit_count(commits@, pv, primary@) <= edit_count(commits@, pv, a));
                assert(t@[a] <= t@[primary@]);
                assert(lex_leq(a, primary@) && lex_leq(primary@, a));
                lemma_lex_trichotomy(a, primary@);
            }
            assert(forall|p: Seq<char>|
                p != pv ==> (key_in_prefix(file_owners.entries@, i + 1, p) <==> key_in_prefix(
                    file_owners.entries@,
                    i as int,
                    p,
                )));
            assert(key_in_prefix(file_owners.entries@, i + 1, pv)) by {
                assert(file_owners.entries@[i as int].0@ == pv);
            }
        }
        i = i + 1;
    }
    proof {
        assert forall|p: Seq<char>| #[trigger]
            r@.contains_key(p) <==> touch_count(commits@, p) > 0 by {
            assert(i == n);
            assert(r@.contains_key(p) <==> key_in_prefix(file_owners.entries@, n as int, p));
            assert(file_owners@.contains_key(p) <==> touch_count(commits@, p) > 0);
            lemma_assoc_view_contains(file_owners.entries@, p);
            if key_in_prefix(file_owners.entries@, n as int, p) {
                let l = choose|l: int|
                    0 <= l < n && (#[trigger] file_owners.entries@[l]).0@ == p;
                assert(exists|l2: int|
                    0 <= l2 < file_owners.entries@.len() && file_owners.entries@[l2].0@ == p);
            }
            if exists|l2: int|
                0 <= l2 < file_owners.entries@.len() && file_owners.entries@[l2].0@ == p {
                let l = choose|l2: int|
                    0 <= l2 < file_owners.entries@.len() && file_owners.entries@[l2].0@ == p;
                assert(key_in_prefix(file_owners.entries@, n as int, p)) by {
                    assert((file_owners.entries@[l]).0@ == p);
                }
            }
        }
    }
    r
}

/// How many commits touch each file.
pub fn get_revision_counts(commits: &[CommitInfo]) -> (r: StrMap<usize>)
    requires
        wf_commits(commits@),
    ensures
        r.wf(),
        forall|p: Seq<char>| #[trigger] r@.contains_key(p) <==> touch_count(commits@, p) > 0,
        forall|p: Seq<char>| #[trigger]
            r@.contains_key(p) ==> r@[p] == touch_count(commits@, p),
{
    metrics::get_revision_counts(commits)
}

/// Cumulative insertions and deletions per file.
pub fn get_line_changes(commits: &[CommitInfo]) -> (r: StrMap<(usize, usize)>)
    requires
        wf_commits(commits@),
        forall|p: Seq<char>|
            metrics::ins_total(commits@, p) <= usize::MAX && metrics::del_total(commits@, p)
                <= usize::MAX,
    ensures
        r.wf(),
        forall|p: Seq<char>| #[trigger] r@.contains_key(p) <==> touch_count(commits@, p) > 0,
        forall|p: Seq<char>| #[trigger]
            r@.contains_key(p) ==> r@[p].0 == metrics::ins_total(commits@, p) && r@[p].1
                == metrics::del_total(commits@, p),
{
    metrics::get_line_changes(commits)
}

/// When each file was last touched.
pub fn get_files_last_modified(commits: &[CommitInfo]) -> (r: StrMap<i64>)
    ensures
        r.wf(),
        forall|p: Seq<char>| #[trigger] r@.contains_key(p) <==> touch_count(commits@, p) > 0,
        forall|p: Seq<char>| #[trigger]
            r@.contains_key(p) ==> r@[p] == first_touch_ts(commits@, p),
{
    metrics::get_files_last_modified(commits)
}

} // verus!
