//! Derived scores built from the ownership and activity maps: decay and
//! ownership concentration.

use vstd::prelude::*;
use crate::repo::{CommitInfo, wf_commits};
use crate::strmap::{StrMap, nested_wf};
use crate::analysis::metrics::{touch_count, edit_count, first_touch_ts, first_author_ts};
use crate::analysis::{decay, ownership};

verus! {

/// Knowledge-decay score per file, in thousandths of the unit interval,
/// from an explicit reference time.
pub fn get_decay(commits: &[CommitInfo], now: i64) -> (r: StrMap<u64>)
    requires
        wf_commits(commits@),
    ensures
        r.wf(),
        forall|p: Seq<char>| #[trigger] r@.contains_key(p) <==> touch_count(commits@, p) > 0,
        forall|p: Seq<char>| #[trigger] r@.contains_key(p) ==> r@[p] <= decay::DECAY_SCALE,
        forall|p: Seq<char>| #[trigger]
            r@.contains_key(p) ==> exists|a: Seq<char>| decay::is_primary_author(commits@, p, a),
        forall|p: Seq<char>, a: Seq<char>|
            #![trigger r@.contains_key(p), edit_count(commits@, p, a)]
            r@.contains_key(p) && decay::is_primary_author(commits@, p, a) ==> r@[p]
                == decay::decay_spec(
                now as int,
                first_touch_ts(commits@, p) as int,
                first_author_ts(commits@, a) as int,
                edit_count(commits@, p, a) as int,
                touch_count(commits@, p) as int,
            ),
{
    decay::get_decay(commits, now)
}

/// Ownership concentration per file, as the exact fraction
/// `(numerator, denominator)` with `0 < numerator <= denominator`.
pub fn get_file_concentrations(
    file_owners: &StrMap<StrMap<usize>>,
    file_primary_owners: &StrMap<String>,
) -> (r: StrMap<(usize, usize)>)
    requires
        nested_wf(file_owners),
        file_primary_owners.wf(),
        forall|p: Seq<char>| #[trigger]
            file_owners@.contains_key(p) ==> file_primary_owners@.contains_key(p)
                && file_owners@[p]@.contains_key(file_primary_owners@[p]@),
        forall|p: Seq<char>| #[trigger]
            file_owners@.contains_key(p) ==> ownership::sum_counts(file_owners@[p]) <= usize::MAX,
        forall|p: Seq<char>, a: Seq<char>|
            file_owners@.contains_key(p) && (#[trigger] file_owners@[p]@.contains_key(a)) ==> 1
                <= file_owners@[p]@[a],
    ensures
        r.wf(),
        forall|p: Seq<char>| #[trigger] r@.contains_key(p) <==> file_owners@.contains_key(p),
        forall|p: Seq<char>| #[trigger]
            r@.contains_key(p) ==> r@[p].0 == file_owners@[p]@[file_primary_owners@[p]@]
                && r@[p].1 == ownership::sum_counts(file_owners@[p]) && 0 < r@[p].0 <= r@[p].1,
{
    ownership::get_file_concentrations(file_owners, file_primary_owners)
}

} // verus!
