//! Commit records and the per-commit diff accounting. A commit's tree
//! diff reaches the library as a flat sequence of structured events (one
//! per changed file, one per hunk line), and a verified fold turns those
//! events into per-file change entries with line counts.

use vstd::prelude::*;

verus! {

/// Classification of a file's change within one commit. Any backend
/// status not explicitly modeled maps to `Other`.
#[derive(Clone, Copy, Debug, PartialEq, Eq, Structural)]
pub enum FileStatus {
    Added,
    Modified,
    Deleted,
    Renamed,
    Copied,
    Other,
}

/// One file's change within one commit: final path, status, and the
/// number of added and removed content lines in its hunks.
#[derive(Clone, Debug)]
pub struct FileChange {
    pub path: String,
    pub status: FileStatus,
    pub insertions: usize,
    pub deletions: usize,
}

/// One visited commit: identity, authorship, and its file changes.
#[derive(Clone, Debug)]
pub struct CommitInfo {
    pub hash: String,
    pub author_name: String,
    pub author_email: String,
    pub timestamp: i64,
    pub message: String,
    pub file_changes: Vec<FileChange>,
}

/// Within one commit the file paths are pairwise distinct: a file touched
/// twice collapses to one entry keyed by its final path.
pub open spec fn wf_commit(c: CommitInfo) -> bool {
    forall|i: int, j: int|
        0 <= i < j < c.file_changes@.len() ==> c.file_changes@[i].path@ != c.file_changes@[j].path@
}

/// Every commit of the sequence is well formed.
pub open spec fn wf_commits(cs: Seq<CommitInfo>) -> bool {
    forall|i: int| 0 <= i < cs.len() ==> wf_commit(#[trigger] cs[i])
}

/// One structured event of a commit's tree diff, in traversal order: a
/// changed-file header (with no path for entries the backend cannot
/// resolve), or one hunk line with its origin marker.
pub enum DiffEvent {
    File { path: Option<String>, status: FileStatus },
    Line { origin: char },
}

/// The mathematical value of one accumulated file change.
pub struct ChangeModel {
    pub path: Seq<char>,
    pub status: FileStatus,
    pub ins: nat,
    pub del: nat,
}

/// The mathematical value of a `FileChange`.
pub open spec fn change_model(fc: FileChange) -> ChangeModel {
    ChangeModel { path: fc.path@, status: fc.status, ins: fc.insertions as nat, del: fc.deletions as nat }
}

/// The mathematical value of a file-change list.
pub open spec fn changes_model(s: Seq<FileChange>) -> Seq<ChangeModel> {
    s.map_values(|fc: FileChange| change_model(fc))
}

/// Whether some accumulated entry holds path `p`.
pub open spec fn has_path(s: Seq<ChangeModel>, p: Seq<char>) -> bool {
    exists|i: int| 0 <= i < s.len() && s[i].path == p
}

/// The index of the entry holding path `p`.
pub open spec fn path_index(s: Seq<ChangeModel>, p: Seq<char>) -> int {
    choose|i: int| 0 <= i < s.len() && s[i].path == p
}

/// Accumulated entries carry pairwise distinct paths.
pub open spec fn distinct_model_paths(s: Seq<ChangeModel>) -> bool {
    forall|i: int, j: int| 0 <= i < j < s.len() ==> s[i].path != s[j].path
}

/// The fold's running state: the entries so far and the path of the file
/// whose hunk lines are currently being read.
pub struct FoldState {
    pub entries: Seq<ChangeModel>,
    pub current: Seq<char>,
}

/// How one diff event changes the fold state. A file header starts (or
/// restarts, counts reset) the entry for its path and makes it current; a
/// header without a path is dropped; a hunk line with origin `'+'` or
/// `'-'` adds one to the current entry's count, and any other line is
/// ignored, as are lines while no current entry exists.
pub open spec fn fold_step(st: FoldState, ev: DiffEvent) -> FoldState {
    match ev {
        DiffEvent::File { path, status } => match path {
            Option::Some(p) => {
                let e = ChangeModel { path: p@, status, ins: 0, del: 0 };
                if has_path(st.entries, p@) {
                    FoldState { entries: st.entries.update(path_index(st.entries, p@), e), current: p@ }
                } else {
                    FoldState { entries: st.entries.push(e), current: p@ }
                }
            },
            Option::None => st,
        },
        DiffEvent::Line { origin } => {
            if has_path(st.entries, st.current) {
                let i = path_index(st.entries, st.current);
                let e = st.entries[i];
                if origin == '+' {
                    FoldState {
                        entries: st.entries.update(i, ChangeModel { ins: e.ins + 1, ..e }),
                        current: st.current,
                    }
                } else if origin == '-' {
                    FoldState {
                        entries: st.entries.update(i, ChangeModel { del: e.del + 1, ..e }),
                        current: st.current,
                    }
                } else {
                    st
                }
            } else {
                st
            }
        },
    }
}

/// The fold of a whole event sequence, from an empty state.
pub open spec fn fold_events(events: Seq<DiffEvent>) -> FoldState
    decreases events.len(),
{
    if events.len() == 0 {
        FoldState { entries: Seq::empty(), current: Seq::empty() }
    } else {
        fold_step(fold_events(events.drop_last()), events.last())
    }
}

/// Whether an event is a file header with a resolvable path.
pub open spec fn is_file_header(ev: DiffEvent) -> bool {
    ev is File && ev->path is Some
}

/// The path of a file header.
pub open spec fn header_path(ev: DiffEvent) -> Seq<char>
    recommends
        is_file_header(ev),
{
    ev->path->0@
}

/// An event stream as the backend delivers it: every hunk line follows
/// some file header, and file headers carry pairwise distinct paths (a
/// tree diff lists each changed file once).
pub open spec fn wf_events(events: Seq<DiffEvent>) -> bool {
    &&& forall|j: int|
        (0 <= j < events.len() && (#[trigger] events[j]) matches DiffEvent::Line { .. })
            ==> exists|k: int| 0 <= k < j && is_file_header(#[trigger] events[k])
    &&& forall|j: int, k: int|
        0 <= j < k < events.len() && is_file_header(events[j]) && is_file_header(events[k])
            ==> header_path(events[j]) != header_path(events[k])
}

/// The number of hunk lines with origin `o`.
pub open spec fn count_origin(events: Seq<DiffEvent>, o: char) -> nat
    decreases events.len(),
{
    if events.len() == 0 {
        0
    } else {
        count_origin(events.drop_last(), o) + if events.last() matches DiffEvent::Line { origin }
            && origin == o {
            1nat
        } else {
            0nat
        }
    }
}

/// The sum of the insertion counts of accumulated entries.
pub open spec fn sum_ins(s: Seq<ChangeModel>) -> nat
    decreases s.len(),
{
    if s.len() == 0 {
        0
    } else {
        sum_ins(s.drop_last()) + s.last().ins
    }
}

/// The sum of the deletion counts of accumulated entries.
pub open spec fn sum_del(s: Seq<ChangeModel>) -> nat
    decreases s.len(),
{
    if s.len() == 0 {
        0
    } else {
        sum_del(s.drop_last()) + s.last().del
    }
}

proof fn lemma_sum_update(s: Seq<ChangeModel>, i: int, e: ChangeModel)
    requires
        0 <= i < s.len(),
    ensures
        sum_ins(s.update(i, e)) + s[i].ins == sum_ins(s) + e.ins,
        sum_del(s.update(i, e)) + s[i].del == sum_del(s) + e.del,
    decreases s.len(),
{
    if i == s.len() - 1 {
        assert(s.update(i, e).drop_last() =~= s.drop_last());
    } else {
        assert(s.update(i, e).drop_last() =~= s.drop_last().update(i, e));
        lemma_sum_update(s.drop_last(), i, e);
    }
}

proof fn lemma_sum_push(s: Seq<ChangeModel>, e: ChangeModel)
    ensures
        sum_ins(s.push(e)) == sum_ins(s) + e.ins,
        sum_del(s.push(e)) == sum_del(s) + e.del,
{
    assert(s.push(e).drop_last() =~= s);
}

/// Replacing an entry by one with the same path keeps the path set.
proof fn lemma_upsert_paths(s: Seq<ChangeModel>, i: int, e: ChangeModel, q: Seq<char>)
    requires
        0 <= i < s.len(),
        s[i].path == e.path,
    ensures
        has_path(s.update(i, e), q) <==> has_path(s, q),
{
    if has_path(s, q) {
        let j = choose|j: int| 0 <= j < s.len() && s[j].path == q;
        if j == i {
            assert(s.update(i, e)[i].path == q);
        } else {
            assert(s.update(i, e)[j].path == q);
        }
    }
    if has_path(s.update(i, e), q) {
        let j = choose|j: int| 0 <= j < s.update(i, e).len() && s.update(i, e)[j].path == q;
        assert(s[j].path == q);
    }
}

/// Appending an entry adds its path to the path set.
proof fn lemma_push_paths(s: Seq<ChangeModel>, e: ChangeModel, q: Seq<char>)
    ensures
        has_path(s.push(e), q) <==> has_path(s, q) || q == e.path,
{
    if has_path(s, q) {
        let j = choose|j: int| 0 <= j < s.len() && s[j].path == q;
        assert(s.push(e)[j].path == q);
    }
    if q == e.path {
        assert(s.push(e)[s.len() as int].path == q);
    }
    if has_path(s.push(e), q) {
        let j = choose|j: int| 0 <= j < s.push(e).len() && s.push(e)[j].path == q;
        if j < s.len() {
            assert(s[j].path == q);
        }
    }
}

/// Invariants of the fold, for any event stream: the entry paths are
/// exactly the header paths seen, they stay pairwise distinct, and once a
/// header was seen the current path has an entry.
pub proof fn lemma_fold_inv(events: Seq<DiffEvent>)
    ensures
        forall|q: Seq<char>|
            has_path(fold_events(events).entries, q) <==> exists|k: int|
                0 <= k < events.len() && is_file_header(#[trigger] events[k]) && header_path(
                    events[k],
                ) == q,
        distinct_model_paths(fold_events(events).entries),
        (exists|k: int| 0 <= k < events.len() && is_file_header(#[trigger] events[k]))
            ==> has_path(fold_events(events).entries, fold_events(events).current),
    decreases events.len(),
{
    if events.len() > 0 {
        let prefix = events.drop_last();
        lemma_fold_inv(prefix);
        let st = fold_events(prefix);
        let next = fold_events(events);
        let ev = events.last();
        let last = events.len() - 1;
        assert(forall|k: int| 0 <= k < prefix.len() ==> events[k] == prefix[k]);
        if is_file_header(ev) {
            let pv = header_path(ev);
            let e = ChangeModel { path: pv, status: ev->status, ins: 0, del: 0 };
            assert forall|q: Seq<char>|
                has_path(next.entries, q) <==> has_path(st.entries, q) || q == pv by {
                if has_path(st.entries, pv) {
                    let i = path_index(st.entries, pv);
                    lemma_upsert_paths(st.entries, i, e, q);
                } else {
                    lemma_push_paths(st.entries, e, q);
                }
            }
            // the path set matches the headers seen
            assert forall|q: Seq<char>| has_path(next.entries, q) implies exists|k: int|
                0 <= k < events.len() && is_file_header(#[trigger] events[k]) && header_path(
                    events[k],
                ) == q by {
                if q == pv {
                    assert(is_file_header(events[last]) && header_path(events[last]) == q);
                } else {
                    let k = choose|k: int|
                        0 <= k < prefix.len() && is_file_header(#[trigger] prefix[k])
                            && header_path(prefix[k]) == q;
                    assert(is_file_header(events[k]) && header_path(events[k]) == q);
                }
            }
            assert forall|q: Seq<char>|
                (exists|k: int|
                    0 <= k < events.len() && is_file_header(#[trigger] events[k]) && header_path(
                        events[k],
                    ) == q) implies has_path(next.entries, q) by {
                let k = choose|k: int|
                    0 <= k < events.len() && is_file_header(#[trigger] events[k]) && header_path(
                        events[k],
                    ) == q;
                if k < last {
                    assert(is_file_header(prefix[k]) && header_path(prefix[k]) == q);
                }
            }
            // distinctness is preserved by both upsert and push
            if has_path(st.entries, pv) {
                let i = path_index(st.entries, pv);
                assert(forall|k: int|
                    0 <= k < next.entries.len() ==> next.entries[k].path == st.entries[k].path);
            }
            assert(distinct_model_paths(next.entries));
            assert(has_path(next.entries, next.current));
        } else {
            // the state's path set and the headers seen are both unchanged
            assert(!is_file_header(ev));
            assert forall|q: Seq<char>|
                has_path(next.entries, q) <==> has_path(st.entries, q) by {
                if ev is Line && has_path(st.entries, st.current) && (ev->origin == '+'
                    || ev->origin == '-') {
                    let i = path_index(st.entries, st.current);
                    let e0 = st.entries[i];
                    if ev->origin == '+' {
                        lemma_upsert_paths(st.entries, i, ChangeModel { ins: e0.ins + 1, ..e0 }, q);
                    } else {
                        lemma_upsert_paths(st.entries, i, ChangeModel { del: e0.del + 1, ..e0 }, q);
                    }
                }
            }
            assert forall|q: Seq<char>|
                (exists|k: int|
                    0 <= k < events.len() && is_file_header(#[trigger] events[k]) && header_path(
                        events[k],
                    ) == q) implies has_path(next.entries, q) by {
                let k = choose|k: int|
                    0 <= k < events.len() && is_file_header(#[trigger] events[k]) && header_path(
                        events[k],
                    ) == q;
                assert(k < last);
                assert(is_file_header(prefix[k]) && header_path(prefix[k]) == q);
            }
            assert forall|q: Seq<char>| has_path(next.entries, q) implies exists|k: int|
                0 <= k < events.len() && is_file_header(#[trigger] events[k]) && header_path(
                    events[k],
                ) == q by {
                let k = choose|k: int|
                    0 <= k < prefix.len() && is_file_header(#[trigger] prefix[k]) && header_path(
                        prefix[k],
                    ) == q;
                assert(is_file_header(events[k]) && header_path(events[k]) == q);
            }
            if ev is Line && has_path(st.entries, st.current) {
                let i = path_index(st.entries, st.current);
                assert(forall|k: int|
                    0 <= k < next.entries.len() ==> next.entries[k].path == st.entries[k].path);
            }
            assert(distinct_model_paths(next.entries));
            if exists|k: int| 0 <= k < events.len() && is_file_header(#[trigger] events[k]) {
                let k = choose|k: int| 0 <= k < events.len() && is_file_header(#[trigger] events[k]);
                assert(k < last && is_file_header(prefix[k]));
                assert(has_path(st.entries, st.current));
                assert(next.current == st.current);
                assert(has_path(next.entries, next.current));
            }
        }
    }
}

/// The diff fold accounts for every hunk line: over a well-formed event
/// stream, the per-file insertion counts sum to the number of added
/// lines, and the deletion counts to the number of removed lines.
pub proof fn lemma_fold_line_totals(events: Seq<DiffEvent>)
    requires
        wf_events(events),
    ensures
        sum_ins(fold_events(events).entries) == count_origin(events, '+'),
        sum_del(fold_events(events).entries) == count_origin(events, '-'),
    decreases events.len(),
{
    if events.len() > 0 {
        let prefix = events.drop_last();
        assert(forall|k: int| 0 <= k < prefix.len() ==> events[k] == prefix[k]);
        assert(wf_events(prefix));
        lemma_fold_line_totals(prefix);
        lemma_fold_inv(prefix);
        let st = fold_events(prefix);
        let ev = events.last();
        match ev {
            DiffEvent::File { path, status } => {
                match path {
                    Option::Some(p) => {
                        // A header's path is new: headers are distinct, and the
                        // entry paths are exactly the headers seen so far.
                        assert(is_file_header(ev) && header_path(ev) == p@);
                        assert(!has_path(st.entries, p@)) by {
                            if has_path(st.entries, p@) {
                                let k = choose|k: int|
                                    0 <= k < prefix.len() && is_file_header(#[trigger] prefix[k])
                                        && header_path(prefix[k]) == p@;
                                assert(events[k] == prefix[k]);
                                assert(header_path(events[k]) == header_path(
                                    events[events.len() - 1],
                                ));
                            }
                        }
                        lemma_sum_push(
                            st.entries,
                            ChangeModel { path: p@, status: status, ins: 0, del: 0 },
                        );
                    },
                    Option::None => {
                        assert(fold_events(events) == st);
                    },
                }
            },
            DiffEvent::Line { origin } => {
                // Some header precedes this line, so the current path has an
                // entry and the line is counted there.
                assert(exists|k: int|
                    0 <= k < events.len() - 1 && is_file_header(#[trigger] events[k]));
                let k = choose|k: int|
                    0 <= k < events.len() - 1 && is_file_header(#[trigger] events[k]);
                assert(is_file_header(prefix[k]));
                assert(has_path(st.entries, st.current));
                let i = path_index(st.entries, st.current);
                assert(0 <= i < st.entries.len() && st.entries[i].path == st.current);
                let e = st.entries[i];
                if origin == '+' {
                    lemma_sum_update(st.entries, i, ChangeModel { ins: e.ins + 1, ..e });
                } else if origin == '-' {
                    lemma_sum_update(st.entries, i, ChangeModel { del: e.del + 1, ..e });
                }
            },
        }
    }
}

/// With distinct paths, `path_index` is the one index holding the path.
pub proof fn lemma_path_index_unique(s: Seq<ChangeModel>, i: int)
    requires
        distinct_model_paths(s),
        0 <= i < s.len(),
    ensures
        path_index(s, s[i].path) == i,
{
    assert(has_path(s, s[i].path));
    let j = path_index(s, s[i].path);
}

/// The position of the change entry holding path `p`, if there is one.
fn change_index(changes: &Vec<FileChange>, p: &str) -> (r: Option<usize>)
    ensures
        match r {
            Some(i) => i < changes@.len() && changes@[i as int].path@ == p@,
            None => forall|i: int| 0 <= i < changes@.len() ==> changes@[i].path@ != p@,
        },
{
    let n = changes.len();
    let mut i: usize = 0;
    while i < n
        invariant
            n == changes@.len(),
            i <= n,
            forall|j: int| 0 <= j < i ==> changes@[j].path@ != p@,
        decreases n - i,
    {
        if crate::order::str_eq(changes[i].path.as_str(), p) {
            return Some(i);
        }
        i = i + 1;
    }
    None
}

/// Fold a commit's diff events into its per-file change list. The result
/// carries exactly the fold's entries, in order of first appearance, with
/// pairwise distinct paths.
pub fn fold_diff_events(events: &Vec<DiffEvent>) -> (r: Vec<FileChange>)
    requires
        events@.len() < usize::MAX,
    ensures
        changes_model(r@) == fold_events(events@).entries,
        forall|i: int, j: int| 0 <= i < j < r@.len() ==> r@[i].path@ != r@[j].path@,
{
    let n = events.len();
    let mut changes: Vec<FileChange> = Vec::new();
    let mut cur: Option<usize> = None;
    let mut j: usize = 0;
    proof {
        assert(events@.take(0) =~= Seq::<DiffEvent>::empty());
        assert(changes_model(changes@) =~= fold_events(events@.take(0)).entries);
    }
    while j < n
        invariant
            n == events@.len(),
            n < usize::MAX,
            j <= n,
            changes_model(changes@) == fold_events(events@.take(j as int)).entries,
            match cur {
                Some(i) => i < changes@.len() && changes@[i as int].path@ == fold_events(
                    events@.take(j as int),
                ).current,
                None => !has_path(
                    fold_events(events@.take(j as int)).entries,
                    fold_events(events@.take(j as int)).current,
                ),
            },
            forall|k: int|
                0 <= k < changes@.len() ==> (#[trigger] changes@[k]).insertions <= j
                    && changes@[k].deletions <= j,
        decreases n - j,
    {
        let ghost pre = events@.take(j as int);
        let ghost st = fold_events(pre);
        proof {
            assert(events@.take(j + 1).drop_last() =~= pre);
            assert(events@.take(j + 1).last() == events@[j as int]);
            lemma_fold_inv(pre);
        }
        let ev = &events[j];
        match ev {
            DiffEvent::File { path, status } => {
                match path {
                    Some(p) => {
                        proof {
                            if has_path(st.entries, p@) {
                                let i = choose|i: int|
                                    0 <= i < st.entries.len() && st.entries[i].path == p@;
                                assert(changes@[i].path@ == p@);
                            }
                            if exists|i: int| 0 <= i < changes@.len() && changes@[i].path@ == p@ {
                                let i = choose|i: int|
                                    0 <= i < changes@.len() && changes@[i].path@ == p@;
                                assert(st.entries[i].path == p@);
                            }
                        }
                        let fc = FileChange {
                            path: p.clone(),
                            status: *status,
                            insertions: 0,
                            deletions: 0,
                        };
                        match change_index(&changes, p.as_str()) {
                            Some(i) => {
                                proof {
                                    assert(changes_model(changes@)[i as int].path == p@);
                                    lemma_path_index_unique(st.entries, i as int);
                                }
                                changes[i] = fc;
                                cur = Some(i);
                                proof {
                                    assert(changes_model(changes@) =~= st.entries.update(
                                        i as int,
                                        change_model(fc),
                                    ));
                                }
                            },
                            None => {
                                proof {
                                    assert(!has_path(st.entries, p@));
                                }
                                changes.push(fc);
                                cur = Some(changes.len() - 1);
                                proof {
                                    assert(changes_model(changes@) =~= st.entries.push(
                                        change_model(fc),
                                    ));
                                }
                            },
                        }
                    },
                    None => {
                        proof {
                            assert(fold_events(events@.take(j + 1)) == st);
                        }
                    },
                }
            },
            DiffEvent::Line { origin } => {
                match cur {
                    Some(i) => {
                        proof {
                            assert(changes_model(changes@)[i as int].path == st.current);
                            assert(has_path(st.entries, st.current));
                            lemma_path_index_unique(st.entries, i as int);
                        }
                        if *origin == '+' {
                            let v = changes[i].insertions;
                            changes[i].insertions = v + 1;
                            proof {
                                assert(changes_model(changes@) =~= fold_events(
                                    events@.take(j + 1),
                                ).entries);
                            }
                        } else if *origin == '-' {
                            let v = changes[i].deletions;
                            changes[i].deletions = v + 1;
                            proof {
                                assert(changes_model(changes@) =~= fold_events(
                                    events@.take(j + 1),
                                ).entries);
                            }
                        } else {
                            proof {
                                assert(fold_events(events@.take(j + 1)) == st);
                            }
                        }
                    },
                    None => {
                        proof {
                            assert(fold_events(events@.take(j + 1)) == st);
                        }
                    },
                }
            },
        }
        j = j + 1;
    }
    proof {
        assert(events@.take(n as int) =~= events@);
        lemma_fold_inv(events@);
        assert forall|i: int, k: int|
            0 <= i < k < changes@.len() implies changes@[i].path@ != changes@[k].path@ by {
            assert(changes_model(changes@)[i].path == changes@[i].path@);
            assert(changes_model(changes@)[k].path == changes@[k].path@);
        }
    }
    changes
}

/// Assemble one commit record from its metadata and its diff events.
pub fn build_commit(
    hash: String,
    author_name: String,
    author_email: String,
    timestamp: i64,
    message: String,
    events: &Vec<DiffEvent>,
) -> (c: CommitInfo)
    requires
        events@.len() < usize::MAX,
    ensures
        c.hash == hash,
        c.author_name == author_name,
        c.author_email == author_email,
        c.timestamp == timestamp,
        c.message == message,
        changes_model(c.file_changes@) == fold_events(events@).entries,
        wf_commit(c),
{
    let file_changes = fold_diff_events(events);
    CommitInfo { hash, author_name, author_email, timestamp, message, file_changes }
}

} // verus!
