//! Tests of the metrics engine over hand-built commit sequences,
//! including the three-commit end-to-end scenario.

use repo_metrics::analysis::coupling;
use repo_metrics::analysis::decay;
use repo_metrics::analysis::derived;
use repo_metrics::analysis::metrics;
use repo_metrics::analysis::ownership;
use repo_metrics::repo::{CommitInfo, FileChange, FileStatus};

fn change(path: &str, status: FileStatus, insertions: usize, deletions: usize) -> FileChange {
    FileChange { path: path.to_string(), status, insertions, deletions }
}

fn commit(hash: &str, author: &str, timestamp: i64, changes: Vec<FileChange>) -> CommitInfo {
    CommitInfo {
        hash: hash.to_string(),
        author_name: author.to_string(),
        author_email: format!("{}@example.com", author),
        timestamp,
        message: String::new(),
        file_changes: changes,
    }
}

/// The three-commit history, newest first as the traversal delivers it:
/// C3 modifies b.txt (author X, +1/-1); C2, by author Y, modifies a.txt
/// (+2/-1) and adds b.txt (+5/-0); C1 adds a.txt (author X, +10/-0).
fn scenario() -> Vec<CommitInfo> {
    vec![
        commit("c3", "X", 3000, vec![change("b.txt", FileStatus::Modified, 1, 1)]),
        commit(
            "c2",
            "Y",
            2000,
            vec![
                change("a.txt", FileStatus::Modified, 2, 1),
                change("b.txt", FileStatus::Added, 5, 0),
            ],
        ),
        commit("c1", "X", 1000, vec![change("a.txt", FileStatus::Added, 10, 0)]),
    ]
}

#[test]
fn scenario_ownership() {
    let commits = scenario();
    let owners = metrics::get_owners(&commits);
    let a = owners.get("a.txt").unwrap();
    assert_eq!(*a.get("X").unwrap(), 1);
    assert_eq!(*a.get("Y").unwrap(), 1);
    assert_eq!(a.len(), 2);
    let b = owners.get("b.txt").unwrap();
    assert_eq!(*b.get("X").unwrap(), 1);
    assert_eq!(*b.get("Y").unwrap(), 1);
    assert_eq!(b.len(), 2);
    assert_eq!(owners.len(), 2);
}

#[test]
fn scenario_coupling() {
    let commits = scenario();
    let coupled = metrics::get_coupling(&commits);
    // only C2 touches both files; the key is canonical
    assert_eq!(*coupled.get("a.txt", "b.txt").unwrap(), 1);
    assert!(coupled.get("b.txt", "a.txt").is_none());
    assert_eq!(coupled.entries.len(), 1);
}

#[test]
fn scenario_revision_counts() {
    let commits = scenario();
    let revs = metrics::get_revision_counts(&commits);
    assert_eq!(*revs.get("a.txt").unwrap(), 2);
    assert_eq!(*revs.get("b.txt").unwrap(), 2);
    assert_eq!(revs.len(), 2);
}

#[test]
fn scenario_line_changes() {
    let commits = scenario();
    let lines = metrics::get_line_changes(&commits);
    assert_eq!(*lines.get("a.txt").unwrap(), (12, 1));
    assert_eq!(*lines.get("b.txt").unwrap(), (6, 1));
}

#[test]
fn scenario_primary_owner_tie_break() {
    let commits = scenario();
    let owners = metrics::get_owners(&commits);
    let primary = metrics::get_primary_owners(&owners);
    // both files are tied between X and Y with one edit each; the
    // lexicographically smaller name wins deterministically
    assert_eq!(primary.get("a.txt").unwrap(), "X");
    assert_eq!(primary.get("b.txt").unwrap(), "X");
}

#[test]
fn scenario_timestamps() {
    let commits = scenario();
    let last_mod = metrics::get_files_last_modified(&commits);
    assert_eq!(*last_mod.get("a.txt").unwrap(), 2000);
    assert_eq!(*last_mod.get("b.txt").unwrap(), 3000);
    let last_active = metrics::get_user_last_active(&commits);
    assert_eq!(*last_active.get("X").unwrap(), 3000);
    assert_eq!(*last_active.get("Y").unwrap(), 2000);
}

#[test]
fn scenario_summary() {
    let commits = scenario();
    let s = metrics::get_summary(&commits);
    assert_eq!(s.commits, 3);
    assert_eq!(s.files, 2);
    assert_eq!(s.file_changes, 4);
    assert_eq!(s.authors, 2);
}

#[test]
fn coupling_enumerates_every_pair_once() {
    // one commit touching three files, given out of order
    let commits = vec![commit(
        "c1",
        "X",
        1000,
        vec![
            change("c.txt", FileStatus::Added, 1, 0),
            change("a.txt", FileStatus::Added, 1, 0),
            change("b.txt", FileStatus::Added, 1, 0),
        ],
    )];
    let coupled = coupling::get_coupling(&commits);
    assert_eq!(coupled.entries.len(), 3);
    assert_eq!(*coupled.get("a.txt", "b.txt").unwrap(), 1);
    assert_eq!(*coupled.get("a.txt", "c.txt").unwrap(), 1);
    assert_eq!(*coupled.get("b.txt", "c.txt").unwrap(), 1);
}

#[test]
fn coupling_accumulates_across_commits() {
    let both = || {
        vec![
            change("a.txt", FileStatus::Modified, 1, 0),
            change("b.txt", FileStatus::Modified, 1, 0),
        ]
    };
    let commits = vec![
        commit("c2", "X", 2000, both()),
        commit("c1", "X", 1000, both()),
    ];
    let coupled = coupling::get_coupling(&commits);
    assert_eq!(*coupled.get("a.txt", "b.txt").unwrap(), 2);
}

#[test]
fn concentration_is_an_exact_fraction() {
    let commits = vec![
        commit("c3", "X", 3000, vec![change("f.rs", FileStatus::Modified, 1, 0)]),
        commit("c2", "X", 2000, vec![change("f.rs", FileStatus::Modified, 1, 0)]),
        commit("c1", "Y", 1000, vec![change("f.rs", FileStatus::Added, 1, 0)]),
    ];
    let owners = ownership::get_owners(&commits);
    let primary = ownership::get_primary_owners(&owners);
    assert_eq!(primary.get("f.rs").unwrap(), "X");
    let conc = ownership::get_file_concentrations(&owners, &primary);
    assert_eq!(*conc.get("f.rs").unwrap(), (2, 3));
}

#[test]
fn concentration_of_a_sole_owner_is_one() {
    let commits = vec![commit("c1", "X", 1000, vec![change("f.rs", FileStatus::Added, 1, 0)])];
    let owners = derived::get_file_concentrations(
        &ownership::get_owners(&commits),
        &ownership::get_primary_owners(&ownership::get_owners(&commits)),
    );
    assert_eq!(*owners.get("f.rs").unwrap(), (1, 1));
}

#[test]
fn decay_at_half_the_horizon() {
    // a single owner: concentration 1/1; both ages exactly half the
    // 180-day horizon, so staleness and inactivity are 0.500 and the
    // score is 0.3 * 0.5 + 0.7 * 0.5 = 0.500
    let commits = vec![commit("c1", "X", 0, vec![change("f.rs", FileStatus::Added, 1, 0)])];
    let half = decay::DECAY_THRESHOLD / 2;
    let scores = decay::get_decay(&commits, half);
    assert_eq!(*scores.get("f.rs").unwrap(), 500);
}

#[test]
fn decay_is_clamped_at_one() {
    let commits = vec![commit("c1", "X", 0, vec![change("f.rs", FileStatus::Added, 1, 0)])];
    let scores = decay::get_decay(&commits, decay::DECAY_THRESHOLD * 3);
    assert_eq!(*scores.get("f.rs").unwrap(), decay::DECAY_SCALE);
}

#[test]
fn decay_of_a_fresh_file_is_zero() {
    let commits = vec![commit("c1", "X", 5000, vec![change("f.rs", FileStatus::Added, 1, 0)])];
    let scores = derived::get_decay(&commits, 5000);
    assert_eq!(*scores.get("f.rs").unwrap(), 0);
}

#[test]
fn decay_grows_with_the_reference_time() {
    let commits = vec![
        commit("c2", "Y", 1000, vec![change("g.rs", FileStatus::Added, 1, 0)]),
        commit("c1", "X", 0, vec![change("f.rs", FileStatus::Added, 3, 1)]),
    ];
    let day: i64 = 24 * 60 * 60;
    let early = decay::get_decay(&commits, 10 * day);
    let late = decay::get_decay(&commits, 90 * day);
    assert!(early.get("f.rs").unwrap() <= late.get("f.rs").unwrap());
    assert!(early.get("g.rs").unwrap() <= late.get("g.rs").unwrap());
    assert!(*late.get("f.rs").unwrap() <= decay::DECAY_SCALE);
}

#[test]
fn decay_scales_inactivity_by_concentration() {
    // f.rs is owned half-and-half; g.rs is owned outright. The owners
    // were last active at time zero, both files as well, so with a
    // reference time past the horizon: staleness 1.0 and inactivity 1.0,
    // and the concentrated file scores 0.3 + 0.7 > the shared file's
    // 0.3 + 0.35
    let commits = vec![
        commit("c3", "Z", 0, vec![change("g.rs", FileStatus::Added, 1, 0)]),
        commit("c2", "Y", 0, vec![change("f.rs", FileStatus::Modified, 1, 0)]),
        commit("c1", "X", 0, vec![change("f.rs", FileStatus::Added, 1, 0)]),
    ];
    let scores = decay::get_decay(&commits, decay::DECAY_THRESHOLD * 2);
    assert_eq!(*scores.get("g.rs").unwrap(), 1000);
    assert_eq!(*scores.get("f.rs").unwrap(), 650);
}

#[test]
fn last_active_keeps_the_first_encounter_per_author() {
    // newest first: the first commit seen for an author carries their
    // most recent timestamp
    let commits = vec![
        commit("c3", "X", 3000, vec![]),
        commit("c2", "X", 2000, vec![]),
        commit("c1", "Y", 1000, vec![]),
    ];
    let last = ownership::get_user_last_active(&commits);
    assert_eq!(*last.get("X").unwrap(), 3000);
    assert_eq!(*last.get("Y").unwrap(), 1000);
    assert_eq!(last.len(), 2);
}

#[test]
fn metrics_of_an_empty_history_are_empty() {
    let commits: Vec<CommitInfo> = Vec::new();
    assert_eq!(metrics::get_owners(&commits).len(), 0);
    assert_eq!(metrics::get_coupling(&commits).entries.len(), 0);
    assert_eq!(metrics::get_revision_counts(&commits).len(), 0);
    let s = metrics::get_summary(&commits);
    assert_eq!(s.commits, 0);
    assert_eq!(s.files, 0);
    assert_eq!(s.file_changes, 0);
    assert_eq!(s.authors, 0);
}
