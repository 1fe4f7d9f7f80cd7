//! Tests of the history extractor's verified core: folding diff events
//! into per-file change lists.

use repo_metrics::order::{str_eq, str_lt};
use repo_metrics::repo::{build_commit, fold_diff_events, DiffEvent, FileStatus};
use repo_metrics::strmap::StrMap;

fn file_ev(path: &str, status: FileStatus) -> DiffEvent {
    DiffEvent::File { path: Some(path.to_string()), status }
}

fn line_ev(origin: char) -> DiffEvent {
    DiffEvent::Line { origin }
}

#[test]
fn fold_counts_added_and_removed_lines() {
    let events = vec![
        file_ev("a.txt", FileStatus::Added),
        line_ev('+'),
        line_ev('+'),
        line_ev(' '),
        line_ev('-'),
        file_ev("b.txt", FileStatus::Modified),
        line_ev('+'),
        line_ev('H'),
    ];
    let changes = fold_diff_events(&events);
    assert_eq!(changes.len(), 2);
    assert_eq!(changes[0].path, "a.txt");
    assert!(matches!(changes[0].status, FileStatus::Added));
    assert_eq!(changes[0].insertions, 2);
    assert_eq!(changes[0].deletions, 1);
    assert_eq!(changes[1].path, "b.txt");
    assert_eq!(changes[1].insertions, 1);
    assert_eq!(changes[1].deletions, 0);
}

#[test]
fn fold_ignores_lines_before_any_file() {
    let events = vec![line_ev('+'), line_ev('-'), file_ev("a.txt", FileStatus::Added), line_ev('+')];
    let changes = fold_diff_events(&events);
    assert_eq!(changes.len(), 1);
    assert_eq!(changes[0].insertions, 1);
    assert_eq!(changes[0].deletions, 0);
}

#[test]
fn fold_drops_headers_without_a_path() {
    let events = vec![
        file_ev("a.txt", FileStatus::Added),
        line_ev('+'),
        DiffEvent::File { path: None, status: FileStatus::Other },
        line_ev('+'),
    ];
    let changes = fold_diff_events(&events);
    // the pathless header is dropped; its lines still land on the
    // previous current file
    assert_eq!(changes.len(), 1);
    assert_eq!(changes[0].path, "a.txt");
    assert_eq!(changes[0].insertions, 2);
}

#[test]
fn fold_collapses_a_repeated_path_to_its_last_header() {
    let events = vec![
        file_ev("a.txt", FileStatus::Renamed),
        line_ev('+'),
        file_ev("a.txt", FileStatus::Modified),
        line_ev('+'),
    ];
    let changes = fold_diff_events(&events);
    assert_eq!(changes.len(), 1);
    assert!(matches!(changes[0].status, FileStatus::Modified));
    // the second header resets the counts
    assert_eq!(changes[0].insertions, 1);
}

#[test]
fn fold_of_empty_diff_is_empty() {
    let changes = fold_diff_events(&Vec::new());
    assert_eq!(changes.len(), 0);
}

#[test]
fn build_commit_carries_metadata_and_changes() {
    let events = vec![file_ev("src/main.rs", FileStatus::Added), line_ev('+')];
    let c = build_commit(
        "abc123".to_string(),
        "Ada".to_string(),
        "ada@example.com".to_string(),
        1700000000,
        "initial".to_string(),
        &events,
    );
    assert_eq!(c.hash, "abc123");
    assert_eq!(c.author_name, "Ada");
    assert_eq!(c.author_email, "ada@example.com");
    assert_eq!(c.timestamp, 1700000000);
    assert_eq!(c.message, "initial");
    assert_eq!(c.file_changes.len(), 1);
    assert_eq!(c.file_changes[0].path, "src/main.rs");
    assert_eq!(c.file_changes[0].insertions, 1);
}

#[test]
fn str_order_is_lexicographic() {
    assert!(str_lt("a.txt", "b.txt"));
    assert!(!str_lt("b.txt", "a.txt"));
    assert!(!str_lt("a.txt", "a.txt"));
    assert!(str_lt("a", "a.txt"));
    assert!(str_lt("X", "Y"));
    assert!(str_eq("a.txt", "a.txt"));
    assert!(!str_eq("a.txt", "a.txu"));
    assert!(!str_eq("a", "a.txt"));
}

#[test]
fn strmap_inserts_and_looks_up() {
    let mut m: StrMap<usize> = StrMap::new();
    assert!(m.get("k").is_none());
    m.insert("k", 3);
    m.insert("l", 5);
    assert_eq!(*m.get("k").unwrap(), 3);
    assert_eq!(*m.get("l").unwrap(), 5);
    m.insert("k", 7);
    assert_eq!(*m.get("k").unwrap(), 7);
    assert_eq!(m.len(), 2);
}
