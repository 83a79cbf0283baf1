use whisper::differ::diff_snapshots;
use whisper::records::ChangeStatus;
use whisper::repo::{Snapshot, TreeEntry};

fn entry(path: &str, content: u64) -> TreeEntry {
    TreeEntry { path: path.to_string(), content }
}

fn snap(entries: Vec<TreeEntry>) -> Snapshot {
    Snapshot { entries }
}

/// Against the empty baseline of a root commit, every path is reported
/// `Added` and nothing else appears.
#[test]
fn root_diff_reports_every_path_added() {
    let old = snap(vec![]);
    let new = snap(vec![entry("a.rs", 1), entry("b/c.rs", 2), entry("d", 3)]);
    let changes = diff_snapshots(&old, &new);
    assert_eq!(changes.len(), 3);
    let mut paths: Vec<&str> = changes.iter().map(|c| c.file_path.as_str()).collect();
    paths.sort();
    assert_eq!(paths, vec!["a.rs", "b/c.rs", "d"]);
    for c in &changes {
        assert_eq!(c.status, ChangeStatus::Added);
    }
}

/// The diff is exactly the set of paths whose existence or content
/// differs, with the matching status for each direction.
#[test]
fn diff_matches_every_direction() {
    let old = snap(vec![
        entry("kept", 1),
        entry("changed", 2),
        entry("removed", 3),
    ]);
    let new = snap(vec![
        entry("kept", 1),
        entry("changed", 20),
        entry("fresh", 4),
    ]);
    let changes = diff_snapshots(&old, &new);
    assert_eq!(changes.len(), 3);
    assert_eq!(changes[0].file_path, "changed");
    assert_eq!(changes[0].status, ChangeStatus::Modified);
    assert_eq!(changes[1].file_path, "fresh");
    assert_eq!(changes[1].status, ChangeStatus::Added);
    assert_eq!(changes[2].file_path, "removed");
    assert_eq!(changes[2].status, ChangeStatus::Deleted);
}

/// Identical snapshots produce an empty delta.
#[test]
fn identical_snapshots_produce_no_changes() {
    let old = snap(vec![entry("a", 1), entry("b", 2)]);
    let new = snap(vec![entry("a", 1), entry("b", 2)]);
    assert!(diff_snapshots(&old, &new).is_empty());
}

/// Order: changed and added paths come in new-snapshot order, then
/// deletions in old-snapshot order.
#[test]
fn diff_enumeration_order() {
    let old = snap(vec![entry("p", 1), entry("q", 2), entry("r", 3)]);
    let new = snap(vec![entry("s", 9), entry("p", 5)]);
    let changes = diff_snapshots(&old, &new);
    let listed: Vec<(&str, ChangeStatus)> = changes
        .iter()
        .map(|c| (c.file_path.as_str(), c.status))
        .collect();
    assert_eq!(
        listed,
        vec![
            ("s", ChangeStatus::Added),
            ("p", ChangeStatus::Modified),
            ("q", ChangeStatus::Deleted),
            ("r", ChangeStatus::Deleted),
        ]
    );
}
