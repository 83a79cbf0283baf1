use whisper::assembler::GitAnalyzer;
use whisper::records::ChangeStatus;
use whisper::repo::{CommitMeta, ExtractError, RepoModel, Snapshot, TreeEntry};
use whisper::storage::CommitStore;
use whisper::walker::{walk, walk_from};

fn entry(path: &str, content: u64) -> TreeEntry {
    TreeEntry { path: path.to_string(), content }
}

fn meta(
    hash: &str,
    message: &str,
    author: Option<&str>,
    timestamp: i64,
    parents: Vec<usize>,
    entries: Vec<TreeEntry>,
) -> CommitMeta {
    CommitMeta {
        hash: hash.to_string(),
        message: message.to_string(),
        author: author.map(|a| a.to_string()),
        timestamp,
        parents,
        snapshot: Snapshot { entries },
    }
}

/// Root commit A adds x and y; B modifies x and adds z; C (head)
/// deletes y. Extraction returns [C, B, A] with exactly those deltas,
/// and storing then querying by hash returns the exact recorded values.
#[test]
fn end_to_end_three_commit_history() {
    let a = meta(
        "aaaaaaa0",
        "add x and y",
        Some("Ada"),
        100,
        vec![],
        vec![entry("x", 1), entry("y", 2)],
    );
    let b = meta(
        "bbbbbbb1",
        "modify x, add z",
        Some("Ada"),
        200,
        vec![0],
        vec![entry("x", 10), entry("y", 2), entry("z", 3)],
    );
    let c = meta(
        "ccccccc2",
        "delete y",
        Some("Ada"),
        300,
        vec![1],
        vec![entry("x", 10), entry("z", 3)],
    );
    let analyzer = GitAnalyzer::new(vec![a, b, c], Some(2)).unwrap();
    let commits = analyzer.get_commits();
    assert_eq!(commits.len(), 3);

    assert_eq!(commits[0].hash, "ccccccc2");
    assert_eq!(commits[0].message, "delete y");
    assert_eq!(commits[0].author, "Ada");
    assert_eq!(commits[0].timestamp, 300);
    assert_eq!(commits[0].files_changed.len(), 1);
    assert_eq!(commits[0].files_changed[0].file_path, "y");
    assert_eq!(commits[0].files_changed[0].status, ChangeStatus::Deleted);

    assert_eq!(commits[1].hash, "bbbbbbb1");
    assert_eq!(commits[1].files_changed.len(), 2);
    assert_eq!(commits[1].files_changed[0].file_path, "x");
    assert_eq!(commits[1].files_changed[0].status, ChangeStatus::Modified);
    assert_eq!(commits[1].files_changed[1].file_path, "z");
    assert_eq!(commits[1].files_changed[1].status, ChangeStatus::Added);

    assert_eq!(commits[2].hash, "aaaaaaa0");
    assert_eq!(commits[2].files_changed.len(), 2);
    let mut root_paths: Vec<&str> = commits[2]
        .files_changed
        .iter()
        .map(|f| f.file_path.as_str())
        .collect();
    root_paths.sort();
    assert_eq!(root_paths, vec!["x", "y"]);
    for f in &commits[2].files_changed {
        assert_eq!(f.status, ChangeStatus::Added);
    }

    let mut store = CommitStore::new();
    store.save_commits(&commits);
    assert_eq!(store.len(), 3);
    for c in &commits {
        let found = store.find_by_hash(&c.hash).unwrap();
        assert_eq!(&found, c);
    }
}

/// The walker yields exactly the reachable set, each commit once, even
/// through a merge commit, and leaves unreachable commits out.
#[test]
fn walker_reachable_set_through_merge() {
    let root = meta("h0", "root", None, 10, vec![], vec![]);
    let left = meta("h1", "left", None, 20, vec![0], vec![]);
    let right = meta("h2", "right", None, 21, vec![0], vec![]);
    let merge = meta("h3", "merge", None, 30, vec![1, 2], vec![]);
    let stray = meta("h4", "stray", None, 40, vec![0], vec![]);
    let model = RepoModel::new(vec![root, left, right, merge, stray], Some(3)).unwrap();
    let ids = walk_from(&model, 3);
    assert_eq!(ids.len(), 4);
    let mut seen = ids.clone();
    seen.sort();
    assert_eq!(seen, vec![0, 1, 2, 3]);
}

/// Walk order is non-increasing by commit timestamp.
#[test]
fn walker_order_non_increasing_by_timestamp() {
    let a = meta("h0", "a", None, 50, vec![], vec![]);
    let b = meta("h1", "b", None, 300, vec![0], vec![]);
    let c = meta("h2", "c", None, 120, vec![1], vec![]);
    let d = meta("h3", "d", None, 120, vec![2, 0], vec![]);
    let model = RepoModel::new(vec![a, b, c, d], Some(3)).unwrap();
    let ids = walk(&model);
    assert_eq!(ids.len(), 4);
    for w in ids.windows(2) {
        let t0 = model.commits[w[0]].timestamp;
        let t1 = model.commits[w[1]].timestamp;
        assert!(t0 >= t1);
    }
    assert_eq!(ids[3], 0);
}

/// An empty or unborn repository yields an empty sequence, not an error.
#[test]
fn unborn_repository_yields_nothing() {
    let analyzer = GitAnalyzer::new(vec![], None).unwrap();
    let commits = analyzer.get_commits();
    assert!(commits.is_empty());
}

/// A missing author name falls back to the sentinel.
#[test]
fn missing_author_becomes_unknown() {
    let a = meta("h0", "no author", None, 5, vec![], vec![entry("f", 9)]);
    let analyzer = GitAnalyzer::new(vec![a], Some(0)).unwrap();
    let commits = analyzer.get_commits();
    assert_eq!(commits[0].author, "Unknown");
}

/// A dangling parent reference is corrupt object data: the run aborts
/// with an object resolution failure.
#[test]
fn dangling_parent_is_object_resolution_error() {
    let a = meta("h0", "broken", None, 5, vec![7], vec![]);
    let err = RepoModel::new(vec![a], Some(0)).unwrap_err();
    assert!(matches!(err, ExtractError::ObjectResolutionError { .. }));
}

/// A dangling head reference aborts the same way.
#[test]
fn dangling_head_is_object_resolution_error() {
    let a = meta("h0", "ok", None, 5, vec![], vec![]);
    let err = GitAnalyzer::new(vec![a], Some(3)).unwrap_err();
    assert!(matches!(err, ExtractError::ObjectResolutionError { .. }));
}

/// A snapshot listing one path twice cannot come from an intact tree.
#[test]
fn duplicate_path_is_object_resolution_error() {
    let a = meta("h0", "dup", None, 5, vec![], vec![entry("f", 1), entry("f", 2)]);
    let err = RepoModel::new(vec![a], Some(0)).unwrap_err();
    assert!(matches!(err, ExtractError::ObjectResolutionError { .. }));
}

/// Two commits sharing one hash cannot come from a content-addressed
/// store.
#[test]
fn duplicate_hash_is_object_resolution_error() {
    let a = meta("same", "one", None, 5, vec![], vec![]);
    let b = meta("same", "two", None, 6, vec![0], vec![]);
    let err = RepoModel::new(vec![a, b], Some(1)).unwrap_err();
    assert!(matches!(err, ExtractError::ObjectResolutionError { .. }));
}

/// The error description names the kind and keeps the detail.
#[test]
fn extract_error_description() {
    let e = ExtractError::RepositoryNotFound {
        detail: "no repository at /tmp/nowhere".to_string(),
    };
    assert_eq!(
        e.describe(),
        "repository not found: no repository at /tmp/nowhere"
    );
    let e = ExtractError::ObjectResolutionError {
        detail: "truncated object".to_string(),
    };
    assert_eq!(e.describe(), "object resolution failed: truncated object");
}
