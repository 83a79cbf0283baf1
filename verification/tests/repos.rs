use whisper::workspace::{RepoEntry, Workspace};

#[test]
fn empty_workspace_has_no_last_repo() {
    let w = Workspace::new();
    assert!(w.get_last_repo().is_none());
    assert!(w.list_repos().is_empty());
}

#[test]
fn add_then_get_last() {
    let mut w = Workspace::new();
    w.add_repo(
        "thing".to_string(),
        "/tmp/thing".to_string(),
        Some("https://example.org/user/thing.git".to_string()),
    );
    w.add_repo("other".to_string(), "/tmp/other".to_string(), None);
    let last = w.get_last_repo().unwrap();
    assert_eq!(last.name, "other");
    assert_eq!(last.path, "/tmp/other");
    assert_eq!(last.url, None);
    let all = w.list_repos();
    assert_eq!(all.len(), 2);
    assert_eq!(all[0].name, "thing");
    assert_eq!(
        all[0].url.as_deref(),
        Some("https://example.org/user/thing.git")
    );
}

#[test]
fn resolve_prefers_explicit_path() {
    let mut w = Workspace::new();
    assert_eq!(
        w.resolve_repo_path(Some("/given".to_string())),
        Some("/given".to_string())
    );
    assert_eq!(w.resolve_repo_path(None), None);
    w.add_repo("thing".to_string(), "/tmp/thing".to_string(), None);
    assert_eq!(w.resolve_repo_path(None), Some("/tmp/thing".to_string()));
    assert_eq!(
        w.resolve_repo_path(Some("/given".to_string())),
        Some("/given".to_string())
    );
}

#[test]
fn workspace_from_loaded_entries() {
    let entries = vec![
        RepoEntry {
            name: "a".to_string(),
            path: "/srv/a".to_string(),
            url: None,
            added_at: 1000,
        },
        RepoEntry {
            name: "b".to_string(),
            path: "/srv/b".to_string(),
            url: None,
            added_at: 2000,
        },
    ];
    let w = Workspace::from_entries(entries.clone());
    assert_eq!(w.list_repos(), entries);
    assert_eq!(w.get_last_repo().unwrap(), entries[1]);
}
