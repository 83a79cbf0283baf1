use whisper::records::{ChangeStatus, Commit, FileChange};
use whisper::textgen::{
    commits_since, format_commit_history, format_commit_lines, is_repo_url, repo_name_from_url,
    response_text_or_default, service_outcome, str_contains, str_starts_with, truncate_commits,
};

fn commit(hash: &str, message: &str, files: Vec<(&str, ChangeStatus)>) -> Commit {
    Commit {
        hash: hash.to_string(),
        message: message.to_string(),
        author: "Ada".to_string(),
        timestamp: 7,
        files_changed: files
            .into_iter()
            .map(|(p, s)| FileChange { file_path: p.to_string(), status: s })
            .collect(),
    }
}

#[test]
fn brief_lines_exact_form() {
    let commits = vec![
        commit("1234567890abcdef", "add parser", vec![]),
        commit("fedcba0987654321", "fix lexer", vec![]),
    ];
    let text = format_commit_lines(&commits);
    assert_eq!(text, "- 1234567: add parser\n- fedcba0: fix lexer");
}

#[test]
fn brief_lines_of_nothing_is_empty() {
    let text = format_commit_lines(&vec![]);
    assert_eq!(text, "");
}

#[test]
fn history_text_exact_form() {
    let commits = vec![
        commit(
            "abc",
            "start",
            vec![("src/main.rs", ChangeStatus::Added)],
        ),
        commit(
            "def",
            "tweak",
            vec![
                ("src/main.rs", ChangeStatus::Modified),
                ("old.rs", ChangeStatus::Deleted),
            ],
        ),
    ];
    let text = format_commit_history(&commits);
    assert_eq!(
        text,
        "Commit History:\n\
         - abc: start\n  - src/main.rs (Added)\n\
         - def: tweak\n  - src/main.rs (Modified)\n  - old.rs (Deleted)\n"
    );
}

#[test]
fn history_text_of_nothing_is_header() {
    assert_eq!(format_commit_history(&vec![]), "Commit History:\n");
}

#[test]
fn status_labels() {
    assert_eq!(ChangeStatus::Added.label(), "Added");
    assert_eq!(ChangeStatus::Modified.label(), "Modified");
    assert_eq!(ChangeStatus::Deleted.label(), "Deleted");
    assert_eq!(ChangeStatus::Renamed.label(), "Renamed");
    assert_eq!(ChangeStatus::Typechange.label(), "Typechange");
    assert_eq!(ChangeStatus::Copied.label(), "Copied");
    assert_eq!(ChangeStatus::Unmodified.label(), "Unmodified");
}

#[test]
fn since_takes_prefix_before_reference() {
    let commits = vec![
        commit("c3", "newest", vec![]),
        commit("b2", "release v1.0.0 follow-up", vec![]),
        commit("a1", "tagged v1.0.0", vec![]),
        commit("90", "older", vec![]),
    ];
    let since = commits_since(&commits, &"v1.0.0".to_string());
    assert_eq!(since.len(), 1);
    assert_eq!(since[0].hash, "c3");
}

#[test]
fn since_matches_hash_prefix_too() {
    let commits = vec![
        commit("c3", "newest", vec![]),
        commit("b2f1", "mid", vec![]),
        commit("a1", "old", vec![]),
    ];
    let since = commits_since(&commits, &"b2".to_string());
    assert_eq!(since.len(), 1);
    let none_match = commits_since(&commits, &"zz".to_string());
    assert_eq!(none_match.len(), 3);
}

#[test]
fn truncate_keeps_first_records() {
    let commits = vec![
        commit("c3", "one", vec![]),
        commit("b2", "two", vec![]),
        commit("a1", "three", vec![]),
    ];
    let kept = truncate_commits(commits.clone(), 2);
    assert_eq!(kept.len(), 2);
    assert_eq!(kept[0].hash, "c3");
    assert_eq!(kept[1].hash, "b2");
    let all = truncate_commits(commits, 20);
    assert_eq!(all.len(), 3);
}

#[test]
fn url_detection() {
    assert!(is_repo_url(&"http://example.org/r.git".to_string()));
    assert!(is_repo_url(&"https://example.org/r".to_string()));
    assert!(is_repo_url(&"git@example.org:user/r.git".to_string()));
    assert!(!is_repo_url(&"/home/user/projects/r".to_string()));
    assert!(!is_repo_url(&"ftp://example.org/r".to_string()));
}

#[test]
fn repo_names_from_urls() {
    assert_eq!(
        repo_name_from_url(&"https://example.org/user/thing.git".to_string()),
        "thing"
    );
    assert_eq!(
        repo_name_from_url(&"https://example.org/user/thing".to_string()),
        "thing"
    );
    assert_eq!(repo_name_from_url(&"plain".to_string()), "plain");
    assert_eq!(repo_name_from_url(&"stack.git.git".to_string()), "stack");
    assert_eq!(repo_name_from_url(&"https://example.org/user/".to_string()), "");
}

#[test]
fn string_search_helpers() {
    assert!(str_starts_with(&"abcdef".to_string(), &"abc".to_string()));
    assert!(!str_starts_with(&"ab".to_string(), &"abc".to_string()));
    assert!(str_contains(&"the commit log".to_string(), &"commit".to_string()));
    assert!(str_contains(&"aaa".to_string(), &"".to_string()));
    assert!(!str_contains(&"short".to_string(), &"longer needle".to_string()));
}

#[test]
fn service_outcome_by_status() {
    let ok = service_outcome(200, "body".to_string()).unwrap();
    assert_eq!(ok, "body");
    assert!(service_outcome(299, "x".to_string()).is_ok());
    let err = service_outcome(403, "quota exhausted".to_string()).unwrap_err();
    assert_eq!(err.status, 403);
    assert_eq!(err.context, "quota exhausted");
    assert!(service_outcome(199, "x".to_string()).is_err());
    assert!(service_outcome(500, "x".to_string()).is_err());
}

#[test]
fn response_text_fallback() {
    assert_eq!(
        response_text_or_default(Some("a story".to_string())),
        "a story"
    );
    assert_eq!(response_text_or_default(None), "No response generated");
}
