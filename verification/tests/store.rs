use whisper::records::{ChangeStatus, Commit, FileChange};
use whisper::storage::{BatchSession, CommitStore};

fn commit(hash: &str, message: &str, timestamp: i64) -> Commit {
    Commit {
        hash: hash.to_string(),
        message: message.to_string(),
        author: "Ada".to_string(),
        timestamp,
        files_changed: vec![FileChange {
            file_path: "src/lib.rs".to_string(),
            status: ChangeStatus::Modified,
        }],
    }
}

/// Storing the same commit twice leaves exactly one stored document for
/// that hash, field-equal to the input.
#[test]
fn storing_twice_keeps_one_document() {
    let c = commit("cafe0001", "first", 11);
    let mut store = CommitStore::new();
    store.upsert_one(&c);
    store.upsert_one(&c);
    assert_eq!(store.len(), 1);
    let found = store.find_by_hash(&c.hash).unwrap();
    assert_eq!(found, c);
}

/// An upsert under a present hash fully replaces the document's fields.
#[test]
fn upsert_replaces_existing_document() {
    let first = commit("cafe0001", "first", 11);
    let mut second = commit("cafe0001", "amended", 12);
    second.files_changed.clear();
    let mut store = CommitStore::new();
    store.upsert_one(&first);
    store.upsert_one(&second);
    assert_eq!(store.len(), 1);
    let found = store.find_by_hash(&first.hash).unwrap();
    assert_eq!(found, second);
}

/// An empty batch is a no-op success.
#[test]
fn empty_batch_is_noop() {
    let mut store = CommitStore::new();
    let records: Vec<Commit> = vec![];
    store.save_commits(&records);
    assert_eq!(store.len(), 0);
}

/// A batch stores every record, retrievable by hash, and re-running the
/// whole batch changes nothing.
#[test]
fn batch_stores_all_and_reruns_idempotently() {
    let records = vec![
        commit("a1", "one", 1),
        commit("b2", "two", 2),
        commit("c3", "three", 3),
    ];
    let mut store = CommitStore::new();
    store.save_commits(&records);
    store.save_commits(&records);
    assert_eq!(store.len(), 3);
    for r in &records {
        assert_eq!(store.find_by_hash(&r.hash).unwrap(), *r);
    }
    assert_eq!(store.get_all_commits().len(), 3);
}

/// When write two of three fails, record one stands durably, record two
/// is absent, record three is never attempted, and the error names
/// record two's key.
#[test]
fn failing_second_write_of_three() {
    let records = vec![
        commit("a1", "one", 1),
        commit("b2", "two", 2),
        commit("c3", "three", 3),
    ];
    let mut store = CommitStore::new();
    let mut session = BatchSession::new(records.clone());

    let first = session.pending().unwrap().clone();
    assert_eq!(first, records[0]);
    store.upsert_one(&first);
    session.advance();

    let second = session.pending().unwrap().clone();
    assert_eq!(second, records[1]);
    let err = session.abort("destination store rejected the write".to_string());
    assert_eq!(err.key, "b2");
    assert_eq!(err.detail, "destination store rejected the write");

    assert!(session.pending().is_none());
    assert!(session.is_done());

    assert_eq!(store.find_by_hash(&records[0].hash).unwrap(), records[0]);
    assert!(store.find_by_hash(&records[1].hash).is_none());
    assert!(store.find_by_hash(&records[2].hash).is_none());
    assert_eq!(store.len(), 1);
}

/// A batch session that runs to the end has written everything.
#[test]
fn session_runs_to_completion() {
    let records = vec![commit("a1", "one", 1), commit("b2", "two", 2)];
    let mut store = CommitStore::new();
    let mut session = BatchSession::new(records.clone());
    while let Some(rec) = session.pending() {
        let rec = rec.clone();
        store.upsert_one(&rec);
        session.advance();
    }
    assert!(session.is_done());
    assert_eq!(store.len(), 2);
}

/// Lookups miss exactly the hashes never stored.
#[test]
fn find_by_hash_misses_absent_keys() {
    let mut store = CommitStore::new();
    store.upsert_one(&commit("a1", "one", 1));
    assert!(store.find_by_hash(&"zz".to_string()).is_none());
}
