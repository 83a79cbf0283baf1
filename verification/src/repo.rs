//! The repository model: an immutable, hash-identified commit graph.
//!
//! A `RepoModel` holds, for every commit, the metadata and the full file
//! snapshot that the extraction pipeline reads. Parent relationships are
//! indices into the commit table, so the graph carries no mutable
//! back-pointers. The reading of an on-disk repository into this model is
//! the caller's concern; everything downstream of the model is verified.

use vstd::prelude::*;

verus! {

/// Failure of the extraction run.
#[derive(Debug, PartialEq, Eq)]
pub enum ExtractError {
    /// The path did not resolve to a valid repository; fatal, no retry.
    RepositoryNotFound { detail: String },
    /// A referenced snapshot or object could not be read (corrupt or
    /// truncated data); fatal to the whole run, no partial history.
    ObjectResolutionError { detail: String },
}

impl ExtractError {
    /// Rendering of the error kind for reporting; the detail string rides
    /// along unchanged.
    pub fn describe(&self) -> (r: String)
        ensures
            *self matches ExtractError::RepositoryNotFound { detail }
                ==> r@ == "repository not found: "@ + detail@,
            *self matches ExtractError::ObjectResolutionError { detail }
                ==> r@ == "object resolution failed: "@ + detail@,
    {
        match self {
            ExtractError::RepositoryNotFound { detail } => {
                let mut r = "repository not found: ".to_owned();
                r.append(detail.as_str());
                r
            },
            ExtractError::ObjectResolutionError { detail } => {
                let mut r = "object resolution failed: ".to_owned();
                r.append(detail.as_str());
                r
            },
        }
    }
}

/// One file of a snapshot: its repository-relative path and a
/// content-derived identity for its data and mode. Two entries carry the
/// same `content` exactly when the stored file state is identical.
#[derive(Debug, PartialEq, Eq)]
pub struct TreeEntry {
    pub path: String,
    pub content: u64,
}

/// Paths are unique within an entry list.
pub open spec fn entries_wf(es: Seq<TreeEntry>) -> bool {
    forall|i: int, j: int| 0 <= i < j < es.len() ==> es[i].path@ != es[j].path@
}

/// Whether some entry of the list has this path.
pub open spec fn has_path(es: Seq<TreeEntry>, p: Seq<char>) -> bool {
    exists|i: int| 0 <= i < es.len() && es[i].path@ == p
}

/// The content identity recorded for this path (meaningful only when
/// `has_path` holds; unique when the entry list is well-formed).
pub open spec fn content_at(es: Seq<TreeEntry>, p: Seq<char>) -> u64 {
    let i = choose|i: int| 0 <= i < es.len() && es[i].path@ == p;
    es[i].content
}

/// In a well-formed entry list, the entry at `i` is the one `content_at`
/// speaks of for its path.
pub proof fn lemma_entry_resolves(es: Seq<TreeEntry>, i: int)
    requires
        entries_wf(es),
        0 <= i < es.len(),
    ensures
        has_path(es, es[i].path@),
        content_at(es, es[i].path@) == es[i].content,
{
    assert(has_path(es, es[i].path@));
    let w = choose|w: int| 0 <= w < es.len() && es[w].path@ == es[i].path@;
    assert(w == i);
}

/// The full directory/file-tree state recorded by one commit.
#[derive(Debug, PartialEq, Eq)]
pub struct Snapshot {
    pub entries: Vec<TreeEntry>,
}

impl Snapshot {
    /// Paths are unique within a snapshot.
    pub open spec fn wf(self) -> bool {
        entries_wf(self.entries@)
    }

    /// An empty snapshot: the comparison baseline of a root commit.
    pub fn empty() -> (r: Snapshot)
        ensures
            r.entries@.len() == 0,
            r.wf(),
    {
        Snapshot { entries: Vec::new() }
    }

    /// Looks a path up by scanning the entries.
    pub fn lookup(&self, path: &String) -> (r: Option<u64>)
        requires
            self.wf(),
        ensures
            match r {
                Some(c) => has_path(self.entries@, path@) && c == content_at(self.entries@, path@),
                None => !has_path(self.entries@, path@),
            },
    {
        let n = self.entries.len();
        let mut i: usize = 0;
        while i < n
            invariant
                n == self.entries@.len(),
                i <= n,
                self.wf(),
                forall|k: int| 0 <= k < i ==> self.entries@[k].path@ != path@,
            decreases n - i,
        {
            if self.entries[i].path == *path {
                proof {
                    lemma_entry_resolves(self.entries@, i as int);
                }
                return Some(self.entries[i].content);
            }
            i = i + 1;
        }
        None
    }
}

/// Metadata and snapshot of a single commit, as read from the repository.
///
/// `author` is `None` where the source metadata carries no author name;
/// the record assembler substitutes the sentinel at assembly time.
/// `parents` are indices into the owning model's commit table, first
/// parent first.
#[derive(Debug, PartialEq, Eq)]
pub struct CommitMeta {
    pub hash: String,
    pub message: String,
    pub author: Option<String>,
    pub timestamp: i64,
    pub parents: Vec<usize>,
    pub snapshot: Snapshot,
}

/// The loaded repository: a commit table and the head reference the
/// traversal starts from. `head` is `None` for an empty or unborn
/// repository, a valid, non-error state that yields no commits.
#[derive(Debug)]
pub struct RepoModel {
    pub commits: Vec<CommitMeta>,
    pub head: Option<usize>,
}

impl RepoModel {
    /// Every parent reference resolves to a commit of the table.
    pub open spec fn parents_ok(self) -> bool {
        forall|i: int, j: int|
            0 <= i < self.commits@.len() && 0 <= j < self.commits@[i].parents@.len()
                ==> (self.commits@[i].parents@[j] as int) < self.commits@.len()
    }

    /// The head reference, when present, resolves to a commit.
    pub open spec fn head_ok(self) -> bool {
        self.head matches Some(h) ==> (h as int) < self.commits@.len()
    }

    /// Every snapshot has unique paths.
    pub open spec fn snapshots_ok(self) -> bool {
        forall|i: int| 0 <= i < self.commits@.len() ==> (#[trigger] self.commits@[i]).snapshot.wf()
    }

    /// Content-derived hashes are globally unique.
    pub open spec fn hashes_unique(self) -> bool {
        forall|i: int, j: int|
            0 <= i < j < self.commits@.len() ==> self.commits@[i].hash@ != self.commits@[j].hash@
    }

    pub open spec fn wf(self) -> bool {
        self.parents_ok() && self.head_ok() && self.snapshots_ok() && self.hashes_unique()
    }

    /// Builds a model from raw commit data, validating that every
    /// reference resolves and that the data respects the model's
    /// invariants. Fails exactly on data a repository with intact object
    /// storage cannot produce: a dangling head or parent reference, a
    /// snapshot listing one path twice, or two commits sharing a hash.
    pub fn new(commits: Vec<CommitMeta>, head: Option<usize>) -> (r: Result<RepoModel, ExtractError>)
        ensures
            match r {
                Ok(m) => m.commits@ == commits@ && m.head == head && m.wf(),
                Err(e) => {
                    &&& !(RepoModel { commits, head }.wf())
                    &&& e matches ExtractError::ObjectResolutionError { .. }
                },
            },
    {
        let n = commits.len();
        match head {
            Some(h) => {
                if h >= n {
                    return Result::Err(ExtractError::ObjectResolutionError {
                        detail: "head reference outside the commit table".to_owned(),
                    });
                }
            },
            None => {},
        }
        let mut i: usize = 0;
        while i < n
            invariant
                n == commits@.len(),
                i <= n,
                forall|a: int, b: int|
                    0 <= a < i && 0 <= b < commits@[a].parents@.len()
                        ==> (commits@[a].parents@[b] as int) < commits@.len(),
                forall|a: int| 0 <= a < i ==> (#[trigger] commits@[a]).snapshot.wf(),
            decreases n - i,
        {
            let parents_len = commits[i].parents.len();
            let mut j: usize = 0;
            while j < parents_len
                invariant
                    n == commits@.len(),
                    i < n,
                    parents_len == commits@[i as int].parents@.len(),
                    j <= parents_len,
                    forall|b: int|
                        0 <= b < j ==> (commits@[i as int].parents@[b] as int) < commits@.len(),
                decreases parents_len - j,
            {
                if commits[i].parents[j] >= n {
                    return Result::Err(ExtractError::ObjectResolutionError {
                        detail: "parent reference outside the commit table".to_owned(),
                    });
                }
                j = j + 1;
            }
            let entries_len = commits[i].snapshot.entries.len();
            let mut a: usize = 0;
            while a < entries_len
                invariant
                    n == commits@.len(),
                    i < n,
                    entries_len == commits@[i as int].snapshot.entries@.len(),
                    a <= entries_len,
                    forall|x: int, y: int|
                        0 <= x < y < entries_len && x < a
                            ==> commits@[i as int].snapshot.entries@[x].path@
                                != commits@[i as int].snapshot.entries@[y].path@,
                decreases entries_len - a,
            {
                let mut b: usize = a + 1;
                while b < entries_len
                    invariant
                        n == commits@.len(),
                        i < n,
                        entries_len == commits@[i as int].snapshot.entries@.len(),
                        a < entries_len,
                        a < b,
                        forall|y: int|
                            a < y < b
                                ==> commits@[i as int].snapshot.entries@[a as int].path@
                                    != commits@[i as int].snapshot.entries@[y].path@,
                    decreases entries_len - b,
                {
                    if commits[i].snapshot.entries[a].path == commits[i].snapshot.entries[b].path {
                        return Result::Err(ExtractError::ObjectResolutionError {
                            detail: "snapshot lists one path twice".to_owned(),
                        });
                    }
                    b = b + 1;
                }
                a = a + 1;
            }
            i = i + 1;
        }
        let mut x: usize = 0;
        while x < n
            invariant
                n == commits@.len(),
                x <= n,
                forall|a: int, b: int|
                    0 <= a < b < n && a < x ==> commits@[a].hash@ != commits@[b].hash@,
            decreases n - x,
        {
            let mut y: usize = x + 1;
            while y < n
                invariant
                    n == commits@.len(),
                    x < n,
                    x < y,
                    forall|b: int| x < b < y ==> commits@[x as int].hash@ != commits@[b].hash@,
                decreases n - y,
            {
                if commits[x].hash == commits[y].hash {
                    return Result::Err(ExtractError::ObjectResolutionError {
                        detail: "two commits share one hash".to_owned(),
                    });
                }
                y = y + 1;
            }
            x = x + 1;
        }
        Result::Ok(RepoModel { commits, head })
    }
}

} // verus!
