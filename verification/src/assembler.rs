//! The commit record assembler and the extraction pipeline.
//!
//! Assembly combines walker output and differ output into immutable
//! commit records: metadata is taken from the commit as recorded, the
//! author sentinel is applied, and the first-parent diff is embedded
//! verbatim. Merge commits are diffed against their first parent only —
//! a deliberate simplification, not an N-way merge diff.

use vstd::prelude::*;
use crate::differ::{diff_post, diff_snapshots};
use crate::records::Commit;
use crate::repo::{CommitMeta, ExtractError, RepoModel, Snapshot, TreeEntry};
use crate::walker::{walk, walk_post};

verus! {

/// The author name a record carries: the recorded name, or the sentinel
/// where the source metadata has none.
pub open spec fn author_view(meta: CommitMeta) -> Seq<char> {
    match meta.author {
        Some(a) => a@,
        None => "Unknown"@,
    }
}

/// The baseline a commit is diffed against: its first parent's snapshot,
/// or the empty snapshot for a root commit.
pub open spec fn baseline_of(m: RepoModel, id: int) -> Seq<TreeEntry> {
    if m.commits@[id].parents@.len() > 0 {
        m.commits@[m.commits@[id].parents@[0] as int].snapshot.entries@
    } else {
        Seq::<TreeEntry>::empty()
    }
}

/// `c` is exactly the record owed for commit `id` of the model.
pub open spec fn record_of_ok(m: RepoModel, id: int, c: Commit) -> bool {
    &&& c.hash@ == m.commits@[id].hash@
    &&& c.message@ == m.commits@[id].message@
    &&& c.author@ == author_view(m.commits@[id])
    &&& c.timestamp == m.commits@[id].timestamp
    &&& diff_post(baseline_of(m, id), m.commits@[id].snapshot.entries@, c.files_changed@)
}

/// Assembles the record of one commit: hash, message, author and
/// timestamp straight from the metadata, the message unaltered, and the
/// first-parent file delta in the differ's enumeration order.
pub fn assemble(m: &RepoModel, id: usize) -> (c: Commit)
    requires
        m.wf(),
        (id as int) < m.commits@.len(),
    ensures
        record_of_ok(*m, id as int, c),
{
    let meta = &m.commits[id];
    let author: String = match &meta.author {
        Option::Some(a) => a.clone(),
        Option::None => "Unknown".to_owned(),
    };
    let files_changed = if meta.parents.len() > 0 {
        let p = meta.parents[0];
        diff_snapshots(&m.commits[p].snapshot, &meta.snapshot)
    } else {
        let base = Snapshot::empty();
        let d = diff_snapshots(&base, &meta.snapshot);
        proof {
            assert(base.entries@ =~= Seq::<TreeEntry>::empty());
        }
        d
    };
    Commit {
        hash: meta.hash.clone(),
        message: meta.message.clone(),
        author,
        timestamp: meta.timestamp,
        files_changed,
    }
}

/// What a finished extraction run guarantees: the ids are a complete
/// walk of the graph from the head, and the records are, in that order,
/// exactly the assembled records of those commits.
pub open spec fn extraction_post(m: RepoModel, ids: Seq<usize>, r: Seq<Commit>) -> bool {
    &&& match m.head {
        Some(h) => walk_post(m, h, ids),
        None => ids.len() == 0,
    }
    &&& r.len() == ids.len()
    &&& forall|k: int| 0 <= k < ids.len() ==> record_of_ok(m, ids[k] as int, #[trigger] r[k])
}

/// The records of one extraction run carry pairwise-distinct hashes:
/// the walk yields each commit once, and hashes are unique across the
/// graph. A batch store of the run therefore keeps every record
/// retrievable under its own hash.
pub proof fn lemma_extraction_hashes_distinct(m: RepoModel, ids: Seq<usize>, r: Seq<Commit>)
    requires
        m.wf(),
        extraction_post(m, ids, r),
    ensures
        forall|i: int, j: int| 0 <= i < j < r.len() ==> r[i].hash@ != r[j].hash@,
{
    assert forall|i: int, j: int| 0 <= i < j < r.len()
        implies r[i].hash@ != r[j].hash@ by {
        match m.head {
            Some(h) => {
                assert(record_of_ok(m, ids[i] as int, r[i]));
                assert(record_of_ok(m, ids[j] as int, r[j]));
                assert(ids[i] != ids[j]);
            },
            None => {},
        }
    }
}

/// The open repository handle of the extraction run: the loaded,
/// validated commit graph.
#[derive(Debug)]
pub struct GitAnalyzer {
    pub model: RepoModel,
}

impl GitAnalyzer {
    pub open spec fn wf(self) -> bool {
        self.model.wf()
    }

    /// Opens an analyzer over loaded repository data, validating every
    /// reference; fails exactly where the model's constructor does.
    pub fn new(commits: Vec<CommitMeta>, head: Option<usize>) -> (r: Result<GitAnalyzer, ExtractError>)
        ensures
            match r {
                Ok(g) => g.model.commits@ == commits@ && g.model.head == head && g.wf(),
                Err(e) => {
                    &&& !(RepoModel { commits, head }.wf())
                    &&& e matches ExtractError::ObjectResolutionError { .. }
                },
            },
    {
        match RepoModel::new(commits, head) {
            Result::Ok(m) => Result::Ok(GitAnalyzer { model: m }),
            Result::Err(e) => Result::Err(e),
        }
    }

    /// Runs the whole pipeline: walks the graph from the head and
    /// assembles one record per reachable commit, in walk order. An
    /// unborn repository yields no records.
    pub fn get_commits(&self) -> (r: Vec<Commit>)
        requires
            self.wf(),
        ensures
            exists|ids: Seq<usize>| extraction_post(self.model, ids, r@),
    {
        let ids = walk(&self.model);
        let mut r: Vec<Commit> = Vec::new();
        let mut k: usize = 0;
        while k < ids.len()
            invariant
                self.wf(),
                match self.model.head {
                    Some(h) => walk_post(self.model, h, ids@),
                    None => ids@.len() == 0,
                },
                k <= ids@.len(),
                r@.len() == k as nat,
                forall|t: int|
                    0 <= t < k ==> record_of_ok(self.model, ids@[t] as int, #[trigger] r@[t]),
            decreases ids@.len() - k,
        {
            r.push(assemble(&self.model, ids[k]));
            k = k + 1;
        }
        proof {
            assert(extraction_post(self.model, ids@, r@));
        }
        r
    }
}

} // verus!
