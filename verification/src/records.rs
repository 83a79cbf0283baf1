//! Immutable commit records: the values the extraction pipeline produces.

use vstd::prelude::*;

verus! {

/// File-level delta kind between two snapshots. Rename/copy detection is
/// best-effort: a comparison that performs none reports an add/delete pair
/// instead, so only `Added`, `Modified` and `Deleted` are produced by the
/// differ in this crate; the remaining kinds complete the status vocabulary
/// of stored records.
#[derive(Clone, Copy, Debug, PartialEq, Eq, Structural)]
pub enum ChangeStatus {
    Added,
    Modified,
    Deleted,
    Renamed,
    Typechange,
    Copied,
    Unmodified,
}

impl ChangeStatus {
    /// The human-readable label under which a status is rendered.
    pub open spec fn label_spec(self) -> Seq<char> {
        match self {
            ChangeStatus::Added => "Added"@,
            ChangeStatus::Modified => "Modified"@,
            ChangeStatus::Deleted => "Deleted"@,
            ChangeStatus::Renamed => "Renamed"@,
            ChangeStatus::Typechange => "Typechange"@,
            ChangeStatus::Copied => "Copied"@,
            ChangeStatus::Unmodified => "Unmodified"@,
        }
    }

    pub fn label(&self) -> (r: String)
        ensures
            r@ == self.label_spec(),
    {
        match self {
            ChangeStatus::Added => "Added".to_owned(),
            ChangeStatus::Modified => "Modified".to_owned(),
            ChangeStatus::Deleted => "Deleted".to_owned(),
            ChangeStatus::Renamed => "Renamed".to_owned(),
            ChangeStatus::Typechange => "Typechange".to_owned(),
            ChangeStatus::Copied => "Copied".to_owned(),
            ChangeStatus::Unmodified => "Unmodified".to_owned(),
        }
    }
}

/// Mathematical value of a `FileChange`.
#[verifier::ext_equal]
pub ghost struct FileChangeView {
    pub file_path: Seq<char>,
    pub status: ChangeStatus,
}

/// One file-level delta within a commit: the path as it exists in the newer
/// snapshot (or the last known path for a deletion), and the delta kind.
#[derive(Debug, PartialEq, Eq)]
pub struct FileChange {
    pub file_path: String,
    pub status: ChangeStatus,
}

impl View for FileChange {
    type V = FileChangeView;

    open spec fn view(&self) -> FileChangeView {
        FileChangeView { file_path: self.file_path@, status: self.status }
    }
}

impl DeepView for FileChange {
    type V = FileChangeView;

    open spec fn deep_view(&self) -> FileChangeView {
        self.view()
    }
}

impl Clone for FileChange {
    fn clone(&self) -> (r: Self)
        ensures
            r == *self,
    {
        FileChange { file_path: self.file_path.clone(), status: self.status }
    }
}

/// Mathematical value of a `Commit`.
#[verifier::ext_equal]
pub ghost struct CommitView {
    pub hash: Seq<char>,
    pub message: Seq<char>,
    pub author: Seq<char>,
    pub timestamp: int,
    pub files_changed: Seq<FileChangeView>,
}

/// One historical snapshot as an immutable value record.
///
/// `hash` is the content-derived identifier of the commit and its primary
/// key in the persistence layer; `timestamp` is the commit's own recorded
/// time in seconds since the epoch; `files_changed` keeps the differ's
/// enumeration order.
#[derive(Debug, PartialEq, Eq)]
pub struct Commit {
    pub hash: String,
    pub message: String,
    pub author: String,
    pub timestamp: i64,
    pub files_changed: Vec<FileChange>,
}

impl View for Commit {
    type V = CommitView;

    open spec fn view(&self) -> CommitView {
        CommitView {
            hash: self.hash@,
            message: self.message@,
            author: self.author@,
            timestamp: self.timestamp as int,
            files_changed: self.files_changed.deep_view(),
        }
    }
}

impl DeepView for Commit {
    type V = CommitView;

    open spec fn deep_view(&self) -> CommitView {
        self.view()
    }
}

impl Clone for Commit {
    fn clone(&self) -> (r: Self)
        ensures
            r@ == self@,
            r.hash == self.hash,
            r.files_changed@ == self.files_changed@,
    {
        let r = Commit {
            hash: self.hash.clone(),
            message: self.message.clone(),
            author: self.author.clone(),
            timestamp: self.timestamp,
            files_changed: clone_changes(&self.files_changed),
        };
        proof {
            assert(r@ =~~= self@);
        }
        r
    }
}

/// Clones a delta list element by element, preserving the sequence exactly.
pub fn clone_changes(v: &Vec<FileChange>) -> (r: Vec<FileChange>)
    ensures
        r@ == v@,
{
    let mut r: Vec<FileChange> = Vec::new();
    let mut i: usize = 0;
    while i < v.len()
        invariant
            i <= v.len(),
            r@.len() == i as nat,
            forall|k: int| 0 <= k < i ==> r@[k] == v@[k],
        decreases v.len() - i,
    {
        r.push(v[i].clone());
        i = i + 1;
    }
    proof {
        assert(r@ =~= v@);
    }
    r
}

/// Clones a commit list element by element; the clones carry the same
/// mathematical values in the same order.
pub fn clone_commits(v: &Vec<Commit>) -> (r: Vec<Commit>)
    ensures
        r.deep_view() == v.deep_view(),
        r@.len() == v@.len(),
        forall|k: int| 0 <= k < v@.len() ==> r@[k]@ == #[trigger] v@[k]@,
{
    let mut r: Vec<Commit> = Vec::new();
    let mut i: usize = 0;
    while i < v.len()
        invariant
            i <= v.len(),
            r@.len() == i as nat,
            forall|k: int| 0 <= k < i ==> r@[k]@ == #[trigger] v@[k]@,
        decreases v.len() - i,
    {
        r.push(v[i].clone());
        i = i + 1;
    }
    proof {
        assert(r.deep_view() =~~= v.deep_view());
    }
    r
}

} // verus!
