//! The persistence sink model.
//!
//! Commit records are stored with replace-or-insert semantics keyed by
//! the commit hash: writing a record whose hash is present replaces that
//! document in place, anything else is appended. `CommitStore` is the
//! verified model of the destination collection; `BatchSession` drives a
//! batch of writes against a real destination one record at a time,
//! tracking exactly which prefix is durably written when a write fails.

use vstd::prelude::*;
use crate::records::{Commit, CommitView};

verus! {

/// The destination store rejected a write or became unreachable.
/// `key` names the hash of the record whose write failed; `detail`
/// carries the underlying cause.
#[derive(Debug, PartialEq, Eq)]
pub struct PersistenceError {
    pub key: String,
    pub detail: String,
}

/// Hashes are unique among stored documents.
pub open spec fn docs_wf(docs: Seq<Commit>) -> bool {
    forall|i: int, j: int| 0 <= i < j < docs.len() ==> docs[i].hash@ != docs[j].hash@
}

/// Some stored document carries this hash.
pub open spec fn store_has(docs: Seq<Commit>, h: Seq<char>) -> bool {
    exists|i: int| 0 <= i < docs.len() && docs[i].hash@ == h
}

/// The stored document under this hash (meaningful only when `store_has`
/// holds; unique when the document list is well-formed).
pub open spec fn doc_at(docs: Seq<Commit>, h: Seq<char>) -> CommitView {
    let i = choose|i: int| 0 <= i < docs.len() && docs[i].hash@ == h;
    docs[i]@
}

/// The mathematical content of the store: hash to stored record.
pub open spec fn store_map(docs: Seq<Commit>) -> Map<Seq<char>, CommitView> {
    Map::new(|h: Seq<char>| store_has(docs, h), |h: Seq<char>| doc_at(docs, h))
}

/// In a well-formed document list, the document at `i` is the one the
/// store map holds under its hash.
pub proof fn lemma_doc_resolves(docs: Seq<Commit>, i: int)
    requires
        docs_wf(docs),
        0 <= i < docs.len(),
    ensures
        store_has(docs, docs[i].hash@),
        doc_at(docs, docs[i].hash@) == docs[i]@,
        store_map(docs).dom().contains(docs[i].hash@),
        store_map(docs)[docs[i].hash@] == docs[i]@,
{
    assert(store_has(docs, docs[i].hash@));
    let w = choose|w: int| 0 <= w < docs.len() && docs[w].hash@ == docs[i].hash@;
    assert(w == i);
}

/// The single logical collection of commit documents.
#[derive(Debug)]
pub struct CommitStore {
    pub docs: Vec<Commit>,
}

impl View for CommitStore {
    type V = Map<Seq<char>, CommitView>;

    open spec fn view(&self) -> Map<Seq<char>, CommitView> {
        store_map(self.docs@)
    }
}

/// The store after upserting each record of `rs` in order.
pub open spec fn apply_upserts(
    m: Map<Seq<char>, CommitView>,
    rs: Seq<Commit>,
) -> Map<Seq<char>, CommitView>
    decreases rs.len(),
{
    if rs.len() == 0 {
        m
    } else {
        apply_upserts(m, rs.drop_last()).insert(rs.last().hash@, rs.last()@)
    }
}

impl CommitStore {
    pub open spec fn wf(self) -> bool {
        docs_wf(self.docs@)
    }

    /// An empty collection.
    pub fn new() -> (r: CommitStore)
        ensures
            r.wf(),
            r@ =~= Map::<Seq<char>, CommitView>::empty(),
            r.docs@.len() == 0,
    {
        let r = CommitStore { docs: Vec::new() };
        proof {
            assert(r@ =~= Map::<Seq<char>, CommitView>::empty());
        }
        r
    }

    /// Writes one record with replace-or-insert semantics keyed by its
    /// hash: afterwards exactly one document carries that hash, and it
    /// equals the record.
    pub fn upsert_one(&mut self, record: &Commit)
        requires
            old(self).wf(),
        ensures
            final(self).wf(),
            final(self)@ == old(self)@.insert(record.hash@, record@),
            exists|i: int|
                0 <= i < final(self).docs@.len()
                    && (#[trigger] final(self).docs@[i]).hash@ == record.hash@
                    && final(self).docs@[i]@ == record@,
    {
        let n = self.docs.len();
        let mut i: usize = 0;
        while i < n
            invariant
                self.docs@ == old(self).docs@,
                n == self.docs@.len(),
                i <= n,
                self.wf(),
                forall|k: int| 0 <= k < i ==> self.docs@[k].hash@ != record.hash@,
            decreases n - i,
        {
            if self.docs[i].hash == record.hash {
                let ghost pre = self.docs@;
                self.docs.set(i, record.clone());
                proof {
                    assert(self.docs@[i as int].hash@ == record.hash@);
                    assert forall|a: int, b: int| 0 <= a < b < self.docs@.len()
                        implies self.docs@[a].hash@ != self.docs@[b].hash@ by {
                        assert(pre[a].hash@ != pre[b].hash@);
                    }
                    assert forall|h: Seq<char>| store_has(self.docs@, h) <==> store_has(pre, h) by {
                        if store_has(self.docs@, h) {
                            let w = choose|w: int|
                                0 <= w < self.docs@.len() && self.docs@[w].hash@ == h;
                            assert(pre[w].hash@ == h);
                        }
                        if store_has(pre, h) {
                            let w = choose|w: int| 0 <= w < pre.len() && pre[w].hash@ == h;
                            assert(self.docs@[w].hash@ == h);
                        }
                    }
                    assert forall|h: Seq<char>| #[trigger] store_has(self.docs@, h)
                        implies doc_at(self.docs@, h)
                            == old(self)@.insert(record.hash@, record@)[h] by {
                        let w = choose|w: int|
                            0 <= w < self.docs@.len() && self.docs@[w].hash@ == h;
                        lemma_doc_resolves(self.docs@, w);
                        if h == record.hash@ {
                            assert(w == i as int);
                            assert(doc_at(self.docs@, h) == record@);
                        } else {
                            assert(w != i as int);
                            assert(self.docs@[w] == pre[w]);
                            lemma_doc_resolves(pre, w);
                            assert(store_has(pre, h));
                            assert(old(self)@.dom().contains(h));
                            assert(old(self)@[h] == pre[w]@);
                        }
                    }
                    assert(store_has(pre, record.hash@));
                    assert(final(self)@ =~= old(self)@.insert(record.hash@, record@));
                    assert(final(self).docs@[i as int]@ == record@);
                }
                return;
            }
            i = i + 1;
        }
        let ghost pre = self.docs@;
        self.docs.push(record.clone());
        proof {
            let newlen = self.docs@.len();
            assert(self.docs@[newlen - 1].hash@ == record.hash@);
            assert(!store_has(pre, record.hash@));
            assert forall|a: int, b: int| 0 <= a < b < newlen
                implies self.docs@[a].hash@ != self.docs@[b].hash@ by {
                if b < newlen - 1 {
                    assert(pre[a].hash@ != pre[b].hash@);
                } else {
                    assert(self.docs@[a] == pre[a]);
                    if pre[a].hash@ == record.hash@ {
                        assert(store_has(pre, record.hash@));
                    }
                }
            }
            assert forall|h: Seq<char>| store_has(self.docs@, h)
                implies store_has(pre, h) || h == record.hash@ by {
                let w = choose|w: int| 0 <= w < self.docs@.len() && self.docs@[w].hash@ == h;
                if w < newlen - 1 {
                    assert(pre[w].hash@ == h);
                }
            }
            assert forall|h: Seq<char>| store_has(pre, h) implies store_has(self.docs@, h) by {
                let w = choose|w: int| 0 <= w < pre.len() && pre[w].hash@ == h;
                assert(self.docs@[w].hash@ == h);
            }
            assert forall|h: Seq<char>| #[trigger] store_has(self.docs@, h)
                implies doc_at(self.docs@, h)
                    == old(self)@.insert(record.hash@, record@)[h] by {
                let w = choose|w: int| 0 <= w < self.docs@.len() && self.docs@[w].hash@ == h;
                lemma_doc_resolves(self.docs@, w);
                if h == record.hash@ {
                    assert(w == newlen - 1) by {
                        if w < newlen - 1 {
                            assert(store_has(pre, record.hash@));
                        }
                    }
                    assert(doc_at(self.docs@, h) == record@);
                } else {
                    assert(w < newlen - 1);
                    assert(self.docs@[w] == pre[w]);
                    lemma_doc_resolves(pre, w);
                    assert(store_has(pre, h));
                    assert(old(self)@.dom().contains(h));
                    assert(old(self)@[h] == pre[w]@);
                }
            }
            assert(final(self)@ =~= old(self)@.insert(record.hash@, record@));
        }
    }

    /// Writes a batch, one record at a time, in order. Against this
    /// in-memory model every write succeeds; an empty batch is a no-op.
    pub fn save_commits(&mut self, records: &Vec<Commit>)
        requires
            old(self).wf(),
        ensures
            final(self).wf(),
            final(self)@ == apply_upserts(old(self)@, records@),
            records@.len() == 0 ==> final(self)@ == old(self)@,
    {
        let mut k: usize = 0;
        while k < records.len()
            invariant
                old(self).wf(),
                self.wf(),
                k <= records@.len(),
                self@ == apply_upserts(old(self)@, records@.subrange(0, k as int)),
            decreases records@.len() - k,
        {
            self.upsert_one(&records[k]);
            proof {
                let sub = records@.subrange(0, k as int + 1);
                assert(sub.drop_last() =~= records@.subrange(0, k as int));
                assert(sub.last() == records@[k as int]);
            }
            k = k + 1;
        }
        proof {
            assert(records@.subrange(0, records@.len() as int) =~= records@);
        }
    }

    /// Looks a record up by hash; the returned value is the stored
    /// document, exactly when one carries this hash.
    pub fn find_by_hash(&self, hash: &String) -> (r: Option<Commit>)
        requires
            self.wf(),
        ensures
            match r {
                Some(c) => self@.dom().contains(hash@) && c@ == self@[hash@],
                None => !self@.dom().contains(hash@),
            },
    {
        let n = self.docs.len();
        let mut i: usize = 0;
        while i < n
            invariant
                n == self.docs@.len(),
                i <= n,
                self.wf(),
                forall|k: int| 0 <= k < i ==> self.docs@[k].hash@ != hash@,
            decreases n - i,
        {
            if self.docs[i].hash == *hash {
                proof {
                    lemma_doc_resolves(self.docs@, i as int);
                }
                return Some(self.docs[i].clone());
            }
            i = i + 1;
        }
        None
    }

    /// Every stored document, in storage order.
    pub fn get_all_commits(&self) -> (r: Vec<Commit>)
        ensures
            r@.len() == self.docs@.len(),
            forall|k: int| 0 <= k < r@.len() ==> r@[k]@ == #[trigger] self.docs@[k]@,
    {
        crate::records::clone_commits(&self.docs)
    }

    /// The number of stored documents.
    pub fn len(&self) -> (r: usize)
        ensures
            r == self.docs@.len(),
    {
        self.docs.len()
    }
}

/// Storing the same record again changes nothing: the store keeps
/// exactly one document under the record's hash, equal to the record.
pub proof fn lemma_upsert_idempotent(m: Map<Seq<char>, CommitView>, c: Commit)
    ensures
        m.insert(c.hash@, c@).insert(c.hash@, c@) =~= m.insert(c.hash@, c@),
        m.insert(c.hash@, c@)[c.hash@] == c@,
        m.insert(c.hash@, c@).dom().contains(c.hash@),
{
}

/// Whether some record of the batch carries this hash.
pub open spec fn batch_names(rs: Seq<Commit>, h: Seq<char>) -> bool {
    exists|i: int| 0 <= i < rs.len() && rs[i].hash@ == h
}

/// What a finished batch of upserts guarantees: every record of the
/// batch is stored under its hash (distinct hashes assumed, so each
/// record is the last writer of its key), and keys the batch never
/// names are untouched.
pub proof fn lemma_apply_upserts(m: Map<Seq<char>, CommitView>, rs: Seq<Commit>)
    requires
        forall|i: int, j: int| 0 <= i < j < rs.len() ==> rs[i].hash@ != rs[j].hash@,
    ensures
        forall|i: int|
            0 <= i < rs.len()
                ==> apply_upserts(m, rs).dom().contains((#[trigger] rs[i]).hash@)
                    && apply_upserts(m, rs)[rs[i].hash@] == rs[i]@,
        forall|h: Seq<char>|
            !batch_names(rs, h)
                ==> (#[trigger] apply_upserts(m, rs).dom().contains(h) <==> m.dom().contains(h))
                    && (m.dom().contains(h) ==> apply_upserts(m, rs)[h] == m[h]),
    decreases rs.len(),
{
    if rs.len() > 0 {
        let front = rs.drop_last();
        let last = rs.last();
        lemma_apply_upserts(m, front);
        assert forall|i: int|
            0 <= i < rs.len()
            implies apply_upserts(m, rs).dom().contains((#[trigger] rs[i]).hash@)
                && apply_upserts(m, rs)[rs[i].hash@] == rs[i]@ by {
            if i < rs.len() - 1 {
                assert(front[i] == rs[i]);
                assert(rs[i].hash@ != last.hash@);
            }
        }
        assert forall|h: Seq<char>| !batch_names(rs, h)
            implies (#[trigger] apply_upserts(m, rs).dom().contains(h) <==> m.dom().contains(h))
                && (m.dom().contains(h) ==> apply_upserts(m, rs)[h] == m[h]) by {
            assert(h != last.hash@) by {
                if h == last.hash@ {
                    assert(rs[rs.len() - 1].hash@ == h);
                }
            }
            assert(!batch_names(front, h)) by {
                if batch_names(front, h) {
                    let w = choose|w: int| 0 <= w < front.len() && front[w].hash@ == h;
                    assert(rs[w].hash@ == h);
                }
            }
            assert(apply_upserts(m, rs) == apply_upserts(m, front).insert(last.hash@, last@));
            assert(apply_upserts(m, front).dom().contains(h) <==> m.dom().contains(h));
            if m.dom().contains(h) {
                assert(apply_upserts(m, front)[h] == m[h]);
                assert(apply_upserts(m, rs)[h] == apply_upserts(m, front)[h]);
            }
        }
    }
}

/// Batch semantics under a partial failure: when the first `k` writes of
/// a batch succeeded and the batch then stopped, each written record is
/// durably present under its hash, and every record of the unwritten
/// suffix whose hash was absent before is still absent — neither written
/// nor disturbed.
pub proof fn lemma_batch_partial_failure(
    m: Map<Seq<char>, CommitView>,
    records: Seq<Commit>,
    k: int,
)
    requires
        forall|i: int, j: int| 0 <= i < j < records.len() ==> records[i].hash@ != records[j].hash@,
        0 <= k <= records.len(),
    ensures
        forall|i: int|
            0 <= i < k
                ==> apply_upserts(m, records.subrange(0, k)).dom().contains(
                    (#[trigger] records[i]).hash@,
                ) && apply_upserts(m, records.subrange(0, k))[records[i].hash@] == records[i]@,
        forall|i: int|
            k <= i < records.len() && !m.dom().contains((#[trigger] records[i]).hash@)
                ==> !apply_upserts(m, records.subrange(0, k)).dom().contains(records[i].hash@),
{
    let sub = records.subrange(0, k);
    lemma_apply_upserts(m, sub);
    assert forall|i: int| 0 <= i < k
        implies apply_upserts(m, sub).dom().contains((#[trigger] records[i]).hash@)
            && apply_upserts(m, sub)[records[i].hash@] == records[i]@ by {
        assert(sub[i] == records[i]);
    }
    assert forall|i: int|
        k <= i < records.len() && !m.dom().contains((#[trigger] records[i]).hash@)
        implies !apply_upserts(m, sub).dom().contains(records[i].hash@) by {
        assert(!batch_names(sub, records[i].hash@)) by {
            if batch_names(sub, records[i].hash@) {
                let w = choose|w: int| 0 <= w < sub.len() && sub[w].hash@ == records[i].hash@;
                assert(records[w].hash@ == records[i].hash@);
            }
        }
    }
}

/// One batch of writes against a real destination, driven one record at
/// a time. The caller performs the write of `pending()` and reports the
/// outcome; the session tracks which prefix is durably written. The
/// batch is not atomic: a failure leaves earlier records written and the
/// remainder, including the failed record, unwritten and unattempted
/// beyond the failure.
#[derive(Debug)]
pub struct BatchSession {
    pub records: Vec<Commit>,
    pub next: usize,
    pub aborted: bool,
}

impl BatchSession {
    pub open spec fn wf(self) -> bool {
        self.next <= self.records@.len()
    }

    /// The records written so far, in order.
    pub open spec fn written(self) -> Seq<Commit> {
        self.records@.subrange(0, self.next as int)
    }

    /// How many records were attempted (written ones plus a failed one).
    pub open spec fn attempted(self) -> int {
        self.next + if self.aborted { 1int } else { 0int }
    }

    /// Starts a batch over the given records; nothing written yet.
    pub fn new(records: Vec<Commit>) -> (s: BatchSession)
        ensures
            s.wf(),
            s.records@ == records@,
            s.next == 0,
            !s.aborted,
            s.written() =~= Seq::<Commit>::empty(),
    {
        BatchSession { records, next: 0, aborted: false }
    }

    /// The record the caller must write next, if the batch is still
    /// running and records remain.
    pub fn pending(&self) -> (r: Option<&Commit>)
        requires
            self.wf(),
        ensures
            match r {
                Some(c) => {
                    &&& !self.aborted
                    &&& (self.next as int) < self.records@.len()
                    &&& *c == self.records@[self.next as int]
                },
                None => self.aborted || self.next as int >= self.records@.len(),
            },
    {
        if !self.aborted && self.next < self.records.len() {
            Some(&self.records[self.next])
        } else {
            None
        }
    }

    /// Records that the pending write completed durably.
    pub fn advance(&mut self)
        requires
            old(self).wf(),
            !old(self).aborted,
            (old(self).next as int) < old(self).records@.len(),
        ensures
            final(self).wf(),
            final(self).records@ == old(self).records@,
            !final(self).aborted,
            final(self).next == old(self).next + 1,
            final(self).written() =~= old(self).written().push(
                old(self).records@[old(self).next as int],
            ),
    {
        let len = self.records.len();
        proof {
            assert(self.next < len);
        }
        self.next = self.next + 1;
        proof {
            assert(final(self).written() =~= old(self).written().push(
                old(self).records@[old(self).next as int],
            ));
        }
    }

    /// Records that the pending write failed. The already-written prefix
    /// stands, the failed record and everything after it stay unwritten
    /// and unattempted, and the returned error names the failed record's
    /// key and carries the underlying cause.
    pub fn abort(&mut self, detail: String) -> (e: PersistenceError)
        requires
            old(self).wf(),
            !old(self).aborted,
            (old(self).next as int) < old(self).records@.len(),
        ensures
            final(self).wf(),
            final(self).records@ == old(self).records@,
            final(self).aborted,
            final(self).next == old(self).next,
            final(self).written() == old(self).written(),
            final(self).attempted() == old(self).next + 1,
            e.key@ == old(self).records@[old(self).next as int].hash@,
            e.detail@ == detail@,
    {
        self.aborted = true;
        PersistenceError { key: self.records[self.next].hash.clone(), detail }
    }

    /// Whether the batch finished: every record written, or aborted.
    pub fn is_done(&self) -> (r: bool)
        requires
            self.wf(),
        ensures
            r == (self.aborted || self.next as int >= self.records@.len()),
    {
        self.aborted || self.next >= self.records.len()
    }
}

} // verus!
