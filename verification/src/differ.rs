//! The tree differ.
//!
//! Compares two snapshots by presence and content identity of each path
//! and reports file-level deltas only — never line-level hunks. No
//! rename or copy detection is performed: a moved file surfaces as an
//! independent add/delete pair.

use vstd::prelude::*;
use crate::records::{ChangeStatus, FileChange};
use crate::repo::{content_at, entries_wf, has_path, lemma_entry_resolves, Snapshot, TreeEntry};

verus! {

/// The path's existence or content differs between the two snapshots.
pub open spec fn path_differs(old: Seq<TreeEntry>, new: Seq<TreeEntry>, p: Seq<char>) -> bool {
    if has_path(new, p) {
        !has_path(old, p) || content_at(old, p) != content_at(new, p)
    } else {
        has_path(old, p)
    }
}

/// The delta a single reported change claims holds of the two snapshots.
pub open spec fn change_matches(old: Seq<TreeEntry>, new: Seq<TreeEntry>, fc: FileChange) -> bool {
    match fc.status {
        ChangeStatus::Added => has_path(new, fc.file_path@) && !has_path(old, fc.file_path@),
        ChangeStatus::Deleted => has_path(old, fc.file_path@) && !has_path(new, fc.file_path@),
        ChangeStatus::Modified => {
            &&& has_path(old, fc.file_path@)
            &&& has_path(new, fc.file_path@)
            &&& content_at(old, fc.file_path@) != content_at(new, fc.file_path@)
        },
        _ => false,
    }
}

/// Some reported change names this path.
pub open spec fn reported(r: Seq<FileChange>, p: Seq<char>) -> bool {
    exists|k: int| 0 <= k < r.len() && r[k].file_path@ == p
}

/// The exact contract of a first-parent diff: every reported change holds
/// of the snapshots, each path is reported at most once, and every path
/// whose existence or content differs is reported.
pub open spec fn diff_post(old: Seq<TreeEntry>, new: Seq<TreeEntry>, r: Seq<FileChange>) -> bool {
    &&& forall|k: int| 0 <= k < r.len() ==> change_matches(old, new, #[trigger] r[k])
    &&& forall|k1: int, k2: int|
        0 <= k1 < k2 < r.len() ==> r[k1].file_path@ != r[k2].file_path@
    &&& forall|p: Seq<char>|
        #![trigger has_path(new, p)]
        #![trigger has_path(old, p)]
        path_differs(old, new, p) ==> reported(r, p)
}

/// Computes the file-level delta from `old` to `new`.
///
/// Changed and added paths are reported first, in the enumeration order
/// of `new`; deleted paths follow in the enumeration order of `old`.
pub fn diff_snapshots(old: &Snapshot, new: &Snapshot) -> (r: Vec<FileChange>)
    requires
        old.wf(),
        new.wf(),
    ensures
        diff_post(old.entries@, new.entries@, r@),
{
    let oes = &old.entries;
    let nes = &new.entries;
    let mut r: Vec<FileChange> = Vec::new();
    let mut i: usize = 0;
    while i < nes.len()
        invariant
            old.wf(),
            new.wf(),
            oes == old.entries,
            nes == new.entries,
            i <= nes@.len(),
            forall|k: int| 0 <= k < r@.len() ==> change_matches(oes@, nes@, #[trigger] r@[k]),
            forall|k1: int, k2: int|
                0 <= k1 < k2 < r@.len() ==> r@[k1].file_path@ != r@[k2].file_path@,
            forall|k: int| 0 <= k < r@.len() ==> has_path(nes@, #[trigger] r@[k].file_path@),
            forall|k: int|
                0 <= k < r@.len()
                    ==> exists|e: int| 0 <= e < i && nes@[e].path@ == (#[trigger] r@[k]).file_path@,
            forall|e: int|
                0 <= e < i && path_differs(oes@, nes@, #[trigger] nes@[e].path@)
                    ==> reported(r@, nes@[e].path@),
        decreases nes@.len() - i,
    {
        let ghost pre = r@;
        let path_differs_here: bool;
        let status: ChangeStatus;
        match old.lookup(&nes[i].path) {
            Option::None => {
                path_differs_here = true;
                status = ChangeStatus::Added;
            },
            Option::Some(c) => {
                if c != nes[i].content {
                    path_differs_here = true;
                    status = ChangeStatus::Modified;
                } else {
                    path_differs_here = false;
                    status = ChangeStatus::Unmodified;
                }
            },
        }
        proof {
            lemma_entry_resolves(nes@, i as int);
        }
        if path_differs_here {
            proof {
                // the path of a fresh entry is not yet reported
                assert forall|k: int| 0 <= k < pre.len()
                    implies pre[k].file_path@ != nes@[i as int].path@ by {
                    if pre[k].file_path@ == nes@[i as int].path@ {
                        let e = choose|e: int|
                            0 <= e < i && nes@[e].path@ == pre[k].file_path@;
                        assert(nes@[e].path@ == nes@[i as int].path@);
                    }
                }
            }
            r.push(FileChange { file_path: nes[i].path.clone(), status });
            proof {
                assert(r@[r@.len() - 1].file_path@ == nes@[i as int].path@);
                assert forall|k: int| 0 <= k < r@.len()
                    implies exists|e: int|
                        0 <= e < i + 1 && nes@[e].path@ == (#[trigger] r@[k]).file_path@ by {
                    if k < pre.len() {
                        let e = choose|e: int| 0 <= e < i && nes@[e].path@ == pre[k].file_path@;
                        assert(nes@[e].path@ == r@[k].file_path@);
                    } else {
                        assert(nes@[i as int].path@ == r@[k].file_path@);
                    }
                }
                assert forall|e: int|
                    0 <= e < i + 1 && path_differs(oes@, nes@, #[trigger] nes@[e].path@)
                    implies reported(r@, nes@[e].path@) by {
                    if e < i {
                        let k = choose|k: int| 0 <= k < pre.len() && pre[k].file_path@ == nes@[e].path@;
                        assert(r@[k].file_path@ == nes@[e].path@);
                    } else {
                        assert(reported(r@, nes@[i as int].path@));
                    }
                }
            }
        } else {
            proof {
                assert(!path_differs(oes@, nes@, nes@[i as int].path@));
            }
        }
        i = i + 1;
    }
    proof {
        // the first pass reported no deletions
        assert forall|k: int| 0 <= k < r@.len() && (#[trigger] r@[k]).status is Deleted
            implies false by {
            assert(change_matches(oes@, nes@, r@[k]));
            assert(has_path(nes@, r@[k].file_path@));
        }
    }
    let mut j: usize = 0;
    while j < oes.len()
        invariant
            old.wf(),
            new.wf(),
            oes == old.entries,
            nes == new.entries,
            j <= oes@.len(),
            forall|k: int| 0 <= k < r@.len() ==> change_matches(oes@, nes@, #[trigger] r@[k]),
            forall|k1: int, k2: int|
                0 <= k1 < k2 < r@.len() ==> r@[k1].file_path@ != r@[k2].file_path@,
            forall|e: int|
                0 <= e < nes@.len() && path_differs(oes@, nes@, #[trigger] nes@[e].path@)
                    ==> reported(r@, nes@[e].path@),
            forall|e: int|
                0 <= e < j && !has_path(nes@, #[trigger] oes@[e].path@)
                    ==> reported(r@, oes@[e].path@),
            forall|k: int|
                0 <= k < r@.len() && (#[trigger] r@[k]).status is Deleted
                    ==> exists|e: int| 0 <= e < j && oes@[e].path@ == r@[k].file_path@,
        decreases oes@.len() - j,
    {
        let ghost pre = r@;
        match new.lookup(&oes[j].path) {
            Option::None => {
                proof {
                    lemma_entry_resolves(oes@, j as int);
                    // deleted paths collide neither with the first pass nor
                    // with earlier deletions
                    assert forall|k: int| 0 <= k < pre.len()
                        implies pre[k].file_path@ != oes@[j as int].path@ by {
                        if pre[k].file_path@ == oes@[j as int].path@ {
                            assert(change_matches(oes@, nes@, pre[k]));
                            match pre[k].status {
                                ChangeStatus::Deleted => {
                                    let e = choose|e: int|
                                        0 <= e < j && oes@[e].path@ == pre[k].file_path@;
                                    assert(oes@[e].path@ == oes@[j as int].path@);
                                },
                                _ => {
                                    assert(has_path(nes@, pre[k].file_path@));
                                },
                            }
                        }
                    }
                }
                r.push(FileChange { file_path: oes[j].path.clone(), status: ChangeStatus::Deleted });
                proof {
                    assert(r@[r@.len() - 1].file_path@ == oes@[j as int].path@);
                    assert forall|e: int|
                        0 <= e < nes@.len() && path_differs(oes@, nes@, #[trigger] nes@[e].path@)
                        implies reported(r@, nes@[e].path@) by {
                        let k = choose|k: int| 0 <= k < pre.len() && pre[k].file_path@ == nes@[e].path@;
                        assert(r@[k].file_path@ == nes@[e].path@);
                    }
                    assert forall|e: int|
                        0 <= e < j + 1 && !has_path(nes@, #[trigger] oes@[e].path@)
                        implies reported(r@, oes@[e].path@) by {
                        if e < j {
                            let k = choose|k: int|
                                0 <= k < pre.len() && pre[k].file_path@ == oes@[e].path@;
                            assert(r@[k].file_path@ == oes@[e].path@);
                        } else {
                            assert(reported(r@, oes@[j as int].path@));
                        }
                    }
                }
            },
            Option::Some(_) => {},
        }
        j = j + 1;
    }
    proof {
        assert forall|p: Seq<char>|
            #![trigger has_path(nes@, p)]
            #![trigger has_path(oes@, p)]
            path_differs(oes@, nes@, p) implies reported(r@, p) by {
            if has_path(nes@, p) {
                let e = choose|e: int| 0 <= e < nes@.len() && nes@[e].path@ == p;
                assert(path_differs(oes@, nes@, nes@[e].path@));
            } else {
                let e = choose|e: int| 0 <= e < oes@.len() && oes@[e].path@ == p;
                assert(!has_path(nes@, oes@[e].path@));
            }
        }
    }
    r
}

/// Against an empty baseline — the comparison a root commit gets — the
/// diff reports exactly the paths of the snapshot, every one `Added`.
pub proof fn lemma_root_diff_all_added(old: Seq<TreeEntry>, new: Seq<TreeEntry>, r: Seq<FileChange>)
    requires
        old.len() == 0,
        entries_wf(new),
        diff_post(old, new, r),
    ensures
        forall|k: int| 0 <= k < r.len() ==> (#[trigger] r[k]).status == ChangeStatus::Added,
        forall|p: Seq<char>| #[trigger] has_path(new, p) <==> reported(r, p),
{
    assert forall|k: int| 0 <= k < r.len()
        implies (#[trigger] r[k]).status == ChangeStatus::Added by {
        assert(change_matches(old, new, r[k]));
        assert(!has_path(old, r[k].file_path@));
    }
    assert forall|p: Seq<char>| #[trigger] has_path(new, p) <==> reported(r, p) by {
        if has_path(new, p) {
            assert(path_differs(old, new, p));
        }
        if reported(r, p) {
            let k = choose|k: int| 0 <= k < r.len() && r[k].file_path@ == p;
            assert(change_matches(old, new, r[k]));
        }
    }
}

} // verus!
