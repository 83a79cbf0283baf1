//! The boundary to the text-generation collaborator, and the plain
//! computations of the command flows around it.
//!
//! The collaborator itself is an opaque external service: this module
//! only produces the flattened commit listings handed to it, decides
//! success or failure from a response status, and computes the
//! selections of commit records the flows feed it.

use vstd::prelude::*;
use crate::records::{ChangeStatus, Commit, CommitView, FileChangeView};

verus! {

/// The downstream text-generation call failed or returned a non-success
/// status; `context` carries the response body.
#[derive(Debug, PartialEq, Eq)]
pub struct ExternalServiceError {
    pub status: u16,
    pub context: String,
}

/// Decides the outcome of a service response: a success status (2xx)
/// yields the body, anything else the error, with the response context
/// attached.
pub fn service_outcome(status: u16, body: String) -> (r: Result<String, ExternalServiceError>)
    ensures
        (r is Ok) <==> (200 <= status < 300),
        r matches Ok(b) ==> b == body,
        r matches Err(e) ==> e.status == status && e.context == body,
{
    if 200 <= status && status < 300 {
        Result::Ok(body)
    } else {
        Result::Err(ExternalServiceError { status, context: body })
    }
}

/// The generated text of a response, or the fixed fallback where the
/// service produced no candidate.
pub fn response_text_or_default(text: Option<String>) -> (r: String)
    ensures
        text matches Some(t) ==> r == t,
        text is None ==> r@ == "No response generated"@,
{
    match text {
        Option::Some(t) => t,
        Option::None => "No response generated".to_owned(),
    }
}

/// One line of the brief listing: `- <hash-prefix>: <message>`.
pub open spec fn brief_line(c: CommitView) -> Seq<char> {
    "- "@ + c.hash.subrange(0, 7) + ": "@ + c.message
}

/// The brief listing: one line per commit, joined with newlines.
pub open spec fn brief_lines(cs: Seq<Commit>) -> Seq<char>
    decreases cs.len(),
{
    if cs.len() == 0 {
        Seq::empty()
    } else if cs.len() == 1 {
        brief_line(cs[0]@)
    } else {
        brief_lines(cs.drop_last()) + "\n"@ + brief_line(cs.last()@)
    }
}

/// Flattens commit records into the brief form the text-generation
/// boundary receives: `- <hash-prefix>: <message>` per commit,
/// newline-separated. Hashes shorter than the seven-character prefix
/// are left out by precondition; a content-derived hex digest is longer.
pub fn format_commit_lines(commits: &Vec<Commit>) -> (r: String)
    requires
        forall|k: int| 0 <= k < commits@.len() ==> (#[trigger] commits@[k]).hash@.len() >= 7,
    ensures
        r@ == brief_lines(commits@),
{
    let mut out = String::new();
    let mut i: usize = 0;
    while i < commits.len()
        invariant
            forall|k: int| 0 <= k < commits@.len() ==> (#[trigger] commits@[k]).hash@.len() >= 7,
            i <= commits@.len(),
            out@ == brief_lines(commits@.subrange(0, i as int)),
        decreases commits@.len() - i,
    {
        if i > 0 {
            out.append("\n");
        }
        let c = &commits[i];
        out.append("- ");
        let prefix = c.hash.as_str().substring_char(0, 7);
        out.append(prefix);
        out.append(": ");
        out.append(c.message.as_str());
        proof {
            let sub1 = commits@.subrange(0, i as int);
            let sub2 = commits@.subrange(0, i as int + 1);
            assert(sub2.drop_last() =~= sub1);
            assert(sub2.last() == commits@[i as int]);
            assert(sub2[0] == commits@[0]);
            assert(out@ =~= brief_lines(sub2));
        }
        i = i + 1;
    }
    proof {
        assert(commits@.subrange(0, commits@.len() as int) =~= commits@);
    }
    out
}

/// One line of the detailed listing for a single file delta.
pub open spec fn file_line(fc: FileChangeView) -> Seq<char> {
    "  - "@ + fc.file_path + " ("@ + fc.status.label_spec() + ")\n"@
}

/// The file-delta lines of one commit, in delta order.
pub open spec fn file_lines(fs: Seq<FileChangeView>) -> Seq<char>
    decreases fs.len(),
{
    if fs.len() == 0 {
        Seq::empty()
    } else {
        file_lines(fs.drop_last()) + file_line(fs.last())
    }
}

/// The detailed block of one commit: its header line and its file lines.
pub open spec fn history_block(c: CommitView) -> Seq<char> {
    "- "@ + c.hash + ": "@ + c.message + "\n"@ + file_lines(c.files_changed)
}

/// The detailed listing: a fixed header, then one block per commit.
pub open spec fn history_text(cs: Seq<Commit>) -> Seq<char>
    decreases cs.len(),
{
    if cs.len() == 0 {
        "Commit History:\n"@
    } else {
        history_text(cs.drop_last()) + history_block(cs.last()@)
    }
}

/// Flattens commit records into the detailed form: a header, then per
/// commit the full hash, the message and every file delta with its
/// status label.
pub fn format_commit_history(commits: &Vec<Commit>) -> (r: String)
    ensures
        r@ == history_text(commits@),
{
    let mut out = "Commit History:\n".to_owned();
    let mut i: usize = 0;
    while i < commits.len()
        invariant
            i <= commits@.len(),
            out@ == history_text(commits@.subrange(0, i as int)),
        decreases commits@.len() - i,
    {
        let c = &commits[i];
        let mut block = String::new();
        block.append("- ");
        block.append(c.hash.as_str());
        block.append(": ");
        block.append(c.message.as_str());
        block.append("\n");
        let ghost head = block@;
        proof {
            assert(head =~= "- "@ + c.hash@ + ": "@ + c.message@ + "\n"@);
        }
        let mut j: usize = 0;
        while j < c.files_changed.len()
            invariant
                j <= c.files_changed@.len(),
                block@ == head + file_lines(c.files_changed.deep_view().subrange(0, j as int)),
            decreases c.files_changed@.len() - j,
        {
            let f = &c.files_changed[j];
            let label = f.status.label();
            block.append("  - ");
            block.append(f.file_path.as_str());
            block.append(" (");
            block.append(label.as_str());
            block.append(")\n");
            proof {
                let deep = c.files_changed.deep_view();
                let fsub1 = deep.subrange(0, j as int);
                let fsub2 = deep.subrange(0, j as int + 1);
                assert(fsub2.drop_last() =~= fsub1);
                assert(fsub2.last() == deep[j as int]);
                assert(deep[j as int] == c.files_changed@[j as int]@);
                assert(block@ =~= head + file_lines(fsub2));
            }
            j = j + 1;
        }
        proof {
            let deep = c.files_changed.deep_view();
            assert(deep.subrange(0, deep.len() as int) =~= deep);
            assert(block@ =~= history_block(c@));
            let sub1 = commits@.subrange(0, i as int);
            let sub2 = commits@.subrange(0, i as int + 1);
            assert(sub2.drop_last() =~= sub1);
            assert(sub2.last() == commits@[i as int]);
        }
        out.append(block.as_str());
        proof {
            assert(out@ =~= history_text(commits@.subrange(0, i as int + 1)));
        }
        i = i + 1;
    }
    proof {
        assert(commits@.subrange(0, commits@.len() as int) =~= commits@);
    }
    out
}

/// Whether `sub` occurs in `s` starting at position `i`.
pub open spec fn matches_at(s: Seq<char>, sub: Seq<char>, i: int) -> bool {
    0 <= i && i + sub.len() <= s.len() && s.subrange(i, i + sub.len()) == sub
}

/// Whether `sub` occurs anywhere in `s`.
pub open spec fn has_substring(s: Seq<char>, sub: Seq<char>) -> bool {
    exists|i: int| #[trigger] matches_at(s, sub, i)
}

/// Character-wise prefix test.
pub fn str_starts_with(s: &String, pre: &String) -> (r: bool)
    ensures
        r == pre@.is_prefix_of(s@),
{
    let n = s.as_str().unicode_len();
    let p = pre.as_str().unicode_len();
    if p > n {
        return false;
    }
    let mut i: usize = 0;
    while i < p
        invariant
            p <= n,
            n == s@.len(),
            p == pre@.len(),
            i <= p,
            forall|k: int| 0 <= k < i ==> s@[k] == pre@[k],
        decreases p - i,
    {
        if s.as_str().get_char(i) != pre.as_str().get_char(i) {
            proof {
                assert(s@.subrange(0, p as int)[i as int] != pre@[i as int]);
            }
            return false;
        }
        i = i + 1;
    }
    proof {
        assert(pre@ =~= s@.subrange(0, p as int));
    }
    true
}

/// Character-wise substring search.
pub fn str_contains(s: &String, sub: &String) -> (r: bool)
    ensures
        r == has_substring(s@, sub@),
{
    let n = s.as_str().unicode_len();
    let m = sub.as_str().unicode_len();
    if m > n {
        proof {
            assert(!has_substring(s@, sub@)) by {
                if has_substring(s@, sub@) {
                    let w = choose|w: int| matches_at(s@, sub@, w);
                }
            }
        }
        return false;
    }
    let mut i: usize = 0;
    while i <= n - m
        invariant
            m <= n,
            n == s@.len(),
            m == sub@.len(),
            i <= n - m + 1,
            forall|k: int| 0 <= k < i ==> !matches_at(s@, sub@, k),
        decreases n - m + 1 - i,
    {
        let mut j: usize = 0;
        let mut found_mismatch = false;
        while j < m && !found_mismatch
            invariant
                m <= n,
                n == s@.len(),
                m == sub@.len(),
                i <= n - m,
                j <= m,
                !found_mismatch ==> forall|k: int| 0 <= k < j ==> s@[i + k] == sub@[k],
                found_mismatch ==> !matches_at(s@, sub@, i as int),
                found_mismatch ==> m > 0,
            decreases m - j, (if found_mismatch { 0int } else { 1int }),
        {
            if s.as_str().get_char(i + j) != sub.as_str().get_char(j) {
                proof {
                    if matches_at(s@, sub@, i as int) {
                        assert(s@.subrange(i as int, i + m)[j as int] == sub@[j as int]);
                    }
                }
                found_mismatch = true;
            } else {
                j = j + 1;
            }
        }
        if !found_mismatch {
            proof {
                assert(s@.subrange(i as int, i + m) =~= sub@);
                assert(matches_at(s@, sub@, i as int));
            }
            return true;
        }
        i = i + 1;
    }
    proof {
        assert(!has_substring(s@, sub@)) by {
            if has_substring(s@, sub@) {
                let w = choose|w: int| matches_at(s@, sub@, w);
                assert(!matches_at(s@, sub@, w));
            }
        }
    }
    false
}

/// The commit names the reference: its hash starts with it, or its
/// message mentions it.
pub open spec fn matches_ref(c: CommitView, r: Seq<char>) -> bool {
    r.is_prefix_of(c.hash) || has_substring(c.message, r)
}

/// The commits more recent than the reference: the longest prefix of
/// the listing in which no commit names the reference.
pub fn commits_since(commits: &Vec<Commit>, reference: &String) -> (r: Vec<Commit>)
    ensures
        r@.len() <= commits@.len(),
        forall|t: int| 0 <= t < r@.len() ==> (#[trigger] r@[t])@ == commits@[t]@,
        forall|t: int|
            0 <= t < r@.len() ==> !matches_ref((#[trigger] commits@[t])@, reference@),
        (r@.len() as int) < commits@.len()
            ==> matches_ref(commits@[r@.len() as int]@, reference@),
{
    let mut r: Vec<Commit> = Vec::new();
    let mut i: usize = 0;
    while i < commits.len()
        invariant
            i <= commits@.len(),
            r@.len() == i as nat,
            forall|t: int| 0 <= t < i ==> (#[trigger] r@[t])@ == commits@[t]@,
            forall|t: int| 0 <= t < i ==> !matches_ref((#[trigger] commits@[t])@, reference@),
        decreases commits@.len() - i,
    {
        let c = &commits[i];
        if str_starts_with(&c.hash, reference) || str_contains(&c.message, reference) {
            return r;
        }
        r.push(c.clone());
        i = i + 1;
    }
    r
}

/// The first `count` commits of the listing — all of them where fewer
/// exist.
pub fn truncate_commits(commits: Vec<Commit>, count: usize) -> (r: Vec<Commit>)
    ensures
        count <= commits@.len() ==> r@ == commits@.subrange(0, count as int),
        count > commits@.len() ==> r@ == commits@,
{
    let mut kept = commits;
    kept.truncate(count);
    kept
}

/// Whether a repository source is a URL an external cloning collaborator
/// must first materialize, rather than a local path: the `http://`,
/// `https://` or `git@` SSH form.
pub fn is_repo_url(s: &String) -> (r: bool)
    ensures
        r == ("http://"@.is_prefix_of(s@) || "https://"@.is_prefix_of(s@)
            || "git@"@.is_prefix_of(s@)),
{
    let p1 = "http://".to_owned();
    if str_starts_with(s, &p1) {
        return true;
    }
    let p2 = "https://".to_owned();
    if str_starts_with(s, &p2) {
        return true;
    }
    let p3 = "git@".to_owned();
    str_starts_with(s, &p3)
}

/// Everything after the last `/`, or the whole text where none occurs.
pub open spec fn last_segment(s: Seq<char>) -> Seq<char>
    decreases s.len(),
{
    if s.len() == 0 {
        s
    } else if s[s.len() - 1] == '/' {
        Seq::empty()
    } else {
        last_segment(s.drop_last()).push(s[s.len() - 1])
    }
}

/// The text with every trailing `.git` removed.
pub open spec fn trim_git_suffix(s: Seq<char>) -> Seq<char>
    decreases s.len(),
{
    if s.len() >= 4 && s.subrange(s.len() - 4, s.len() as int) == ".git"@ {
        trim_git_suffix(s.subrange(0, s.len() - 4))
    } else {
        s
    }
}

proof fn lemma_last_segment_from(s: Seq<char>, pos: int)
    requires
        0 <= pos <= s.len(),
        forall|k: int| pos <= k < s.len() ==> s[k] != '/',
        pos > 0 ==> s[pos - 1] == '/',
    ensures
        last_segment(s) == s.subrange(pos, s.len() as int),
    decreases s.len(),
{
    if s.len() == 0 {
        assert(s.subrange(0, 0) =~= s);
    } else if pos == s.len() {
        assert(s[s.len() - 1] == '/');
        assert(s.subrange(pos, s.len() as int) =~= Seq::<char>::empty());
    } else {
        assert(s[s.len() - 1] != '/');
        let d = s.drop_last();
        lemma_last_segment_from(d, pos);
        assert(d.subrange(pos, d.len() as int).push(s[s.len() - 1])
            =~= s.subrange(pos, s.len() as int));
    }
}

/// The display name of a repository taken from its URL: the part after
/// the last slash, with any trailing `.git` removed.
pub fn repo_name_from_url(url: &String) -> (r: String)
    ensures
        r@ == trim_git_suffix(last_segment(url@)),
{
    let s = url.as_str();
    let n = s.unicode_len();
    let mut pos: usize = n;
    while pos > 0 && s.get_char(pos - 1) != '/'
        invariant
            n == s@.len(),
            pos <= n,
            forall|k: int| pos <= k < n ==> s@[k] != '/',
        decreases pos,
    {
        pos = pos - 1;
    }
    let mut name = s.substring_char(pos, n).to_owned();
    proof {
        lemma_last_segment_from(s@, pos as int);
        assert(name@ == last_segment(url@));
    }
    let mut done = false;
    while !done
        invariant
            trim_git_suffix(name@) == trim_git_suffix(last_segment(url@)),
            done ==> trim_git_suffix(name@) == name@,
        decreases name@.len() + if done { 0int } else { 1int },
    {
        let len = name.as_str().unicode_len();
        if len < 4 {
            done = true;
        } else {
            let c0 = name.as_str().get_char(len - 4);
            let c1 = name.as_str().get_char(len - 3);
            let c2 = name.as_str().get_char(len - 2);
            let c3 = name.as_str().get_char(len - 1);
            if c0 == '.' && c1 == 'g' && c2 == 'i' && c3 == 't' {
                proof {
                    reveal_strlit(".git");
                    assert(name@.subrange(len - 4, len as int) =~= ".git"@);
                }
                let shorter = name.as_str().substring_char(0, len - 4).to_owned();
                proof {
                    assert(trim_git_suffix(name@) == trim_git_suffix(shorter@));
                }
                name = shorter;
            } else {
                proof {
                    reveal_strlit(".git");
                    assert(name@.subrange(len - 4, len as int) != ".git"@) by {
                        if name@.subrange(len - 4, len as int) == ".git"@ {
                            assert(name@.subrange(len - 4, len as int)[0] == '.');
                            assert(name@.subrange(len - 4, len as int)[1] == 'g');
                            assert(name@.subrange(len - 4, len as int)[2] == 'i');
                            assert(name@.subrange(len - 4, len as int)[3] == 't');
                        }
                    }
                    assert(trim_git_suffix(name@) == name@);
                }
                done = true;
            }
        }
    }
    name
}

} // verus!
