//! The workspace: the list of repositories registered for analysis.
//!
//! The list itself is the model here; reading it from and writing it to
//! its on-disk home is the caller's concern.

use vstd::prelude::*;

verus! {

/// One registered repository: a display name, the local path the
/// repository was materialized at, the source URL where it was cloned
/// from one, and the registration time in seconds since the epoch.
#[derive(Debug, PartialEq, Eq)]
pub struct RepoEntry {
    pub name: String,
    pub path: String,
    pub url: Option<String>,
    pub added_at: i64,
}

impl Clone for RepoEntry {
    fn clone(&self) -> (r: Self)
        ensures
            r == *self,
    {
        let url: Option<String> = match &self.url {
            Option::Some(u) => Option::Some(u.clone()),
            Option::None => Option::None,
        };
        RepoEntry {
            name: self.name.clone(),
            path: self.path.clone(),
            url,
            added_at: self.added_at,
        }
    }
}

/// Relies on chrono::Utc::now for the clock reading at the call, in
/// whole seconds since the epoch. Nothing is promised of its value.
#[verifier::external_body]
fn now_timestamp() -> i64 {
    chrono::Utc::now().timestamp()
}

/// The ordered list of registered repositories, oldest first.
#[derive(Debug)]
pub struct Workspace {
    pub repos: Vec<RepoEntry>,
}

impl Workspace {
    /// A workspace with nothing registered yet.
    pub fn new() -> (w: Workspace)
        ensures
            w.repos@.len() == 0,
    {
        Workspace { repos: Vec::new() }
    }

    /// A workspace over an already-loaded list of entries.
    pub fn from_entries(repos: Vec<RepoEntry>) -> (w: Workspace)
        ensures
            w.repos@ == repos@,
    {
        Workspace { repos }
    }

    /// Registers a repository at the end of the list, stamped with the
    /// registration time read from the clock.
    pub fn add_repo(&mut self, name: String, path: String, url: Option<String>)
        ensures
            final(self).repos@.len() == old(self).repos@.len() + 1,
            forall|k: int|
                0 <= k < old(self).repos@.len()
                    ==> final(self).repos@[k] == old(self).repos@[k],
            final(self).repos@.last().name == name,
            final(self).repos@.last().path == path,
            final(self).repos@.last().url == url,
    {
        let added_at = now_timestamp();
        self.repos.push(RepoEntry { name, path, url, added_at });
    }

    /// The most recently registered repository, when one exists.
    pub fn get_last_repo(&self) -> (r: Option<RepoEntry>)
        ensures
            match r {
                Some(e) => self.repos@.len() > 0 && e == self.repos@.last(),
                None => self.repos@.len() == 0,
            },
    {
        if self.repos.len() > 0 {
            Some(self.repos[self.repos.len() - 1].clone())
        } else {
            None
        }
    }

    /// The repository path a command works on: the explicit path when
    /// one was given, otherwise the most recently registered entry's
    /// path, and nothing when the workspace is empty.
    pub fn resolve_repo_path(&self, explicit: Option<String>) -> (r: Option<String>)
        ensures
            explicit matches Some(p) ==> r == Some(p),
            explicit is None && self.repos@.len() > 0
                ==> r == Some(self.repos@.last().path),
            explicit is None && self.repos@.len() == 0 ==> r is None,
    {
        match explicit {
            Option::Some(p) => Option::Some(p),
            Option::None => match self.get_last_repo() {
                Option::Some(e) => Option::Some(e.path),
                Option::None => Option::None,
            },
        }
    }

    /// Every registered repository, oldest first.
    pub fn list_repos(&self) -> (r: Vec<RepoEntry>)
        ensures
            r@ == self.repos@,
    {
        let mut r: Vec<RepoEntry> = Vec::new();
        let mut i: usize = 0;
        while i < self.repos.len()
            invariant
                i <= self.repos@.len(),
                r@.len() == i as nat,
                forall|k: int| 0 <= k < i ==> r@[k] == self.repos@[k],
            decreases self.repos@.len() - i,
        {
            r.push(self.repos[i].clone());
            i = i + 1;
        }
        proof {
            assert(r@ =~= self.repos@);
        }
        r
    }
}

} // verus!
