//! Changes of the inventory that the user asks for, one path at a time. The paths
//! are canonical; the caller checks that they exist and resolves them.
use vstd::prelude::*;
use crate::discovery::{
    contains_path, discover, found_from, path_views, paths_at, repo_paths, DirTree,
};
use crate::persist::{insert_by_path, insert_in_path_order};
use crate::reconcile::{kept, lemma_insert_keeps_order, lemma_kept_ordered, retain_flagged};
use crate::state::{Repository, State};

verus! {

/// For each repository, whether its path is not among `paths`.
pub open spec fn not_listed(repos: Seq<Repository>, paths: Seq<Seq<char>>) -> Seq<bool> {
    Seq::new(repos.len(), |k: int| !paths.contains(repos[k].path@))
}

/// Whether `p` is the path of one of `repos`.
fn lists_path(repos: &Vec<Repository>, p: &String) -> (r: bool)
    ensures
        r == repo_paths(repos@).contains(p@),
{
    let mut k: usize = 0;
    while k < repos.len()
        invariant
            k <= repos@.len(),
            forall|j: int| 0 <= j < k ==> repos@[j].path@ != p@,
        decreases repos@.len() - k,
    {
        if repos[k].path == *p {
            assert(repo_paths(repos@)[k as int] == p@);
            return true;
        }
        k = k + 1;
    }
    assert forall|j: int| 0 <= j < repo_paths(repos@).len() implies repo_paths(repos@)[j] != p@ by {
        assert(repo_paths(repos@)[j] == repos@[j].path@);
    }
    false
}

impl State {
    /// Adds a repository at `path`, at its place by path, unless one is known there.
    pub fn add_repository(&mut self, path: String) -> (added: bool)
        ensures
            added == !repo_paths(old(self).repositories@).contains(path@),
            added ==> final(self).repositories@ == insert_by_path(
                old(self).repositories@,
                Repository { path, check_time: None, hook: None },
            ),
            !added ==> final(self).repositories == old(self).repositories,
            old(self).wf() ==> final(self).wf(),
            final(self).watched == old(self).watched,
            final(self).ignored == old(self).ignored,
            final(self).keys == old(self).keys,
    {
        if self.has_repo_at_path(path.as_str()) {
            false
        } else {
            let ghost before = self.repositories@;
            let x = Repository::new(path);
            insert_in_path_order(&mut self.repositories, x);
            proof {
                if old(self).wf() {
                    lemma_insert_keeps_order(before, x);
                }
            }
            true
        }
    }

    /// Forgets every repository whose path is one of `paths`.
    fn forget_listed(&mut self, paths: &Vec<Repository>)
        ensures
            final(self).repositories@ == kept(
                old(self).repositories@,
                not_listed(old(self).repositories@, repo_paths(paths@)),
            ),
            final(self).watched == old(self).watched,
            final(self).ignored == old(self).ignored,
            final(self).keys == old(self).keys,
    {
        let mut flags: Vec<bool> = Vec::new();
        let mut k: usize = 0;
        while k < self.repositories.len()
            invariant
                *self == *old(self),
                k <= self.repositories@.len(),
                flags@ == not_listed(self.repositories@, repo_paths(paths@)).subrange(0, k as int),
            decreases self.repositories@.len() - k,
        {
            let listed = lists_path(paths, &self.repositories[k].path);
            flags.push(!listed);
            assert(flags@ =~= not_listed(self.repositories@, repo_paths(paths@)).subrange(0, k + 1));
            k = k + 1;
        }
        assert(flags@ =~= not_listed(self.repositories@, repo_paths(paths@)));
        retain_flagged(&mut self.repositories, &flags);
    }

    /// Forgets the repository at `path`; the result tells whether one was known there.
    pub fn forget_repository(&mut self, path: String) -> (known: bool)
        ensures
            known == repo_paths(old(self).repositories@).contains(path@),
            final(self).repositories@ == kept(
                old(self).repositories@,
                not_listed(old(self).repositories@, seq![path@]),
            ),
            old(self).wf() ==> final(self).wf(),
            final(self).watched == old(self).watched,
            final(self).ignored == old(self).ignored,
            final(self).keys == old(self).keys,
    {
        let known = self.has_repo_at_path(path.as_str());
        let mut listed: Vec<Repository> = Vec::new();
        listed.push(Repository::new(path));
        assert(repo_paths(listed@) =~= seq![path@]);
        self.forget_listed(&listed);
        proof {
            if old(self).wf() {
                lemma_kept_ordered(
                    old(self).repositories@,
                    not_listed(old(self).repositories@, seq![path@]),
                );
            }
        }
        known
    }

    /// Watches the directory `path` unless it is watched already.
    pub fn watch_directory(&mut self, path: String) -> (added: bool)
        ensures
            added == !path_views(old(self).watched@).contains(path@),
            added ==> final(self).watched@ == old(self).watched@.push(path),
            !added ==> final(self).watched == old(self).watched,
            final(self).repositories == old(self).repositories,
            final(self).ignored == old(self).ignored,
            final(self).keys == old(self).keys,
    {
        if contains_path(&self.watched, &path) {
            false
        } else {
            self.watched.push(path);
            true
        }
    }

    /// Stops watching the directory `path`, when it is watched, and forgets every
    /// repository that discovery finds in `tree`, its snapshot. The result tells
    /// whether it was watched.
    pub fn unwatch_directory(&mut self, path: &String, tree: &DirTree) -> (was_watched: bool)
        requires
            tree.nodes@.len() > 0,
        ensures
            was_watched == path_views(old(self).watched@).contains(path@),
            was_watched ==> final(self).watched@ == kept(
                old(self).watched@,
                Seq::new(old(self).watched@.len(), |k: int| old(self).watched@[k]@ != path@),
            ) && final(self).repositories@ == kept(
                old(self).repositories@,
                not_listed(
                    old(self).repositories@,
                    paths_at(tree.nodes@, found_from(tree.nodes@, path_views(old(self).ignored@), 0, 0)),
                ),
            ),
            !was_watched ==> final(self).watched == old(self).watched && final(self).repositories
                == old(self).repositories,
            old(self).wf() ==> final(self).wf(),
            final(self).ignored == old(self).ignored,
            final(self).keys == old(self).keys,
    {
        if !contains_path(&self.watched, path) {
            return false;
        }
        let mut flags: Vec<bool> = Vec::new();
        let mut k: usize = 0;
        while k < self.watched.len()
            invariant
                *self == *old(self),
                k <= self.watched@.len(),
                flags@ == Seq::new(self.watched@.len(), |j: int| self.watched@[j]@ != path@).subrange(
                    0,
                    k as int,
                ),
            decreases self.watched@.len() - k,
        {
            let other = self.watched[k] != *path;
            flags.push(other);
            assert(flags@ =~= Seq::new(self.watched@.len(), |j: int| self.watched@[j]@ != path@).subrange(
                0,
                k + 1,
            ));
            k = k + 1;
        }
        assert(flags@ =~= Seq::new(self.watched@.len(), |j: int| self.watched@[j]@ != path@));
        retain_flagged(&mut self.watched, &flags);
        let found = discover(&self.ignored, tree, 0, 0);
        let ghost before = self.repositories@;
        self.forget_listed(&found);
        proof {
            if old(self).wf() {
                lemma_kept_ordered(before, not_listed(before, repo_paths(found@)));
            }
        }
        true
    }

    /// Ignores the directory `path`, unless it is ignored already: every repository
    /// that discovery finds in `tree`, its snapshot, is forgotten, then the path is
    /// added to the ignored ones. The result tells whether it was newly ignored.
    pub fn ignore_directory(&mut self, path: String, tree: &DirTree) -> (added: bool)
        requires
            tree.nodes@.len() > 0,
        ensures
            added == !path_views(old(self).ignored@).contains(path@),
            added ==> final(self).ignored@ == old(self).ignored@.push(path) && final(self).repositories@ == kept(
                old(self).repositories@,
                not_listed(
                    old(self).repositories@,
                    paths_at(tree.nodes@, found_from(tree.nodes@, path_views(old(self).ignored@), 0, 0)),
                ),
            ),
            !added ==> final(self).ignored == old(self).ignored && final(self).repositories
                == old(self).repositories,
            old(self).wf() ==> final(self).wf(),
            final(self).watched == old(self).watched,
            final(self).keys == old(self).keys,
    {
        if contains_path(&self.ignored, &path) {
            return false;
        }
        let found = discover(&self.ignored, tree, 0, 0);
        self.forget_listed(&found);
        proof {
            if old(self).wf() {
                lemma_kept_ordered(old(self).repositories@, not_listed(old(self).repositories@, repo_paths(found@)));
            }
        }
        self.ignored.push(path);
        true
    }
}

} // verus!
