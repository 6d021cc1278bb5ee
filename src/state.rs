//! The persisted inventory: watched directories, ignored paths, known repositories.
use vstd::prelude::*;
use crate::discovery::repo_paths;
use crate::text::str_equal;
use crate::repository_info::{display_name, RepositoryInfo, RepositoryState};
use crate::schedule::{by_wall_time, sorted_by_wall_time};
use crate::persist::path_le;

verus! {

/// A known repository: its canonical path, how long its last run took, and the
/// command to run after a successful update.
#[derive(Debug)]
pub struct Repository {
    /// The path to the repository.
    pub path: String,
    /// The time (ms) the last run took on this repository.
    pub check_time: Option<usize>,
    /// A command that is run after a successful update.
    pub hook: Option<String>,
}

impl Repository {
    /// A repository at `path`, never run, without a hook.
    pub fn new(path: String) -> (r: Repository)
        ensures
            r.path == path,
            r.check_time.is_none(),
            r.hook.is_none(),
    {
        Repository { path, check_time: None, hook: None }
    }
}

impl Repository {
    /// A copy of this record.
    pub fn duplicate(&self) -> (r: Repository)
        ensures
            r == *self,
    {
        let hook = match &self.hook {
            Some(h) => Some(h.clone()),
            None => None,
        };
        Repository { path: self.path.clone(), check_time: self.check_time, hook }
    }
}

/// What a repository record says, as mathematical values.
pub struct RepoView {
    pub path: Seq<char>,
    pub check_time: Option<usize>,
    pub hook: Option<Seq<char>>,
}

impl View for Repository {
    type V = RepoView;

    open spec fn view(&self) -> RepoView {
        RepoView {
            path: self.path@,
            check_time: self.check_time,
            hook: match self.hook {
                Some(h) => Some(h@),
                None => None,
            },
        }
    }
}

/// The views of a list of repositories.
pub open spec fn repo_views(r: Seq<Repository>) -> Seq<RepoView> {
    r.map_values(|x: Repository| x@)
}

/// `r` with its duration replaced by the one that the last record at its path in
/// `infos` measured; unchanged when no record is at its path.
pub open spec fn timed(infos: Seq<RepositoryInfo>, r: Repository) -> Repository
    decreases infos.len(),
{
    if infos.len() == 0 {
        r
    } else if infos.last().path@ == r.path@ {
        Repository { check_time: infos.last().check_time, ..r }
    } else {
        timed(infos.drop_last(), r)
    }
}

/// Every repository of `repos` with the durations of `infos` folded in.
pub open spec fn retimed(repos: Seq<Repository>, infos: Seq<RepositoryInfo>) -> Seq<Repository> {
    repos.map_values(|r: Repository| timed(infos, r))
}

/// Every record of `infos` is at the path of a repository of `repos`.
pub open spec fn all_known(repos: Seq<Repository>, infos: Seq<RepositoryInfo>) -> bool {
    forall|i: int| 0 <= i < infos.len() ==> repo_paths(repos).contains(#[trigger] infos[i].path@)
}

/// `info` is the fresh per-run record of `r`.
pub open spec fn fresh_info(info: RepositoryInfo, r: Repository) -> bool {
    &&& info.path == r.path
    &&& info.hook == r.hook
    &&& info.name@ == display_name(r.path@)
    &&& info.state == RepositoryState::Unknown
    &&& info.stashed == 0
    &&& info.check_time.is_none()
}

pub(crate) proof fn lemma_timed_keeps(infos: Seq<RepositoryInfo>, r: Repository)
    ensures
        timed(infos, r).path == r.path,
        timed(infos, r).hook == r.hook,
    decreases infos.len(),
{
    if infos.len() > 0 {
        lemma_timed_keeps(infos.drop_last(), r);
    }
}

/// The error of a store operation.
#[derive(Clone, Copy, Debug, PartialEq, Eq, Structural)]
pub enum StateError {
    /// A record names a repository that the inventory does not know.
    UnknownRepository,
}

/// A named private key.
#[derive(Debug)]
pub struct SshKey {
    /// The name of the key.
    pub name: String,
    /// The path to the private key.
    pub path: String,
}

/// The inventory: watched directories, ignored paths, known repositories and keys.
#[derive(Debug)]
pub struct State {
    /// All paths that are watched for new repositories.
    pub watched: Vec<String>,
    /// All paths that are explicitly ignored.
    pub ignored: Vec<String>,
    pub repositories: Vec<Repository>,
    pub keys: Vec<SshKey>,
}

/// The paths strictly increase: the repositories are sorted by path and no two
/// share a path.
pub open spec fn ordered_paths(r: Seq<Repository>) -> bool {
    forall|a: int, b: int|
        0 <= a < b < r.len() ==> path_le((#[trigger] r[a]).path@, (#[trigger] r[b]).path@)
            && r[a].path@ != r[b].path@
}

/// Index of the first repository at `path`, if any.
pub open spec fn first_at(r: Seq<Repository>, path: Seq<char>) -> Option<int>
    decreases r.len(),
{
    if r.len() == 0 {
        None
    } else {
        match first_at(r.drop_last(), path) {
            Some(k) => Some(k),
            None => if r.last().path@ == path {
                Some(r.len() - 1)
            } else {
                None
            },
        }
    }
}

pub(crate) proof fn lemma_first_at(r: Seq<Repository>, path: Seq<char>)
    ensures
        match first_at(r, path) {
            Some(k) => 0 <= k < r.len() && r[k].path@ == path && forall|j: int|
                0 <= j < k ==> (#[trigger] r[j]).path@ != path,
            None => forall|j: int| 0 <= j < r.len() ==> (#[trigger] r[j]).path@ != path,
        },
        first_at(r, path).is_some() == repo_paths(r).contains(path),
    decreases r.len(),
{
    if r.len() > 0 {
        lemma_first_at(r.drop_last(), path);
        assert forall|j: int| 0 <= j < r.len() - 1 implies (#[trigger] r[j]) == r.drop_last()[j] by {}
    }
    if first_at(r, path).is_some() {
        let k = first_at(r, path).unwrap();
        assert(repo_paths(r)[k] == path);
    } else {
        assert forall|j: int| 0 <= j < repo_paths(r).len() implies repo_paths(r)[j] != path by {
            assert(repo_paths(r)[j] == r[j].path@);
        }
    }
}

impl State {
    /// The inventory's invariant: the repositories are sorted by path, and no two
    /// share a path.
    pub open spec fn wf(&self) -> bool {
        ordered_paths(self.repositories@)
    }

    /// An empty inventory.
    pub fn new() -> (r: State)
        ensures
            r.wf(),
            r.watched@.len() == 0,
            r.ignored@.len() == 0,
            r.repositories@.len() == 0,
            r.keys@.len() == 0,
    {
        State { ignored: Vec::new(), watched: Vec::new(), repositories: Vec::new(), keys: Vec::new() }
    }

    /// Index of the first repository at `path`.
    pub fn repo_index(&self, path: &str) -> (r: Option<usize>)
        ensures
            r.is_some() == first_at(self.repositories@, path@).is_some(),
            r.is_some() ==> first_at(self.repositories@, path@) == Some(r.unwrap() as int),
    {
        proof {
            lemma_first_at(self.repositories@, path@);
        }
        let mut k: usize = 0;
        while k < self.repositories.len()
            invariant
                k <= self.repositories@.len(),
                forall|j: int| 0 <= j < k ==> (#[trigger] self.repositories@[j]).path@ != path@,
            decreases self.repositories@.len() - k,
        {
            if str_equal(self.repositories[k].path.as_str(), path) {
                proof {
                    lemma_first_at(self.repositories@, path@);
                }
                return Some(k);
            }
            k = k + 1;
        }
        None
    }

    /// The first repository at `path`, to be changed in place.
    pub fn repo_at_path(&mut self, path: &str) -> (r: Option<&mut Repository>)
        ensures
            first_at(old(self).repositories@, path@).is_none() ==> r.is_none() && *final(self) == *old(self),
            first_at(old(self).repositories@, path@).is_some() ==> r.is_some(),
            first_at(old(self).repositories@, path@).is_some() ==> *r.unwrap() == old(self).repositories@[first_at(old(self).repositories@, path@).unwrap()],
            first_at(old(self).repositories@, path@).is_some() ==> final(self).repositories@ == old(self).repositories@.update(first_at(old(self).repositories@, path@).unwrap(), *final(r.unwrap())),
            final(self).watched == old(self).watched,
            final(self).ignored == old(self).ignored,
            final(self).keys == old(self).keys,
    {
        proof {
            lemma_first_at(self.repositories@, path@);
        }
        match self.repo_index(path) {
            Some(k) => {
                let repos = &mut self.repositories;
                let e = &mut repos[k];
                Some(e)
            },
            None => None,
        }
    }

    /// Folds the durations measured in a run back into the inventory: each known
    /// repository takes the duration of the last record at its path. Records at
    /// unknown paths are skipped and make the result an error.
    pub fn update_check_times(&mut self, repo_infos: &Vec<RepositoryInfo>) -> (r: Result<(), StateError>)
        ensures
            final(self).repositories@ == retimed(old(self).repositories@, repo_infos@),
            old(self).wf() ==> final(self).wf(),
            final(self).watched == old(self).watched,
            final(self).ignored == old(self).ignored,
            final(self).keys == old(self).keys,
            r is Ok <==> all_known(old(self).repositories@, repo_infos@),
            r is Err ==> r == Err::<(), StateError>(StateError::UnknownRepository),
    {
        let ghost orig = self.repositories@;
        let mut missing = false;
        let mut i: usize = 0;
        assert(retimed(orig, repo_infos@.subrange(0, 0)) =~= orig);
        while i < repo_infos.len()
            invariant
                i <= repo_infos@.len(),
                self.repositories@ == retimed(orig, repo_infos@.subrange(0, i as int)),
                self.watched == old(self).watched,
                self.ignored == old(self).ignored,
                self.keys == old(self).keys,
                orig == old(self).repositories@,
                missing == !all_known(orig, repo_infos@.subrange(0, i as int)),
            decreases repo_infos@.len() - i,
        {
            let info = &repo_infos[i];
            let ghost pre = repo_infos@.subrange(0, i as int);
            let ghost post = repo_infos@.subrange(0, i + 1);
            assert(post.drop_last() =~= pre);
            assert(post.last() == *info);
            let mut found = false;
            let mut k: usize = 0;
            while k < self.repositories.len()
                invariant
                    k <= self.repositories@.len(),
                    self.repositories@.len() == orig.len(),
                    post.drop_last() == pre,
                    post.last() == *info,
                    post.len() == i + 1,
                    forall|j: int| 0 <= j < k ==> #[trigger] self.repositories@[j] == timed(post, orig[j]),
                    forall|j: int| k <= j < orig.len() ==> #[trigger] self.repositories@[j] == timed(pre, orig[j]),
                    found == exists|j: int| 0 <= j < k && #[trigger] orig[j].path@ == info.path@,
                    self.watched == old(self).watched,
                    self.ignored == old(self).ignored,
                    self.keys == old(self).keys,
                decreases self.repositories@.len() - k,
            {
                proof {
                    lemma_timed_keeps(pre, orig[k as int]);
                }
                if str_equal(self.repositories[k].path.as_str(), info.path.as_str()) {
                    self.repositories[k].check_time = info.check_time;
                    found = true;
                    assert(timed(post, orig[k as int]) == Repository {
                        check_time: info.check_time,
                        ..orig[k as int]
                    });
                } else {
                    assert(timed(post, orig[k as int]) == timed(pre, orig[k as int]));
                }
                k = k + 1;
            }
            proof {
                assert(self.repositories@ =~= retimed(orig, post));
                if found {
                    let j = choose|j: int| 0 <= j < k && #[trigger] orig[j].path@ == info.path@;
                    assert(repo_paths(orig)[j] == info.path@);
                } else {
                    assert forall|j: int| 0 <= j < repo_paths(orig).len() implies repo_paths(orig)[j] != info.path@ by {
                        assert(repo_paths(orig)[j] == orig[j].path@);
                    }
                }
                assert forall|m: int| 0 <= m < pre.len() implies pre[m] == post[m] by {}
            }
            if !found {
                missing = true;
            }
            i = i + 1;
        }
        assert(repo_infos@.subrange(0, i as int) =~= repo_infos@);
        proof {
            assert forall|j: int| 0 <= j < orig.len() implies #[trigger] self.repositories@[j].path
                == orig[j].path by {
                lemma_timed_keeps(repo_infos@, orig[j]);
            }
        }
        if missing {
            Err(StateError::UnknownRepository)
        } else {
            Ok(())
        }
    }

    /// The per-run records of all known repositories, longest-running first.
    pub fn repo_infos_by_wall_time(&self) -> (r: Vec<RepositoryInfo>)
        ensures
            r@.len() == self.repositories@.len(),
            forall|k: int|
                0 <= k < r@.len() ==> fresh_info(#[trigger] r@[k], by_wall_time(self.repositories@)[k]),
    {
        let repos = sorted_by_wall_time(&self.repositories);
        let mut infos: Vec<RepositoryInfo> = Vec::new();
        let mut k: usize = 0;
        while k < repos.len()
            invariant
                k <= repos@.len(),
                repos@ == by_wall_time(self.repositories@),
                infos@.len() == k,
                forall|j: int| 0 <= j < k ==> fresh_info(#[trigger] infos@[j], repos@[j]),
            decreases repos@.len() - k,
        {
            let repo = repos[k].duplicate();
            infos.push(RepositoryInfo::new(repo.path, repo.hook));
            k = k + 1;
        }
        proof {
            crate::schedule::lemma_wall_time_order(self.repositories@);
        }
        infos
    }

    /// Whether a repository at `path` is known.
    pub fn has_repo_at_path(&self, path: &str) -> (r: bool)
        ensures
            r == repo_paths(self.repositories@).contains(path@),
    {
        proof {
            lemma_first_at(self.repositories@, path@);
        }
        self.repo_index(path).is_some()
    }
}

} // verus!
