//! Commands run after a repository was updated, kept with the repository's record.
use vstd::prelude::*;
use crate::cli::{Follow, HooksCmd};
use crate::state::{first_at, lemma_first_at, Repository, State};

verus! {

/// Why a hook command failed.
#[derive(Clone, Copy, Debug, PartialEq, Eq, Structural)]
pub enum HookError {
    /// No repository is known at the path.
    UnknownRepository,
}

/// The inventory after the hook of the first repository at `path` was set to `hook`;
/// `None` when no repository is known there.
pub open spec fn with_hook(
    repos: Seq<Repository>,
    path: Seq<char>,
    hook: Option<String>,
) -> Option<Seq<Repository>> {
    match first_at(repos, path) {
        Some(k) => Some(repos.update(k, Repository { hook, ..repos[k] })),
        None => None,
    }
}

/// Sets the hook of the repository at the canonical path `path`.
pub fn add_hook(state: &mut State, path: &str, command: String) -> (r: Result<(), HookError>)
    ensures
        match with_hook(old(state).repositories@, path@, Some(command)) {
            Some(repos) => r is Ok && final(state).repositories@ == repos,
            None => r == Err::<(), HookError>(HookError::UnknownRepository) && final(state).repositories
                == old(state).repositories,
        },
        old(state).wf() ==> final(state).wf(),
        final(state).watched == old(state).watched,
        final(state).ignored == old(state).ignored,
        final(state).keys == old(state).keys,
{
    let r = match state.repo_at_path(path) {
        Some(repo) => {
            repo.hook = Some(command);
            Ok(())
        },
        None => Err(HookError::UnknownRepository),
    };
    proof {
        lemma_first_at(old(state).repositories@, path@);
        if let Some(k) = first_at(old(state).repositories@, path@) {
            assert forall|j: int| 0 <= j < state.repositories@.len() implies #[trigger] state.repositories@[j].path
                == old(state).repositories@[j].path by {
                if j == k {
                    assert(state.repositories@[j].path == old(state).repositories@[k].path);
                }
            }
        }
    }
    r
}

/// Removes the hook of the repository at the canonical path `path`.
pub fn remove_hook(state: &mut State, path: &str) -> (r: Result<(), HookError>)
    ensures
        match with_hook(old(state).repositories@, path@, None) {
            Some(repos) => r is Ok && final(state).repositories@ == repos,
            None => r == Err::<(), HookError>(HookError::UnknownRepository) && final(state).repositories
                == old(state).repositories,
        },
        old(state).wf() ==> final(state).wf(),
        final(state).watched == old(state).watched,
        final(state).ignored == old(state).ignored,
        final(state).keys == old(state).keys,
{
    let r = match state.repo_at_path(path) {
        Some(repo) => {
            repo.hook = None;
            Ok(())
        },
        None => Err(HookError::UnknownRepository),
    };
    proof {
        lemma_first_at(old(state).repositories@, path@);
        if let Some(k) = first_at(old(state).repositories@, path@) {
            assert forall|j: int| 0 <= j < state.repositories@.len() implies #[trigger] state.repositories@[j].path
                == old(state).repositories@[j].path by {
                if j == k {
                    assert(state.repositories@[j].path == old(state).repositories@[k].path);
                }
            }
        }
    }
    r
}

/// Carries out a hook command; its path is the canonical path of a repository.
pub fn handle_hooks_command(state: &mut State, cmd: HooksCmd) -> (r: Result<Follow, HookError>)
    ensures
        match cmd {
            HooksCmd::Add { repo_path, command } => match with_hook(
                old(state).repositories@,
                repo_path@,
                Some(command),
            ) {
                Some(repos) => r == Ok::<Follow, HookError>(Follow::Save) && final(state).repositories@
                    == repos,
                None => r == Err::<Follow, HookError>(HookError::UnknownRepository) && final(state).repositories
                    == old(state).repositories,
            },
            HooksCmd::List => r == Ok::<Follow, HookError>(Follow::List) && final(state).repositories
                == old(state).repositories,
            HooksCmd::Remove { repo_path } => match with_hook(
                old(state).repositories@,
                repo_path@,
                None,
            ) {
                Some(repos) => r == Ok::<Follow, HookError>(Follow::Save) && final(state).repositories@
                    == repos,
                None => r == Err::<Follow, HookError>(HookError::UnknownRepository) && final(state).repositories
                    == old(state).repositories,
            },
        },
        final(state).watched == old(state).watched,
        final(state).ignored == old(state).ignored,
        final(state).keys == old(state).keys,
{
    match cmd {
        HooksCmd::Add { repo_path, command } => match add_hook(state, repo_path.as_str(), command) {
            Ok(()) => Ok(Follow::Save),
            Err(e) => Err(e),
        },
        HooksCmd::List => Ok(Follow::List),
        HooksCmd::Remove { repo_path } => match remove_hook(state, repo_path.as_str()) {
            Ok(()) => Ok(Follow::Save),
            Err(e) => Err(e),
        },
    }
}

} // verus!
