//! Classification of the text that each step of the version-control tool prints.
//! Each function folds one step's output into the repository's record.
use vstd::prelude::*;
use crate::repository_info::{with_state, RepositoryInfo, RepositoryState};
use crate::text::{
    chars_equal, chars_of, contains, contains_seq, first_line, first_line_of, parse_usize,
    parsed_usize, trim, trimmed,
};

verus! {

/// Counts the stash entries.
pub const STASH_COUNT_COMMAND: &'static str = "git rev-list --walk-reflogs --count refs/stash";
/// Fetches from every remote.
pub const FETCH_COMMAND: &'static str = "git fetch --all";
/// Reports the state of the working tree.
pub const STATUS_COMMAND: &'static str = "git status";
/// Merges the fetched changes if that is a fast-forward.
pub const MERGE_COMMAND: &'static str = "git merge --ff-only";
/// Brings submodules in line after an update.
pub const SUBMODULE_COMMAND: &'static str = "git submodule update --init --recursive";
/// Names the current branch, or prints `HEAD` when none is checked out.
pub const BRANCH_COMMAND: &'static str = "git rev-parse --abbrev-ref HEAD";
/// Prints the hash of the local commit.
pub const LOCAL_HASH_COMMAND: &'static str = "git rev-parse HEAD";
/// Prints the hash of the commit that the current branch tracks.
pub const UPSTREAM_HASH_COMMAND: &'static str = "git rev-parse @{upstream}";

/// Printed by the stash query when no stash was ever made.
pub const NO_STASH: &'static str = "unknown revision or path not in the working tree";
/// Printed by a fetch that received objects.
pub const OBJECTS_RECEIVED: &'static str = "Receiving objects: 100%";
/// Printed by the status query for a clean working tree.
pub const CLEAN_TREE: &'static str = "nothing to commit, working tree clean";
/// Printed by a merge that fast-forwarded.
pub const FF_UPDATING: &'static str = "Updating";
/// Printed by a merge that had nothing to do.
pub const FF_UP_TO_DATE: &'static str = "up to date";
/// Printed by a merge that failed.
pub const FATAL: &'static str = "fatal:";
/// The branch query's answer when HEAD is detached.
pub const DETACHED_HEAD: &'static str = "HEAD";

/// A step's output that cannot be classified at all.
#[derive(Clone, Copy, Debug, PartialEq, Eq, Structural)]
pub enum StepError {
    /// The stash query printed something other than a count.
    StashCount,
}

/// The stash count that the stash query printed: the number on its first line.
pub open spec fn stash_count_of(out: Seq<char>) -> Option<nat> {
    match first_line_of(out) {
        Some(line) => parsed_usize(trimmed(line)),
        None => None,
    }
}

/// Reads the stash query's output into `repo_info.stashed`. When the query reports
/// that no stash exists the record stays as it is; when it prints no count the
/// record stays as it is and the result is an error.
pub fn get_stashed_entries(repo_info: &mut RepositoryInfo, output: &str) -> (r: Result<(), StepError>)
    ensures
        contains_seq(output@, NO_STASH@) ==> r is Ok && *final(repo_info) == *old(repo_info),
        !contains_seq(output@, NO_STASH@) ==> match stash_count_of(output@) {
            Some(n) => r is Ok && *final(repo_info) == (RepositoryInfo {
                stashed: n as usize,
                ..*old(repo_info)
            }),
            None => r == Err::<(), StepError>(StepError::StashCount) && *final(repo_info)
                == *old(repo_info),
        },
{
    if contains(output, NO_STASH) {
        return Ok(());
    }
    let text = chars_of(output);
    match first_line(&text) {
        Some(line) => {
            let number = trim(&line);
            match parse_usize(&number) {
                Some(n) => {
                    repo_info.stashed = n;
                    Ok(())
                },
                None => Err(StepError::StashCount),
            }
        },
        None => Err(StepError::StashCount),
    }
}

/// The state that a fetch leaves: `Fetched` when objects were received.
pub open spec fn fetched_state(out: Seq<char>) -> RepositoryState {
    if contains_seq(out, OBJECTS_RECEIVED@) {
        RepositoryState::Fetched
    } else {
        RepositoryState::UpToDate
    }
}

/// Classifies the output of a fetch.
pub fn fetch(repo_info: &mut RepositoryInfo, output: &str)
    ensures
        *final(repo_info) == with_state(*old(repo_info), fetched_state(output@)),
{
    if contains(output, OBJECTS_RECEIVED) {
        repo_info.state = RepositoryState::Fetched;
    } else {
        repo_info.state = RepositoryState::UpToDate;
    }
}

/// Whether the status query reports anything but a clean working tree.
pub open spec fn has_local_changes(out: Seq<char>) -> bool {
    !contains_seq(out, CLEAN_TREE@)
}

/// Whether the status query's output reports local changes.
pub fn reports_local_changes(output: &str) -> (r: bool)
    ensures
        r == has_local_changes(output@),
{
    !contains(output, CLEAN_TREE)
}

/// Classifies the output of the status query: anything but a clean tree is `LocalChanges`.
pub fn check_local_changes(repo_info: &mut RepositoryInfo, output: &str)
    ensures
        has_local_changes(output@) ==> *final(repo_info) == with_state(
            *old(repo_info),
            RepositoryState::LocalChanges,
        ),
        !has_local_changes(output@) ==> *final(repo_info) == *old(repo_info),
{
    if !contains(output, CLEAN_TREE) {
        repo_info.state = RepositoryState::LocalChanges;
    }
}

/// The state that a fast-forward merge leaves, by the first marker its output holds.
pub open spec fn merged_state(out: Seq<char>) -> RepositoryState {
    if contains_seq(out, FF_UPDATING@) {
        RepositoryState::Updated
    } else if contains_seq(out, FF_UP_TO_DATE@) {
        RepositoryState::UpToDate
    } else if contains_seq(out, FATAL@) {
        RepositoryState::NoFastForward
    } else {
        RepositoryState::Unknown
    }
}

/// Classifies the output of a fast-forward merge. The result tells whether the merge
/// moved the branch, after which the submodules are to be brought in line.
pub fn merge(repo_info: &mut RepositoryInfo, output: &str) -> (sync_submodules: bool)
    ensures
        *final(repo_info) == with_state(*old(repo_info), merged_state(output@)),
        sync_submodules == (merged_state(output@) == RepositoryState::Updated),
{
    if contains(output, FF_UPDATING) {
        repo_info.state = RepositoryState::Updated;
        true
    } else if contains(output, FF_UP_TO_DATE) {
        repo_info.state = RepositoryState::UpToDate;
        false
    } else if contains(output, FATAL) {
        repo_info.state = RepositoryState::NoFastForward;
        false
    } else {
        repo_info.state = RepositoryState::Unknown;
        false
    }
}

/// Whether the branch query says that HEAD is on no branch.
pub open spec fn is_detached(branch_out: Seq<char>) -> bool {
    trimmed(branch_out) == DETACHED_HEAD@
}

/// Whether the branch query's output says that HEAD is detached.
pub fn reports_detached(branch_output: &str) -> (r: bool)
    ensures
        r == is_detached(branch_output@),
{
    let branch = trim(&chars_of(branch_output));
    chars_equal(&branch, &chars_of(DETACHED_HEAD))
}

/// The state after comparing the local commit with the one its branch tracks.
pub open spec fn pushed_state(
    branch_out: Seq<char>,
    local_out: Seq<char>,
    upstream_out: Seq<char>,
    current: RepositoryState,
) -> RepositoryState {
    if is_detached(branch_out) {
        RepositoryState::Detached
    } else if trimmed(local_out) != trimmed(upstream_out) {
        RepositoryState::NotPushed
    } else {
        current
    }
}

/// Classifies the answers of the branch query and of the two hash queries: a detached
/// HEAD gives `Detached` (the hash answers are then not read); differing hashes give
/// `NotPushed`; otherwise the state stays.
pub fn check_unpushed_commits(
    repo_info: &mut RepositoryInfo,
    branch_output: &str,
    local_output: &str,
    upstream_output: &str,
)
    ensures
        *final(repo_info) == with_state(
            *old(repo_info),
            pushed_state(branch_output@, local_output@, upstream_output@, old(repo_info).state),
        ),
{
    if reports_detached(branch_output) {
        repo_info.state = RepositoryState::Detached;
        return;
    }
    let local = trim(&chars_of(local_output));
    let upstream = trim(&chars_of(upstream_output));
    if !chars_equal(&local, &upstream) {
        repo_info.state = RepositoryState::NotPushed;
    }
}

/// Classifies a fetch for the plain update: `Fetched` when objects were received,
/// otherwise `UpToDate`.
pub fn fetch_repo(repo_info: &mut RepositoryInfo, output: &str)
    ensures
        *final(repo_info) == with_state(*old(repo_info), fetched_state(output@)),
{
    fetch(repo_info, output);
}

/// The plain update: a fetch, then a fast-forward merge, each classified by its
/// output. The merge's classification decides the state; output that matches no
/// marker gives `Unknown`.
pub fn update_repo(repo_info: &mut RepositoryInfo, fetch_output: &str, merge_output: &str)
    ensures
        *final(repo_info) == with_state(*old(repo_info), merged_state(merge_output@)),
{
    fetch_repo(repo_info, fetch_output);
    merge(repo_info, merge_output);
}

} // verus!
