//! The per-repository pipeline as a state machine. The machine names the next
//! command to run; the caller runs it and feeds the printed text back. Every
//! decision, including which steps are skipped, is made here.
use vstd::prelude::*;
use crate::git::{
    check_local_changes, check_unpushed_commits, fetch, fetched_state, get_stashed_entries,
    has_local_changes, is_detached, merge, reports_detached, reports_local_changes, merged_state, pushed_state, stash_count_of,
    BRANCH_COMMAND, FETCH_COMMAND, LOCAL_HASH_COMMAND, MERGE_COMMAND, NO_STASH,
    STASH_COUNT_COMMAND, STATUS_COMMAND, SUBMODULE_COMMAND, UPSTREAM_HASH_COMMAND,
};
use crate::process::Cmd;
use crate::repository_info::{with_state, RepositoryInfo, RepositoryState};
use crate::text::contains_seq;

verus! {

/// Which pipeline runs: the read-only check or the full update.
#[derive(Clone, Copy, Debug, PartialEq, Eq, Structural)]
pub enum Mode {
    Check,
    Update,
}

/// The step whose command runs next.
#[derive(Clone, Copy, Debug, PartialEq, Eq, Structural)]
pub enum Step {
    Stash,
    Fetch,
    Status,
    Merge,
    Submodules,
    Branch,
    LocalHash,
    UpstreamHash,
    Done,
}

/// The command that a step runs.
pub open spec fn step_command(step: Step) -> Seq<char> {
    match step {
        Step::Stash => STASH_COUNT_COMMAND@,
        Step::Fetch => FETCH_COMMAND@,
        Step::Status => STATUS_COMMAND@,
        Step::Merge => MERGE_COMMAND@,
        Step::Submodules => SUBMODULE_COMMAND@,
        Step::Branch => BRANCH_COMMAND@,
        Step::LocalHash => LOCAL_HASH_COMMAND@,
        Step::UpstreamHash => UPSTREAM_HASH_COMMAND@,
        Step::Done => Seq::empty(),
    }
}

/// The step that follows `step`, given the text its command printed. A dirty working
/// tree ends the run before any merge. The unpushed-commit check (branch, local hash,
/// upstream hash) is entered only from a state with nothing wrong so far: in an
/// update run after a merge that left the repository up to date, in a check run
/// right after a clean status query, from the `Good` baseline.
pub open spec fn step_after(mode: Mode, step: Step, info: RepositoryInfo, out: Seq<char>) -> Step {
    match step {
        Step::Stash => if !contains_seq(out, NO_STASH@) && stash_count_of(out).is_none() {
            Step::Done
        } else if mode == Mode::Update {
            Step::Fetch
        } else {
            Step::Status
        },
        Step::Fetch => Step::Status,
        Step::Status => if has_local_changes(out) {
            Step::Done
        } else if mode == Mode::Update {
            Step::Merge
        } else {
            Step::Branch
        },
        Step::Merge => match merged_state(out) {
            RepositoryState::Updated => Step::Submodules,
            RepositoryState::UpToDate => Step::Branch,
            _ => Step::Done,
        },
        Step::Branch => if is_detached(out) {
            Step::Done
        } else {
            Step::LocalHash
        },
        Step::LocalHash => Step::UpstreamHash,
        _ => Step::Done,
    }
}

/// The repository record after `step`, given the text its command printed and,
/// for the last step, the answers of the branch and local-hash queries.
pub open spec fn info_after(
    step: Step,
    info: RepositoryInfo,
    out: Seq<char>,
    branch_out: Seq<char>,
    local_out: Seq<char>,
) -> RepositoryInfo {
    match step {
        Step::Stash => if contains_seq(out, NO_STASH@) {
            info
        } else {
            match stash_count_of(out) {
                Some(n) => RepositoryInfo { stashed: n as usize, ..info },
                None => with_state(info, RepositoryState::Unknown),
            }
        },
        Step::Fetch => with_state(info, fetched_state(out)),
        Step::Status => if has_local_changes(out) {
            with_state(info, RepositoryState::LocalChanges)
        } else {
            info
        },
        Step::Merge => with_state(info, merged_state(out)),
        Step::Branch => if is_detached(out) {
            with_state(info, RepositoryState::Detached)
        } else {
            info
        },
        Step::UpstreamHash => with_state(
            info,
            pushed_state(branch_out, local_out, out, info.state),
        ),
        _ => info,
    }
}

/// Local changes end the run: once the status query reports a dirty working tree,
/// the run is over with the state `LocalChanges`, in either pipeline; and the merge
/// step is only ever entered right after a status query that reported a clean tree.
pub proof fn lemma_local_changes_skip_merge(
    mode: Mode,
    step: Step,
    info: RepositoryInfo,
    out: Seq<char>,
    branch_out: Seq<char>,
    local_out: Seq<char>,
)
    ensures
        has_local_changes(out) ==> step_after(mode, Step::Status, info, out) == Step::Done
            && info_after(Step::Status, info, out, branch_out, local_out).state
            == RepositoryState::LocalChanges,
        step_after(mode, step, info, out) == Step::Merge ==> step == Step::Status
            && !has_local_changes(out),
{
}

/// One repository's run: its record, the pipeline, the next step, and the answers
/// kept for the last step.
pub struct Job {
    pub info: RepositoryInfo,
    pub mode: Mode,
    pub step: Step,
    pub branch_output: String,
    pub local_output: String,
}

impl Job {
    /// A run that starts with the stash query. A check run starts from the `Good`
    /// baseline, so that a checked repository is told apart from an unchecked one.
    pub fn new(info: RepositoryInfo, mode: Mode) -> (r: Job)
        ensures
            r.mode == mode,
            r.step == Step::Stash,
            mode == Mode::Check ==> r.info == with_state(info, RepositoryState::Good),
            mode == Mode::Update ==> r.info == info,
    {
        let mut info = info;
        if mode == Mode::Check {
            info.state = RepositoryState::Good;
        }
        Job { info, mode, step: Step::Stash, branch_output: String::new(), local_output: String::new() }
    }

    /// Whether the run has ended.
    pub fn is_done(&self) -> (r: bool)
        ensures
            r == (self.step == Step::Done),
    {
        self.step == Step::Done
    }

    /// The command to run next, in the repository's directory and with no environment
    /// yet (the caller adds its snapshot); none once the run has ended.
    pub fn command(&self) -> (r: Option<Cmd>)
        ensures
            self.step == Step::Done ==> r.is_none(),
            self.step != Step::Done ==> r.is_some() && r.unwrap().command@ == step_command(self.step)
                && r.unwrap().cwd == Some(self.info.path) && r.unwrap().env@ == Map::<
                String,
                String,
            >::empty(),
    {
        let text = match self.step {
            Step::Stash => STASH_COUNT_COMMAND,
            Step::Fetch => FETCH_COMMAND,
            Step::Status => STATUS_COMMAND,
            Step::Merge => MERGE_COMMAND,
            Step::Submodules => SUBMODULE_COMMAND,
            Step::Branch => BRANCH_COMMAND,
            Step::LocalHash => LOCAL_HASH_COMMAND,
            Step::UpstreamHash => UPSTREAM_HASH_COMMAND,
            Step::Done => {
                return None;
            },
        };
        Some(Cmd::new(String::from_str(text)).cwd(self.info.path.clone()))
    }

    /// Feeds the text that the current step's command printed, and moves to the next step.
    pub fn advance(&mut self, output: &str)
        requires
            old(self).step != Step::Done,
        ensures
            final(self).mode == old(self).mode,
            final(self).step == step_after(old(self).mode, old(self).step, old(self).info, output@),
            final(self).info == info_after(
                old(self).step,
                old(self).info,
                output@,
                old(self).branch_output@,
                old(self).local_output@,
            ),
            old(self).step == Step::Branch ==> final(self).branch_output@ == output@,
            old(self).step != Step::Branch ==> final(self).branch_output == old(self).branch_output,
            old(self).step == Step::LocalHash ==> final(self).local_output@ == output@,
            old(self).step != Step::LocalHash ==> final(self).local_output == old(self).local_output,
    {
        match self.step {
            Step::Stash => {
                match get_stashed_entries(&mut self.info, output) {
                    Ok(()) => {
                        self.step = if self.mode == Mode::Update {
                            Step::Fetch
                        } else {
                            Step::Status
                        };
                    },
                    Err(_) => {
                        self.info.state = RepositoryState::Unknown;
                        self.step = Step::Done;
                    },
                }
            },
            Step::Fetch => {
                fetch(&mut self.info, output);
                self.step = Step::Status;
            },
            Step::Status => {
                let dirty = reports_local_changes(output);
                check_local_changes(&mut self.info, output);
                self.step = if dirty {
                    Step::Done
                } else if self.mode == Mode::Update {
                    Step::Merge
                } else {
                    Step::Branch
                };
            },
            Step::Merge => {
                let sync = merge(&mut self.info, output);
                self.step = if sync {
                    Step::Submodules
                } else if self.info.state == RepositoryState::UpToDate {
                    Step::Branch
                } else {
                    Step::Done
                };
            },
            Step::Submodules => {
                self.step = Step::Done;
            },
            Step::Branch => {
                self.branch_output = String::from_str(output);
                if reports_detached(output) {
                    self.info.state = RepositoryState::Detached;
                    self.step = Step::Done;
                } else {
                    self.step = Step::LocalHash;
                }
            },
            Step::LocalHash => {
                self.local_output = String::from_str(output);
                self.step = Step::UpstreamHash;
            },
            Step::UpstreamHash => {
                check_unpushed_commits(
                    &mut self.info,
                    self.branch_output.as_str(),
                    self.local_output.as_str(),
                    output,
                );
                self.step = Step::Done;
            },
            Step::Done => {},
        }
    }

    /// Records that the current step's command could not be launched. Only the
    /// submodule sync after a successful update is best effort: there the run simply
    /// ends. Anywhere else the failure is fatal for this repository's task.
    pub fn launch_failed(&mut self) -> (fatal: bool)
        requires
            old(self).step != Step::Done,
        ensures
            fatal == (old(self).step != Step::Submodules),
            !fatal ==> final(self).step == Step::Done,
            fatal ==> final(self).step == old(self).step,
            final(self).info == old(self).info,
            final(self).mode == old(self).mode,
    {
        if self.step == Step::Submodules {
            self.step = Step::Done;
            false
        } else {
            true
        }
    }
}

} // verus!
