use geil::git::{MERGE_COMMAND, STASH_COUNT_COMMAND, STATUS_COMMAND, SUBMODULE_COMMAND};
use geil::pipeline::{Job, Mode, Step};
use geil::repository_info::{RepositoryInfo, RepositoryState};
use rayon::iter::{IntoParallelIterator, ParallelIterator};

/// Runs a job, answering each command from `answers` in order; returns the commands asked for.
fn drive(job: &mut Job, answers: &[&str]) -> Vec<String> {
    let mut asked = Vec::new();
    let mut k = 0;
    while let Some(cmd) = job.command() {
        asked.push(cmd.command.clone());
        job.advance(answers[k]);
        k += 1;
    }
    asked
}

fn fresh() -> RepositoryInfo {
    RepositoryInfo::new("/srv/repo".to_string(), None)
}

#[test]
fn canned_update_run_ends_up_to_date() {
    let answers = [
        "3\n",
        "Fetching origin\n",
        "On branch main\nnothing to commit, working tree clean\n",
        "Already up to date.\n",
        "main\n",
        "0123abcd\n",
        "0123abcd\n",
    ];
    for _ in 0..2 {
        let mut job = Job::new(fresh(), Mode::Update);
        let asked = drive(&mut job, &answers);
        assert_eq!(asked.len(), 7);
        assert_eq!(asked[0], STASH_COUNT_COMMAND);
        assert_eq!(job.info.state, RepositoryState::UpToDate);
        assert_eq!(job.info.stashed, 3);
        assert!(job.is_done());
    }
}

#[test]
fn canned_update_run_in_parallel_gives_same_result() {
    let answers = [
        "3\n",
        "\n",
        "nothing to commit, working tree clean\n",
        "Already up to date.\n",
        "main\n",
        "abc\n",
        "abc\n",
    ];
    let results: Vec<(RepositoryState, usize)> = (0..8)
        .into_par_iter()
        .map(|_| {
            let mut job = Job::new(fresh(), Mode::Update);
            drive(&mut job, &answers);
            (job.info.state, job.info.stashed)
        })
        .collect();
    for r in results {
        assert_eq!(r, (RepositoryState::UpToDate, 3));
    }
}

#[test]
fn dirty_tree_skips_merge() {
    let mut job = Job::new(fresh(), Mode::Update);
    let asked = drive(&mut job, &["0\n", "Receiving objects: 100% (3/3)\n", "Changes not staged for commit:\n"]);
    assert_eq!(asked.len(), 3);
    assert_eq!(asked[2], STATUS_COMMAND);
    assert!(!asked.iter().any(|c| c == MERGE_COMMAND));
    assert_eq!(job.info.state, RepositoryState::LocalChanges);
    assert!(job.command().is_none());
}

#[test]
fn check_run_reports_unpushed_commits() {
    let mut job = Job::new(fresh(), Mode::Check);
    assert_eq!(job.info.state, RepositoryState::Good);
    let asked = drive(
        &mut job,
        &[
            "unknown revision or path not in the working tree\n",
            "nothing to commit, working tree clean\n",
            "feature\n",
            "aaa\n",
            "bbb\n",
        ],
    );
    assert_eq!(asked.len(), 5);
    assert_eq!(job.info.state, RepositoryState::NotPushed);
    assert_eq!(job.info.stashed, 0);
}

#[test]
fn check_run_stays_good() {
    let mut job = Job::new(fresh(), Mode::Check);
    drive(&mut job, &["1\n", "nothing to commit, working tree clean\n", "main\n", "aaa\n", "aaa\n"]);
    assert_eq!(job.info.state, RepositoryState::Good);
    assert_eq!(job.info.stashed, 1);
}

#[test]
fn detached_head_stops_before_hash_queries() {
    let mut job = Job::new(fresh(), Mode::Check);
    let asked = drive(&mut job, &["0\n", "nothing to commit, working tree clean\n", "HEAD\n"]);
    assert_eq!(asked.len(), 3);
    assert_eq!(job.info.state, RepositoryState::Detached);
}

#[test]
fn updated_repository_syncs_submodules_best_effort() {
    let mut job = Job::new(fresh(), Mode::Update);
    job.advance("0\n");
    job.advance("Receiving objects: 100% (9/9)\n");
    job.advance("nothing to commit, working tree clean\n");
    assert_eq!(job.step, Step::Merge);
    job.advance("Updating 111..222\nFast-forward\n");
    assert_eq!(job.step, Step::Submodules);
    assert_eq!(job.command().unwrap().command, SUBMODULE_COMMAND);
    assert!(!job.launch_failed());
    assert!(job.is_done());
    assert_eq!(job.info.state, RepositoryState::Updated);
}

#[test]
fn launch_failure_elsewhere_is_fatal() {
    let mut job = Job::new(fresh(), Mode::Update);
    assert!(job.launch_failed());
    assert_eq!(job.step, Step::Stash);
}

#[test]
fn unreadable_stash_ends_run_as_unknown() {
    let mut job = Job::new(fresh(), Mode::Check);
    let asked = drive(&mut job, &["garbage\n"]);
    assert_eq!(asked.len(), 1);
    assert_eq!(job.info.state, RepositoryState::Unknown);
}

#[test]
fn command_runs_in_repository_directory() {
    let job = Job::new(fresh(), Mode::Update);
    let cmd = job.command().unwrap();
    assert_eq!(cmd.cwd, Some("/srv/repo".to_string()));
    assert!(cmd.env.is_empty());
}
