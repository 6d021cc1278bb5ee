use geil::git::{
    check_local_changes, check_unpushed_commits, fetch, fetch_repo, get_stashed_entries, merge,
    update_repo, StepError,
};
use geil::repository_info::{RepositoryInfo, RepositoryState};

fn info() -> RepositoryInfo {
    RepositoryInfo::new("/home/user/code/geil".to_string(), None)
}

#[test]
fn stash_count_is_read_from_first_line() {
    let mut i = info();
    assert_eq!(get_stashed_entries(&mut i, " 3\nwhatever\n"), Ok(()));
    assert_eq!(i.stashed, 3);
}

#[test]
fn no_stash_leaves_count_at_zero() {
    let mut i = info();
    let out = "fatal: ambiguous argument 'refs/stash': unknown revision or path not in the working tree.\n";
    assert_eq!(get_stashed_entries(&mut i, out), Ok(()));
    assert_eq!(i.stashed, 0);
}

#[test]
fn unreadable_stash_count_is_an_error() {
    let mut i = info();
    assert_eq!(get_stashed_entries(&mut i, "three\n"), Err(StepError::StashCount));
    assert_eq!(get_stashed_entries(&mut i, ""), Err(StepError::StashCount));
    assert_eq!(i.stashed, 0);
    assert_eq!(i.state, RepositoryState::Unknown);
}

#[test]
fn fetch_classification() {
    let mut i = info();
    fetch(&mut i, "remote: Counting objects\nReceiving objects: 100% (5/5), done.\n");
    assert_eq!(i.state, RepositoryState::Fetched);
    fetch(&mut i, "Fetching origin\n");
    assert_eq!(i.state, RepositoryState::UpToDate);
}

#[test]
fn status_classification() {
    let mut i = info();
    i.state = RepositoryState::Good;
    check_local_changes(&mut i, "On branch main\nnothing to commit, working tree clean\n");
    assert_eq!(i.state, RepositoryState::Good);
    check_local_changes(&mut i, "On branch main\nChanges not staged for commit:\n");
    assert_eq!(i.state, RepositoryState::LocalChanges);
}

#[test]
fn merge_classification() {
    let mut i = info();
    assert!(merge(&mut i, "Updating 1a2b..3c4d\nFast-forward\n"));
    assert_eq!(i.state, RepositoryState::Updated);
    assert!(!merge(&mut i, "Already up to date.\n"));
    assert_eq!(i.state, RepositoryState::UpToDate);
    assert!(!merge(&mut i, "fatal: Not possible to fast-forward, aborting.\n"));
    assert_eq!(i.state, RepositoryState::NoFastForward);
    assert!(!merge(&mut i, "something else\n"));
    assert_eq!(i.state, RepositoryState::Unknown);
}

#[test]
fn unpushed_commit_classification() {
    let mut i = info();
    i.state = RepositoryState::UpToDate;
    check_unpushed_commits(&mut i, "main\n", "abc\n", "abc\n");
    assert_eq!(i.state, RepositoryState::UpToDate);
    check_unpushed_commits(&mut i, "main\n", "abc\n", "def\n");
    assert_eq!(i.state, RepositoryState::NotPushed);
    check_unpushed_commits(&mut i, "HEAD\n", "abc\n", "def\n");
    assert_eq!(i.state, RepositoryState::Detached);
}

#[test]
fn plain_update_is_decided_by_merge() {
    let mut i = info();
    update_repo(&mut i, "Receiving objects: 100% (1/1)\n", "hmm\n");
    assert_eq!(i.state, RepositoryState::Unknown);
    update_repo(&mut i, "", "Already up to date.\n");
    assert_eq!(i.state, RepositoryState::UpToDate);
    update_repo(&mut i, "", "Updating 1..2\n");
    assert_eq!(i.state, RepositoryState::Updated);
    let mut j = info();
    fetch_repo(&mut j, "nothing\n");
    assert_eq!(j.state, RepositoryState::UpToDate);
    fetch_repo(&mut j, "Receiving objects: 100% (2/2)\n");
    assert_eq!(j.state, RepositoryState::Fetched);
}

#[test]
fn repository_info_name_is_final_segment() {
    assert_eq!(info().name, "geil");
    assert_eq!(RepositoryInfo::new("/a/b/".to_string(), None).name, "b");
    assert_eq!(RepositoryInfo::new("/a/b/.".to_string(), None).name, "b");
    assert_eq!(RepositoryInfo::new("/a/..".to_string(), None).name, "no_name?");
    assert_eq!(RepositoryInfo::new("/".to_string(), None).name, "no_name?");
    assert_eq!(RepositoryInfo::new("/a/b".to_string(), Some("make".to_string())).hook, Some("make".to_string()));
}

#[test]
fn attention_and_labels() {
    let mut i = info();
    i.state = RepositoryState::UpToDate;
    assert!(!i.needs_attention());
    i.stashed = 2;
    assert!(i.needs_attention());
    i.stashed = 0;
    i.state = RepositoryState::Good;
    assert!(!i.needs_attention());
    i.state = RepositoryState::NotPushed;
    assert!(i.needs_attention());
    assert_eq!(RepositoryState::NotPushed.label(), "Unpushed commits");
    assert_eq!(RepositoryState::Good.label(), "Ok");
}
