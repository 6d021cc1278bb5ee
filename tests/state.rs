use geil::cli::{Follow, HooksCmd, KeysCmd};
use geil::config::{true_value, GeilConfig, Hook, SshKey as ConfigKey};
use geil::discovery::{DirNode, DirTree};
use geil::hooks::{handle_hooks_command, HookError};
use geil::repository_info::{RepositoryInfo, RepositoryState};
use geil::ssh_key::{add_key, handle_key_command, remove_key, KeyError};
use geil::run::{LaunchFailure, RunError};
use geil::state::{Repository, State, StateError};

fn repo(path: &str, time: Option<usize>) -> Repository {
    let mut r = Repository::new(path.to_string());
    r.check_time = time;
    r
}

fn state_with(repos: Vec<Repository>) -> State {
    let mut s = State::new();
    s.repositories = repos;
    s
}

fn timed_info(path: &str, ms: usize) -> RepositoryInfo {
    let mut i = RepositoryInfo::new(path.to_string(), None);
    i.check_time = Some(ms);
    i
}

fn leaf_tree(root: &str, repos: &[&str]) -> DirTree {
    let mut nodes = vec![DirNode { path: root.to_string(), has_marker: false, children: Vec::new() }];
    for (k, r) in repos.iter().enumerate() {
        nodes.push(DirNode { path: r.to_string(), has_marker: true, children: Vec::new() });
        nodes[0].children.push(k + 1);
    }
    DirTree { nodes }
}

#[test]
fn longest_running_first_and_untimed_before_all() {
    let s = state_with(vec![
        repo("/a", Some(10)),
        repo("/b", Some(300)),
        repo("/c", None),
        repo("/d", Some(300)),
        repo("/e", Some(0)),
        repo("/f", None),
    ]);
    let order: Vec<String> = s.repo_infos_by_wall_time().into_iter().map(|i| i.path).collect();
    assert_eq!(order, vec!["/c", "/f", "/b", "/d", "/a", "/e"]);
}

#[test]
fn scheduled_infos_are_fresh() {
    let mut r = repo("/x/proj", Some(5));
    r.hook = Some("make".to_string());
    let infos = state_with(vec![r]).repo_infos_by_wall_time();
    assert_eq!(infos.len(), 1);
    assert_eq!(infos[0].name, "proj");
    assert_eq!(infos[0].hook, Some("make".to_string()));
    assert_eq!(infos[0].state, RepositoryState::Unknown);
    assert_eq!(infos[0].check_time, None);
    assert_eq!(infos[0].stashed, 0);
}

#[test]
fn check_times_are_folded_back() {
    let mut s = state_with(vec![repo("/a", None), repo("/b", Some(1))]);
    assert_eq!(s.update_check_times(&vec![timed_info("/b", 40), timed_info("/a", 7)]), Ok(()));
    assert_eq!(s.repositories[0].check_time, Some(7));
    assert_eq!(s.repositories[1].check_time, Some(40));
    assert_eq!(
        s.update_check_times(&vec![timed_info("/zzz", 1), timed_info("/a", 9)]),
        Err(StateError::UnknownRepository)
    );
    assert_eq!(s.repositories[0].check_time, Some(9));
}

#[test]
fn failed_launch_keeps_other_timings() {
    let mut s = state_with(vec![repo("/a", None), repo("/b", None), repo("/c", Some(3))]);
    let outcomes = vec![
        Ok(timed_info("/a", 11)),
        Err(LaunchFailure { path: "/b".to_string(), command: "git status".to_string() }),
        Ok(timed_info("/c", 33)),
    ];
    match s.finish_run(outcomes) {
        Err(RunError::Launch(f)) => assert_eq!(f.path, "/b"),
        other => panic!("unexpected {other:?}"),
    }
    assert_eq!(s.repositories[0].check_time, Some(11));
    assert_eq!(s.repositories[1].check_time, None);
    assert_eq!(s.repositories[2].check_time, Some(33));
}

#[test]
fn successful_run_returns_records_in_order() {
    let mut s = state_with(vec![repo("/a", None), repo("/b", None)]);
    let done = s.finish_run(vec![Ok(timed_info("/b", 2)), Ok(timed_info("/a", 1))]).unwrap();
    let paths: Vec<String> = done.into_iter().map(|i| i.path).collect();
    assert_eq!(paths, vec!["/b", "/a"]);
    assert_eq!(s.repositories[1].check_time, Some(2));
    match s.finish_run(vec![Ok(timed_info("/nope", 2))]) {
        Err(RunError::UnknownRepository) => {}
        other => panic!("unexpected {other:?}"),
    }
}

#[test]
fn scan_prunes_discovers_and_is_idempotent() {
    let mut s = State::new();
    s.watched = vec!["/w".to_string(), "/gone".to_string()];
    s.ignored = vec!["/w/ign".to_string()];
    s.repositories = vec![repo("/old", Some(5)), repo("/w/a", Some(8))];
    let trees = vec![leaf_tree("/w", &["/w/a", "/w/b", "/w/ign", "/w/cfg"]), leaf_tree("/gone", &["/gone/x"])];
    s.scan(&vec![true, false], &vec![false, true], &trees, &vec!["/w/cfg".to_string()], &vec!["/usb/repo".to_string()]);
    assert_eq!(s.watched, vec!["/w".to_string()]);
    let paths: Vec<String> = s.repositories.iter().map(|r| r.path.clone()).collect();
    assert_eq!(paths, vec!["/usb/repo", "/w/a", "/w/b"]);
    assert_eq!(s.repositories[1].check_time, Some(8));

    let trees = vec![leaf_tree("/w", &["/w/a", "/w/b", "/w/ign", "/w/cfg"])];
    s.scan(&vec![true], &vec![false, true, true], &trees, &vec!["/w/cfg".to_string()], &vec!["/usb/repo".to_string()]);
    let again: Vec<String> = s.repositories.iter().map(|r| r.path.clone()).collect();
    assert_eq!(again, paths);
}

#[test]
fn merge_skips_known_paths() {
    let mut s = state_with(vec![repo("/a", Some(1))]);
    s.add_discovered(&vec![repo("/a", None), repo("/b", None), repo("/b", None)]);
    assert_eq!(s.repositories.len(), 2);
    assert_eq!(s.repositories[0].check_time, Some(1));
    assert!(s.has_repo_at_path("/b"));
    assert!(!s.has_repo_at_path("/c"));
}

#[test]
fn key_commands() {
    let mut s = State::new();
    assert_eq!(add_key(&mut s, "work".into(), "/k/work".into(), true), Ok(()));
    assert_eq!(add_key(&mut s, "work".into(), "/k/other".into(), true), Err(KeyError::NameTaken));
    assert_eq!(add_key(&mut s, "home".into(), "/k/work".into(), true), Err(KeyError::PathTaken));
    assert_eq!(add_key(&mut s, "home".into(), "/k/home".into(), false), Err(KeyError::KeyFileMissing));
    assert_eq!(s.keys.len(), 1);
    assert_eq!(handle_key_command(&mut s, KeysCmd::List, false), Ok(Follow::List));
    assert_eq!(
        handle_key_command(&mut s, KeysCmd::Add { name: "home".into(), path: "/k/home".into() }, true),
        Ok(Follow::Save)
    );
    assert_eq!(remove_key(&mut s, "work".into()), Ok(()));
    assert_eq!(s.keys.len(), 1);
    assert_eq!(s.keys[0].name, "home");
    assert_eq!(handle_key_command(&mut s, KeysCmd::Remove { name: "work".into() }, true), Err(KeyError::UnknownKey));
}

#[test]
fn hook_commands() {
    let mut s = state_with(vec![repo("/a", None)]);
    assert_eq!(
        handle_hooks_command(&mut s, HooksCmd::Add { repo_path: "/a".into(), command: "make".into() }),
        Ok(Follow::Save)
    );
    assert_eq!(s.repositories[0].hook, Some("make".to_string()));
    assert_eq!(
        handle_hooks_command(&mut s, HooksCmd::Add { repo_path: "/b".into(), command: "x".into() }),
        Err(HookError::UnknownRepository)
    );
    assert_eq!(handle_hooks_command(&mut s, HooksCmd::List), Ok(Follow::List));
    assert_eq!(handle_hooks_command(&mut s, HooksCmd::Remove { repo_path: "/a".into() }), Ok(Follow::Save));
    assert_eq!(s.repositories[0].hook, None);
    if let Some(r) = s.repo_at_path("/a") {
        r.check_time = Some(4);
    }
    assert_eq!(s.repositories[0].check_time, Some(4));
    assert!(s.repo_at_path("/zz").is_none());
}

#[test]
fn config_paths_expand_home() {
    let mut c = GeilConfig::new();
    c.ignored = vec!["~/tmp".into(), "/abs".into(), "~other/x".into(), "~".into()];
    c.watched = vec!["~/code".into()];
    c.repositories = vec!["~/dots".into()];
    let home = Some("/home/u".to_string());
    assert_eq!(c.ignored(&home), vec!["/home/u/tmp", "/abs", "~other/x", "/home/u"]);
    assert_eq!(c.watched(&home), vec!["/home/u/code"]);
    assert_eq!(c.repositories(&None), vec!["~/dots"]);
    let k = ConfigKey { name: "k".into(), path: "~/.ssh/id".into(), optional: true_value() };
    assert_eq!(k.path(&home), "/home/u/.ssh/id");
    let h = Hook { path: "~/r".into(), command: "make".into() };
    assert_eq!(h.path(&home), "/home/u/r");
}

#[test]
fn inventory_commands() {
    let mut s = State::new();
    assert!(s.add_repository("/w/a".into()));
    assert!(!s.add_repository("/w/a".into()));
    assert!(s.add_repository("/w/b".into()));
    assert!(s.add_repository("/x".into()));
    assert!(s.watch_directory("/w".into()));
    assert!(!s.watch_directory("/w".into()));
    let t = leaf_tree("/w", &["/w/a", "/w/b"]);
    assert!(s.unwatch_directory(&"/w".to_string(), &t));
    assert!(!s.unwatch_directory(&"/w".to_string(), &t));
    assert!(s.watched.is_empty());
    let left: Vec<String> = s.repositories.iter().map(|r| r.path.clone()).collect();
    assert_eq!(left, vec!["/x"]);
    assert!(s.forget_repository("/x".into()));
    assert!(!s.forget_repository("/x".into()));
    s.add_repository("/i/r".into());
    let t = leaf_tree("/i", &["/i/r"]);
    assert!(s.ignore_directory("/i".into(), &t));
    assert!(!s.ignore_directory("/i".into(), &t));
    assert!(s.repositories.is_empty());
    assert_eq!(s.ignored, vec!["/i".to_string()]);
}

#[test]
fn saved_order_is_by_path() {
    let mut s = state_with(vec![repo("/b", Some(2)), repo("/a/z", None), repo("/a", Some(1)), repo("/a-b", Some(3))]);
    s.watched = vec!["/w".to_string()];
    s.sort_for_save();
    let paths: Vec<String> = s.repositories.iter().map(|r| r.path.clone()).collect();
    assert_eq!(paths, vec!["/a", "/a-b", "/a/z", "/b"]);
    assert_eq!(s.repositories[0].check_time, Some(1));
    assert_eq!(s.repositories[1].check_time, Some(3));
    assert_eq!(s.watched, vec!["/w".to_string()]);
}

#[test]
fn watched_directory_below_ignored_one_yields_nothing() {
    let mut s = State::new();
    s.watched = vec!["/a/b".to_string()];
    s.ignored = vec!["/a".to_string()];
    let trees = vec![leaf_tree("/a/b", &["/a/b/r"])];
    s.scan(&vec![true], &vec![], &trees, &vec![], &vec![]);
    assert!(s.repositories.is_empty());
    let mut t = State::new();
    t.watched = vec!["/a/b".to_string()];
    t.ignored = vec!["/a/b-other".to_string(), "/a/bc".to_string()];
    t.scan(&vec![true], &vec![], &trees, &vec![], &vec![]);
    assert_eq!(t.repositories.len(), 1);
}

#[test]
fn added_repositories_stay_sorted() {
    let mut s = State::new();
    for p in ["/m", "/c", "/x", "/a"] {
        assert!(s.add_repository(p.to_string()));
    }
    let paths: Vec<String> = s.repositories.iter().map(|r| r.path.clone()).collect();
    assert_eq!(paths, vec!["/a", "/c", "/m", "/x"]);
    s.add_discovered(&vec![repo("/d", None), repo("/b", None), repo("/c", None)]);
    let paths: Vec<String> = s.repositories.iter().map(|r| r.path.clone()).collect();
    assert_eq!(paths, vec!["/a", "/b", "/c", "/d", "/m", "/x"]);
}

#[test]
fn completion_order_does_not_change_the_inventory() {
    let outcomes = || {
        vec![
            Ok(timed_info("/a", 5)),
            Err(LaunchFailure { path: "/b".to_string(), command: "git fetch --all".to_string() }),
            Ok(timed_info("/c", 7)),
        ]
    };
    let mut s1 = state_with(vec![repo("/a", None), repo("/b", Some(1)), repo("/c", None)]);
    let mut s2 = state_with(vec![repo("/a", None), repo("/b", Some(1)), repo("/c", None)]);
    let _ = s1.finish_run(outcomes());
    let mut reversed = outcomes();
    reversed.reverse();
    let _ = s2.finish_run(reversed);
    let t1: Vec<(String, Option<usize>)> = s1.repositories.iter().map(|r| (r.path.clone(), r.check_time)).collect();
    let t2: Vec<(String, Option<usize>)> = s2.repositories.iter().map(|r| (r.path.clone(), r.check_time)).collect();
    assert_eq!(t1, t2);
    assert_eq!(t1[1], ("/b".to_string(), Some(1)));
}
