use geil::discovery::{discover, DirNode, DirTree};

/// A snapshot from a list of (path, marker, parent index) entries, each after its parent.
fn tree(entries: &[(&str, bool, Option<usize>)]) -> DirTree {
    let mut nodes: Vec<DirNode> = entries
        .iter()
        .map(|(p, m, _)| DirNode { path: p.to_string(), has_marker: *m, children: Vec::new() })
        .collect();
    for (i, (_, _, parent)) in entries.iter().enumerate() {
        if let Some(p) = parent {
            nodes[*p].children.push(i);
        }
    }
    DirTree { nodes }
}

fn found(ignored: &[&str], t: &DirTree) -> Vec<String> {
    let ign: Vec<String> = ignored.iter().map(|s| s.to_string()).collect();
    discover(&ign, t, 0, 0).into_iter().map(|r| r.path).collect()
}

#[test]
fn discovery_stops_at_depth_five() {
    let t = tree(&[
        ("/w", false, None),
        ("/w/1", false, Some(0)),
        ("/w/1/2", false, Some(1)),
        ("/w/1/2/3", false, Some(2)),
        ("/w/1/2/3/4", false, Some(3)),
        ("/w/1/2/3/4/5", true, Some(4)),
        ("/w/1/2/3/4/x", false, Some(4)),
        ("/w/1/2/3/4/x/6", true, Some(6)),
    ]);
    assert_eq!(found(&[], &t), vec!["/w/1/2/3/4/5".to_string()]);
}

#[test]
fn ignored_subtree_yields_nothing() {
    let t = tree(&[
        ("/w", false, None),
        ("/w/a", true, Some(0)),
        ("/w/skip", false, Some(0)),
        ("/w/skip/b", true, Some(2)),
        ("/w/skip/c/d", true, Some(2)),
    ]);
    assert_eq!(found(&["/w/skip"], &t), vec!["/w/a".to_string()]);
    assert!(found(&["/w"], &t).is_empty());
}

#[test]
fn repository_is_a_leaf() {
    let t = tree(&[
        ("/w", false, None),
        ("/w/outer", true, Some(0)),
        ("/w/outer/inner", true, Some(1)),
        ("/w/other", true, Some(0)),
    ]);
    assert_eq!(found(&[], &t), vec!["/w/outer".to_string(), "/w/other".to_string()]);
    let root_repo = tree(&[("/r", true, None), ("/r/sub", true, Some(0))]);
    assert_eq!(found(&[], &root_repo), vec!["/r".to_string()]);
}

#[test]
fn discovered_repositories_are_fresh() {
    let t = tree(&[("/w", false, None), ("/w/a", true, Some(0))]);
    let r = discover(&Vec::new(), &t, 0, 0);
    assert_eq!(r.len(), 1);
    assert!(r[0].check_time.is_none());
    assert!(r[0].hook.is_none());
}

#[test]
fn bad_child_links_are_skipped() {
    let t = DirTree {
        nodes: vec![
            DirNode { path: "/w".to_string(), has_marker: false, children: vec![0, 7, 1] },
            DirNode { path: "/w/a".to_string(), has_marker: true, children: vec![] },
        ],
    };
    assert_eq!(found(&[], &t), vec!["/w/a".to_string()]);
}

#[test]
fn a_node_listed_twice_is_not_searched_twice_in_a_proper_snapshot() {
    let t = tree(&[
        ("/w", false, None),
        ("/w/a", false, Some(0)),
        ("/w/a/r", true, Some(1)),
        ("/w/b", true, Some(0)),
    ]);
    let got = found(&[], &t);
    assert_eq!(got, vec!["/w/a/r".to_string(), "/w/b".to_string()]);
}
