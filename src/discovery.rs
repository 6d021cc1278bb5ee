//! Bounded discovery of repository roots in a snapshot of a directory tree.
//!
//! The snapshot lists directories by index, each after its parent; a node knows its
//! path, whether it holds a repository marker (`.git`), and the indices of its
//! subdirectories (none when it could not be read). Child links that do not point
//! past their parent are not followed.
use vstd::prelude::*;
use crate::state::Repository;
use crate::text::{chars_equal, chars_of};

verus! {

/// Discovery never looks below this many levels under the directory it starts from.
pub const MAX_DEPTH: usize = 5;

/// One directory of a snapshot.
pub struct DirNode {
    pub path: String,
    pub has_marker: bool,
    pub children: Vec<usize>,
}

/// A snapshot of a directory tree; node 0 is where it was taken from.
pub struct DirTree {
    pub nodes: Vec<DirNode>,
}

/// `p` is the path `q` or lies below it, by whole path components.
pub open spec fn at_or_below(p: Seq<char>, q: Seq<char>) -> bool {
    p == q || (q.len() < p.len() && p.subrange(0, q.len() as int) == q && (p[q.len() as int] == '/'
        || (q.len() > 0 && q[q.len() - 1] == '/')))
}

/// Whether `p` is one of the ignored paths or lies below one.
pub open spec fn is_ignored(ignored: Seq<Seq<char>>, p: Seq<char>) -> bool {
    exists|k: int| 0 <= k < ignored.len() && at_or_below(p, #[trigger] ignored[k])
}

/// `c` is listed as a subdirectory of `p`, after it.
pub open spec fn is_child(t: Seq<DirNode>, p: int, c: int) -> bool {
    0 <= p < c < t.len() && t[p].children@.contains(c as usize)
}

/// The indices of the repository roots found from node `i` at depth `depth`:
/// nothing under an ignored path; a node with a marker is a root and is not
/// looked into; below `MAX_DEPTH` nothing more is looked at; otherwise the
/// subdirectories are searched in order, one level deeper.
pub open spec fn found_from(t: Seq<DirNode>, ign: Seq<Seq<char>>, i: int, depth: int) -> Seq<int>
    decreases t.len() - i, 1int, 0int,
{
    if !(0 <= i < t.len()) {
        Seq::empty()
    } else if is_ignored(ign, t[i].path@) {
        Seq::empty()
    } else if t[i].has_marker {
        seq![i]
    } else if depth >= MAX_DEPTH {
        Seq::empty()
    } else {
        found_in_children(t, ign, i, 0, depth + 1)
    }
}

/// The roots found from the subdirectories of `p` from the `k`-th on, at `depth`.
pub open spec fn found_in_children(
    t: Seq<DirNode>,
    ign: Seq<Seq<char>>,
    p: int,
    k: int,
    depth: int,
) -> Seq<int>
    decreases t.len() - p, 0int, t[p].children@.len() - k,
{
    if !(0 <= p < t.len()) || k < 0 || k >= t[p].children@.len() {
        Seq::empty()
    } else {
        let c = t[p].children@[k] as int;
        let rest = found_in_children(t, ign, p, k + 1, depth);
        if p < c < t.len() {
            found_from(t, ign, c, depth) + rest
        } else {
            rest
        }
    }
}

/// The paths of the nodes at `idx`.
pub open spec fn paths_at(t: Seq<DirNode>, idx: Seq<int>) -> Seq<Seq<char>> {
    idx.map_values(|j: int| t[j].path@)
}

/// The paths of a list of repositories.
pub open spec fn repo_paths(r: Seq<Repository>) -> Seq<Seq<char>> {
    r.map_values(|x: Repository| x.path@)
}

/// Every repository of `r` was never run and has no hook.
pub open spec fn all_fresh(r: Seq<Repository>) -> bool {
    forall|k: int| 0 <= k < r.len() ==> (#[trigger] r[k]).check_time.is_none() && r[k].hook.is_none()
}

/// The views of a list of paths.
pub open spec fn path_views(v: Seq<String>) -> Seq<Seq<char>> {
    v.map_values(|s: String| s@)
}

proof fn lemma_paths_at_concat(t: Seq<DirNode>, a: Seq<int>, b: Seq<int>)
    ensures
        paths_at(t, a + b) == paths_at(t, a) + paths_at(t, b),
{
    assert(paths_at(t, a + b) =~= paths_at(t, a) + paths_at(t, b));
}

proof fn lemma_repo_paths_concat(a: Seq<Repository>, b: Seq<Repository>)
    ensures
        repo_paths(a + b) == repo_paths(a) + repo_paths(b),
{
    assert(repo_paths(a + b) =~= repo_paths(a) + repo_paths(b));
}

/// The repositories found in `tree` from node `i`, which lies at `depth` below the
/// directory where discovery started.
pub fn discover(ignored: &Vec<String>, tree: &DirTree, i: usize, depth: usize) -> (r: Vec<
    Repository,
>)
    requires
        i < tree.nodes@.len(),
    ensures
        repo_paths(r@) == paths_at(
            tree.nodes@,
            found_from(tree.nodes@, path_views(ignored@), i as int, depth as int),
        ),
        all_fresh(r@),
        tree_wf(tree.nodes@) ==> repo_paths(r@).no_duplicates(),
    decreases tree.nodes@.len() - i,
{
    let ghost t = tree.nodes@;
    let ghost ign = path_views(ignored@);
    proof {
        lemma_found_paths_distinct(t, ign, i as int, depth as int);
    }
    let node = &tree.nodes[i];
    let mut r: Vec<Repository> = Vec::new();
    if ignores(ignored, &node.path) {
        proof {
            assert(repo_paths(r@) =~= Seq::<Seq<char>>::empty());
            assert(paths_at(t, Seq::<int>::empty()) =~= Seq::<Seq<char>>::empty());
        }
        return r;
    }
    if node.has_marker {
        r.push(Repository::new(node.path.clone()));
        proof {
            assert(repo_paths(r@) =~= seq![t[i as int].path@]);
            assert(paths_at(t, found_from(t, ign, i as int, depth as int)) =~= seq![t[i as int].path@]);
        }
        return r;
    }
    if depth >= MAX_DEPTH {
        proof {
            assert(repo_paths(r@) =~= Seq::<Seq<char>>::empty());
            assert(paths_at(t, Seq::<int>::empty()) =~= Seq::<Seq<char>>::empty());
        }
        return r;
    }
    let ghost whole = paths_at(t, found_in_children(t, ign, i as int, 0, depth + 1));
    assert(repo_paths(r@) + whole =~= whole);
    let mut k: usize = 0;
    while k < node.children.len()
        invariant
            t == tree.nodes@,
            ign == path_views(ignored@),
            i < t.len(),
            *node == t[i as int],
            depth < MAX_DEPTH,
            k <= node.children@.len(),
            whole == paths_at(t, found_in_children(t, ign, i as int, 0, depth + 1)),
            repo_paths(r@) + paths_at(t, found_in_children(t, ign, i as int, k as int, depth + 1))
                == whole,
            all_fresh(r@),
        decreases node.children@.len() - k,
    {
        let c = node.children[k];
        let ghost before = r@;
        proof {
            lemma_paths_at_concat(
                t,
                found_from(t, ign, c as int, depth + 1),
                found_in_children(t, ign, i as int, k + 1, depth + 1),
            );
        }
        if i < c && c < tree.nodes.len() {
            let mut sub = discover(ignored, tree, c, depth + 1);
            let ghost got = sub@;
            r.append(&mut sub);
            proof {
                lemma_repo_paths_concat(before, got);
                assert(repo_paths(r@) + paths_at(t, found_in_children(t, ign, i as int, k + 1, depth + 1))
                    =~= repo_paths(before) + paths_at(t, found_in_children(t, ign, i as int, k as int, depth + 1)));
            }
        }
        k = k + 1;
    }
    proof {
        assert(paths_at(t, found_in_children(t, ign, i as int, k as int, depth + 1)) =~= Seq::<Seq<char>>::empty());
        assert(repo_paths(r@) =~= whole);
        lemma_found_paths_distinct(t, ign, i as int, depth as int);
    }
    r
}

/// Whether the path `p` is the path `q` or lies below it.
pub fn is_at_or_below(p: &str, q: &str) -> (r: bool)
    ensures
        r == at_or_below(p@, q@),
{
    let pc = chars_of(p);
    let qc = chars_of(q);
    if chars_equal(&pc, &qc) {
        return true;
    }
    if qc.len() >= pc.len() {
        return false;
    }
    let n = qc.len();
    let mut i: usize = 0;
    while i < n
        invariant
            n == qc@.len(),
            n < pc@.len(),
            pc@ == p@,
            qc@ == q@,
            pc@ != qc@,
            i <= n,
            forall|j: int| 0 <= j < i ==> pc@[j] == qc@[j],
        decreases n - i,
    {
        if pc[i] != qc[i] {
            assert(pc@.subrange(0, n as int)[i as int] != qc@[i as int]);
            assert(pc@.subrange(0, n as int) != qc@);
            return false;
        }
        i = i + 1;
    }
    assert(pc@.subrange(0, n as int) =~= qc@);
    pc[n] == '/' || (n > 0 && qc[n - 1] == '/')
}

/// Whether `p` is one of the ignored paths `ignored` or lies below one.
pub fn ignores(ignored: &Vec<String>, p: &String) -> (r: bool)
    ensures
        r == is_ignored(path_views(ignored@), p@),
{
    let ghost ign = path_views(ignored@);
    let mut k: usize = 0;
    while k < ignored.len()
        invariant
            k <= ignored@.len(),
            ign == path_views(ignored@),
            forall|j: int| 0 <= j < k ==> !at_or_below(p@, #[trigger] ign[j]),
        decreases ignored@.len() - k,
    {
        if is_at_or_below(p.as_str(), ignored[k].as_str()) {
            assert(at_or_below(p@, ign[k as int]));
            return true;
        }
        k = k + 1;
    }
    false
}

/// Whether `p` is one of `paths`.
pub fn contains_path(paths: &Vec<String>, p: &String) -> (r: bool)
    ensures
        r == path_views(paths@).contains(p@),
{
    let mut k: usize = 0;
    while k < paths.len()
        invariant
            k <= paths@.len(),
            forall|j: int| 0 <= j < k ==> paths@[j]@ != p@,
        decreases paths@.len() - k,
    {
        if paths[k] == *p {
            assert(path_views(paths@)[k as int] == p@);
            return true;
        }
        k = k + 1;
    }
    assert(!path_views(paths@).contains(p@));
    false
}

/// Node `j` can be reached from node `i` in at most `budget` steps down child links,
/// through nodes that are not ignored, where every node before `j` holds no marker.
pub open spec fn open_walk(t: Seq<DirNode>, ign: Seq<Seq<char>>, i: int, j: int, budget: nat) -> bool
    decreases budget,
{
    &&& 0 <= i < t.len()
    &&& !is_ignored(ign, t[i].path@)
    &&& (i == j || (budget > 0 && !t[i].has_marker && exists|c: int|
        #[trigger] is_child(t, i, c) && open_walk(t, ign, c, j, (budget - 1) as nat)))
}

/// How many more levels discovery may descend from `depth`.
pub open spec fn depth_budget(depth: int) -> nat {
    if depth >= MAX_DEPTH {
        0
    } else {
        (MAX_DEPTH - depth) as nat
    }
}

proof fn lemma_found_from_sound(t: Seq<DirNode>, ign: Seq<Seq<char>>, i: int, depth: int)
    ensures
        forall|m: int|
            0 <= m < found_from(t, ign, i, depth).len() ==> {
                let j = #[trigger] found_from(t, ign, i, depth)[m];
                &&& 0 <= j < t.len()
                &&& t[j].has_marker
                &&& open_walk(t, ign, i, j, depth_budget(depth))
            },
    decreases t.len() - i, 1int, 0int,
{
    if 0 <= i < t.len() && !is_ignored(ign, t[i].path@) && !t[i].has_marker && depth < MAX_DEPTH {
        lemma_found_in_children_sound(t, ign, i, 0, depth + 1);
        assert forall|m: int| 0 <= m < found_from(t, ign, i, depth).len() implies {
            let j = #[trigger] found_from(t, ign, i, depth)[m];
            &&& 0 <= j < t.len()
            &&& t[j].has_marker
            &&& open_walk(t, ign, i, j, depth_budget(depth))
        } by {
            let j = found_in_children(t, ign, i, 0, depth + 1)[m];
            let c = choose|c: int| #[trigger]
                is_child(t, i, c) && open_walk(t, ign, c, j, depth_budget(depth + 1));
            assert((depth_budget(depth) - 1) as nat == depth_budget(depth + 1));
            assert(is_child(t, i, c) && open_walk(t, ign, c, j, (depth_budget(depth) - 1) as nat));
        }
    }
}

proof fn lemma_found_in_children_sound(
    t: Seq<DirNode>,
    ign: Seq<Seq<char>>,
    p: int,
    k: int,
    depth: int,
)
    ensures
        forall|m: int|
            0 <= m < found_in_children(t, ign, p, k, depth).len() ==> {
                let j = #[trigger] found_in_children(t, ign, p, k, depth)[m];
                &&& 0 <= j < t.len()
                &&& t[j].has_marker
                &&& exists|c: int| #[trigger]
                    is_child(t, p, c) && open_walk(t, ign, c, j, depth_budget(depth))
            },
    decreases t.len() - p, 0int, t[p].children@.len() - k,
{
    if 0 <= p < t.len() && 0 <= k < t[p].children@.len() {
        let c = t[p].children@[k] as int;
        lemma_found_in_children_sound(t, ign, p, k + 1, depth);
        if p < c < t.len() {
            lemma_found_from_sound(t, ign, c, depth);
            let head = found_from(t, ign, c, depth);
            let rest = found_in_children(t, ign, p, k + 1, depth);
            assert(t[p].children@[k] == c as usize);
            assert(is_child(t, p, c));
            assert forall|m: int| 0 <= m < found_in_children(t, ign, p, k, depth).len() implies {
                let j = #[trigger] found_in_children(t, ign, p, k, depth)[m];
                &&& 0 <= j < t.len()
                &&& t[j].has_marker
                &&& exists|c: int| #[trigger]
                    is_child(t, p, c) && open_walk(t, ign, c, j, depth_budget(depth))
            } by {
                if m < head.len() {
                    assert(found_in_children(t, ign, p, k, depth)[m] == head[m]);
                } else {
                    assert(found_in_children(t, ign, p, k, depth)[m] == rest[m - head.len()]);
                }
            }
        }
    }
}

/// Discovery stays inside its bounds: starting from an ignored path, or from
/// anywhere below one, it finds nothing; every repository it finds holds a marker and lies at most `MAX_DEPTH`
/// levels below where discovery started, on a walk that passes through no ignored
/// path, so nothing under an ignored path is ever found.
pub proof fn lemma_discovery_bounded(t: Seq<DirNode>, ign: Seq<Seq<char>>, i: int)
    ensures
        0 <= i < t.len() && is_ignored(ign, t[i].path@) ==> found_from(t, ign, i, 0).len() == 0,
        forall|m: int|
            0 <= m < found_from(t, ign, i, 0).len() ==> {
                let j = #[trigger] found_from(t, ign, i, 0)[m];
                &&& 0 <= j < t.len()
                &&& t[j].has_marker
                &&& open_walk(t, ign, i, j, MAX_DEPTH as nat)
            },
{
    lemma_found_from_sound(t, ign, i, 0);
}

/// A directory with a marker is a leaf: discovery from it finds exactly that
/// directory, whatever markers lie deeper; no repository that is found sits above
/// another found one on the walk that reaches it; and in a well-formed snapshot no
/// path is found twice.
pub proof fn lemma_marker_is_leaf(t: Seq<DirNode>, ign: Seq<Seq<char>>, i: int, depth: int)
    ensures
        0 <= i < t.len() && !is_ignored(ign, t[i].path@) && t[i].has_marker ==> found_from(
            t,
            ign,
            i,
            depth,
        ) == seq![i],
        forall|a: int, b: int, n: nat|
            0 <= a < found_from(t, ign, i, depth).len() && 0 <= b < found_from(t, ign, i, depth).len()
                && found_from(t, ign, i, depth)[a] != found_from(t, ign, i, depth)[b] ==> !#[trigger] open_walk(
                t,
                ign,
                found_from(t, ign, i, depth)[a],
                found_from(t, ign, i, depth)[b],
                n,
            ),
        tree_wf(t) ==> paths_at(t, found_from(t, ign, i, depth)).no_duplicates(),
{
    lemma_found_from_sound(t, ign, i, depth);
    lemma_found_paths_distinct(t, ign, i, depth);
}

/// A snapshot is well formed when no two nodes share a path and every node is
/// listed at most once as a subdirectory, under a single parent.
pub open spec fn tree_wf(t: Seq<DirNode>) -> bool {
    &&& forall|a: int, b: int| 0 <= a < b < t.len() ==> (#[trigger] t[a]).path@ != (#[trigger] t[b]).path@
    &&& forall|pa: int, ka: int, pb: int, kb: int|
        0 <= pa < t.len() && 0 <= pb < t.len() && 0 <= ka < t[pa].children@.len() && 0 <= kb
            < t[pb].children@.len() && #[trigger] t[pa].children@[ka] == #[trigger] t[pb].children@[kb]
            ==> pa == pb && ka == kb
}

/// Node `j` is node `c` or lies below it, following child links.
pub open spec fn reaches(t: Seq<DirNode>, c: int, j: int) -> bool
    decreases j - c,
{
    c == j || (c < j && exists|x: int| #[trigger] is_child(t, c, x) && x <= j && reaches(t, x, j))
}

proof fn lemma_reaches_last(t: Seq<DirNode>, c: int, j: int)
    requires
        reaches(t, c, j),
        c != j,
    ensures
        exists|q: int| reaches(t, c, q) && #[trigger] is_child(t, q, j),
    decreases j - c,
{
    let x = choose|x: int| #[trigger] is_child(t, c, x) && x <= j && reaches(t, x, j);
    if x == j {
        assert(reaches(t, c, c));
        assert(is_child(t, c, j));
    } else {
        lemma_reaches_last(t, x, j);
        let q = choose|q: int| reaches(t, x, q) && #[trigger] is_child(t, q, j);
        assert(x <= q);
        assert(reaches(t, c, q));
    }
}

proof fn lemma_one_parent(t: Seq<DirNode>, q1: int, q2: int, j: int)
    requires
        tree_wf(t),
        is_child(t, q1, j),
        is_child(t, q2, j),
    ensures
        q1 == q2,
{
    let k1 = choose|k1: int| 0 <= k1 < t[q1].children@.len() && t[q1].children@[k1] == j as usize;
    let k2 = choose|k2: int| 0 <= k2 < t[q2].children@.len() && t[q2].children@[k2] == j as usize;
    assert(t[q1].children@[k1] == t[q2].children@[k2]);
}

proof fn lemma_subtrees_disjoint(t: Seq<DirNode>, p: int, c1: int, c2: int, j: int)
    requires
        tree_wf(t),
        is_child(t, p, c1),
        is_child(t, p, c2),
        c1 != c2,
    ensures
        !(reaches(t, c1, j) && reaches(t, c2, j)),
    decreases j,
{
    if reaches(t, c1, j) && reaches(t, c2, j) {
        if j == c1 {
            lemma_reaches_last(t, c2, j);
            let q = choose|q: int| reaches(t, c2, q) && #[trigger] is_child(t, q, j);
            lemma_one_parent(t, q, p, j);
        } else if j == c2 {
            lemma_reaches_last(t, c1, j);
            let q = choose|q: int| reaches(t, c1, q) && #[trigger] is_child(t, q, j);
            lemma_one_parent(t, q, p, j);
        } else {
            lemma_reaches_last(t, c1, j);
            lemma_reaches_last(t, c2, j);
            let q1 = choose|q: int| reaches(t, c1, q) && #[trigger] is_child(t, q, j);
            let q2 = choose|q: int| reaches(t, c2, q) && #[trigger] is_child(t, q, j);
            lemma_one_parent(t, q1, q2, j);
            assert(0 <= c1 <= q1);
            lemma_subtrees_disjoint(t, p, c1, c2, q1);
        }
    }
}

proof fn lemma_found_from_reaches(t: Seq<DirNode>, ign: Seq<Seq<char>>, i: int, depth: int)
    ensures
        forall|m: int|
            0 <= m < found_from(t, ign, i, depth).len() ==> reaches(
                t,
                i,
                #[trigger] found_from(t, ign, i, depth)[m],
            ),
    decreases t.len() - i, 1int, 0int,
{
    if 0 <= i < t.len() && !is_ignored(ign, t[i].path@) && !t[i].has_marker && depth < MAX_DEPTH {
        lemma_found_in_children_reach(t, ign, i, 0, depth + 1);
        assert forall|m: int| 0 <= m < found_from(t, ign, i, depth).len() implies reaches(
            t,
            i,
            #[trigger] found_from(t, ign, i, depth)[m],
        ) by {
            let j = found_in_children(t, ign, i, 0, depth + 1)[m];
            let k2 = choose|k2: int|
                0 <= k2 < t[i].children@.len() && i < t[i].children@[k2] < t.len() && reaches(
                    t,
                    #[trigger] t[i].children@[k2] as int,
                    j,
                );
            let c = t[i].children@[k2] as int;
            assert(is_child(t, i, c));
        }
    }
}

proof fn lemma_found_in_children_reach(
    t: Seq<DirNode>,
    ign: Seq<Seq<char>>,
    p: int,
    k: int,
    depth: int,
)
    ensures
        forall|m: int|
            #![trigger found_in_children(t, ign, p, k, depth)[m]]
            0 <= m < found_in_children(t, ign, p, k, depth).len() ==> exists|k2: int|
                k <= k2 < t[p].children@.len() && p < t[p].children@[k2] < t.len() && reaches(
                    t,
                    #[trigger] t[p].children@[k2] as int,
                    found_in_children(t, ign, p, k, depth)[m],
                ),
    decreases t.len() - p, 0int, t[p].children@.len() - k,
{
    if 0 <= p < t.len() && 0 <= k < t[p].children@.len() {
        let c = t[p].children@[k] as int;
        lemma_found_in_children_reach(t, ign, p, k + 1, depth);
        let rest = found_in_children(t, ign, p, k + 1, depth);
        if p < c < t.len() {
            lemma_found_from_reaches(t, ign, c, depth);
            let head = found_from(t, ign, c, depth);
            assert forall|m: int|
                #![trigger found_in_children(t, ign, p, k, depth)[m]]
                0 <= m < found_in_children(t, ign, p, k, depth).len() implies exists|k2: int|
                k <= k2 < t[p].children@.len() && p < t[p].children@[k2] < t.len() && reaches(
                    t,
                    #[trigger] t[p].children@[k2] as int,
                    found_in_children(t, ign, p, k, depth)[m],
                ) by {
                if m < head.len() {
                    assert(found_in_children(t, ign, p, k, depth)[m] == head[m]);
                    assert(reaches(t, t[p].children@[k] as int, head[m]));
                } else {
                    assert(found_in_children(t, ign, p, k, depth)[m] == rest[m - head.len()]);
                }
            }
        }
    }
}

proof fn lemma_found_from_distinct(t: Seq<DirNode>, ign: Seq<Seq<char>>, i: int, depth: int)
    requires
        tree_wf(t),
    ensures
        found_from(t, ign, i, depth).no_duplicates(),
    decreases t.len() - i, 1int, 0int,
{
    if 0 <= i < t.len() && !is_ignored(ign, t[i].path@) && !t[i].has_marker && depth < MAX_DEPTH {
        lemma_found_in_children_distinct(t, ign, i, 0, depth + 1);
    }
}

proof fn lemma_found_in_children_distinct(
    t: Seq<DirNode>,
    ign: Seq<Seq<char>>,
    p: int,
    k: int,
    depth: int,
)
    requires
        tree_wf(t),
    ensures
        found_in_children(t, ign, p, k, depth).no_duplicates(),
    decreases t.len() - p, 0int, t[p].children@.len() - k,
{
    if 0 <= p < t.len() && 0 <= k < t[p].children@.len() {
        let c = t[p].children@[k] as int;
        lemma_found_in_children_distinct(t, ign, p, k + 1, depth);
        let rest = found_in_children(t, ign, p, k + 1, depth);
        if p < c < t.len() {
            lemma_found_from_distinct(t, ign, c, depth);
            lemma_found_from_reaches(t, ign, c, depth);
            lemma_found_in_children_reach(t, ign, p, k + 1, depth);
            let head = found_from(t, ign, c, depth);
            let all = head + rest;
            assert(t[p].children@[k] == c as usize);
            assert(is_child(t, p, c));
            assert forall|a: int, b: int| 0 <= a < all.len() && 0 <= b < all.len() && a != b implies all[a]
                != all[b] by {
                if a < head.len() && b >= head.len() {
                    let j = head[a];
                    if j == rest[b - head.len()] {
                        let k2 = choose|k2: int|
                            k + 1 <= k2 < t[p].children@.len() && p < t[p].children@[k2] < t.len()
                                && reaches(t, #[trigger] t[p].children@[k2] as int, rest[b - head.len()]);
                        let c2 = t[p].children@[k2] as int;
                        assert(is_child(t, p, c2));
                        lemma_subtrees_disjoint(t, p, c, c2, j);
                    }
                } else if b < head.len() && a >= head.len() {
                    let j = head[b];
                    if j == rest[a - head.len()] {
                        let k2 = choose|k2: int|
                            k + 1 <= k2 < t[p].children@.len() && p < t[p].children@[k2] < t.len()
                                && reaches(t, #[trigger] t[p].children@[k2] as int, rest[a - head.len()]);
                        let c2 = t[p].children@[k2] as int;
                        assert(is_child(t, p, c2));
                        lemma_subtrees_disjoint(t, p, c, c2, j);
                    }
                } else if a < head.len() {
                    assert(head[a] != head[b]);
                } else {
                    assert(rest[a - head.len()] != rest[b - head.len()]);
                }
            }
        }
    }
}

/// In a well-formed snapshot discovery finds no path twice.
pub proof fn lemma_found_paths_distinct(t: Seq<DirNode>, ign: Seq<Seq<char>>, i: int, depth: int)
    ensures
        tree_wf(t) ==> paths_at(t, found_from(t, ign, i, depth)).no_duplicates(),
{
    if tree_wf(t) {
        lemma_found_from_distinct(t, ign, i, depth);
        lemma_found_from_sound(t, ign, i, depth);
        let f = found_from(t, ign, i, depth);
        assert forall|a: int, b: int| 0 <= a < f.len() && 0 <= b < f.len() && a != b implies paths_at(t, f)[a]
            != paths_at(t, f)[b] by {
            if f[a] < f[b] {
                assert(t[f[a]].path@ != t[f[b]].path@);
            } else {
                assert(t[f[b]].path@ != t[f[a]].path@);
            }
        }
    }
}

} // verus!
