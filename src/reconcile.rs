//! Reconciliation of the inventory with the file system: what is gone is dropped,
//! what discovery finds is added, and nothing is added twice.
use vstd::prelude::*;
use crate::discovery::{discover, found_from, path_views, paths_at, repo_paths, DirTree};
use crate::persist::{
    insert_by_path, insert_in_path_order, lemma_path_le_antisym, lemma_path_le_total, lemma_path_le_trans,
    path_le,
};
use crate::state::{ordered_paths, repo_views, RepoView, Repository, State};

verus! {

/// The paths found by discovery in the snapshots of the first `k` watched
/// directories, skipping those that are no longer present.
pub open spec fn scan_found(
    trees: Seq<DirTree>,
    present: Seq<bool>,
    ign: Seq<Seq<char>>,
    k: int,
) -> Seq<Seq<char>>
    decreases k,
{
    if k <= 0 {
        Seq::empty()
    } else {
        let before = scan_found(trees, present, ign, k - 1);
        if present[k - 1] && trees[k - 1].nodes@.len() > 0 {
            before + paths_at(trees[k - 1].nodes@, found_from(trees[k - 1].nodes@, ign, 0, 0))
        } else {
            before
        }
    }
}

/// The entries of `s` whose flag is set, in order.
pub open spec fn kept<T>(s: Seq<T>, flags: Seq<bool>) -> Seq<T>
    decreases s.len(),
{
    if s.len() == 0 || flags.len() == 0 {
        Seq::empty()
    } else if flags[0] {
        seq![s[0]] + kept(s.drop_first(), flags.drop_first())
    } else {
        kept(s.drop_first(), flags.drop_first())
    }
}

/// Removes the entries of `v` whose flag is not set.
pub fn retain_flagged<T>(v: &mut Vec<T>, flags: &Vec<bool>)
    requires
        old(v)@.len() == flags@.len(),
    ensures
        final(v)@ == kept(old(v)@, flags@),
{
    let ghost s = v@;
    let n = v.len();
    let mut i: usize = n;
    assert(kept(s.subrange(n as int, n as int), flags@.subrange(n as int, n as int)) =~= Seq::<T>::empty());
    assert(s.subrange(0, n as int) =~= s);
    assert(s.subrange(0, n as int) + Seq::<T>::empty() =~= s);
    while i > 0
        invariant
            n == s.len(),
            n == flags@.len(),
            i <= n,
            v@ == s.subrange(0, i as int) + kept(
                s.subrange(i as int, n as int),
                flags@.subrange(i as int, n as int),
            ),
        decreases i,
    {
        let ghost tail = s.subrange(i - 1, n as int);
        let ghost ftail = flags@.subrange(i - 1, n as int);
        assert(tail.drop_first() =~= s.subrange(i as int, n as int));
        assert(ftail.drop_first() =~= flags@.subrange(i as int, n as int));
        assert(tail[0] == s[i - 1]);
        assert(ftail[0] == flags@[i - 1]);
        if !flags[i - 1] {
            v.remove(i - 1);
            assert(v@ =~= s.subrange(0, i - 1) + kept(tail, ftail));
        } else {
            assert(v@ =~= s.subrange(0, i - 1) + kept(tail, ftail));
        }
        i = i - 1;
    }
    assert(s.subrange(0, 0) + kept(s, flags@) =~= kept(s, flags@));
    assert(s.subrange(0, n as int) =~= s);
    assert(flags@.subrange(0, n as int) =~= flags@);
}

/// The paths of a list of repository views.
pub open spec fn view_paths(r: Seq<RepoView>) -> Seq<Seq<char>> {
    r.map_values(|x: RepoView| x.path)
}

/// `s` with `x` put after every entry whose path is not past its own.
pub open spec fn insert_view(s: Seq<RepoView>, x: RepoView) -> Seq<RepoView>
    decreases s.len(),
{
    if s.len() == 0 {
        seq![x]
    } else if path_le(s.last().path, x.path) {
        s.push(x)
    } else {
        insert_view(s.drop_last(), x).push(s.last())
    }
}

/// `r` with each repository of `f` put in its place by path, in order, unless one
/// at its path is already there.
pub open spec fn merged(r: Seq<RepoView>, f: Seq<RepoView>) -> Seq<RepoView>
    decreases f.len(),
{
    if f.len() == 0 {
        r
    } else {
        let m = merged(r, f.drop_last());
        if view_paths(m).contains(f.last().path) {
            m
        } else {
            insert_view(m, f.last())
        }
    }
}

/// The paths strictly increase: sorted by path, no two the same.
pub open spec fn in_path_order(r: Seq<RepoView>) -> bool {
    forall|a: int, b: int|
        0 <= a < b < r.len() ==> path_le((#[trigger] r[a]).path, (#[trigger] r[b]).path) && r[a].path
            != r[b].path
}

proof fn lemma_contains_path(s: Seq<RepoView>, v: RepoView)
    requires
        s.contains(v),
    ensures
        view_paths(s).contains(v.path),
{
    let q = choose|q: int| 0 <= q < s.len() && s[q] == v;
    assert(view_paths(s)[q] == v.path);
}

proof fn lemma_insert_view(s: Seq<RepoView>, x: RepoView)
    ensures
        insert_view(s, x).len() == s.len() + 1,
        forall|k: int|
            0 <= k < insert_view(s, x).len() ==> (#[trigger] insert_view(s, x)[k] == x || s.contains(
                insert_view(s, x)[k],
            )),
        insert_view(s, x).contains(x),
        forall|k: int| 0 <= k < s.len() ==> insert_view(s, x).contains(#[trigger] s[k]),
        in_path_order(s) && !view_paths(s).contains(x.path) ==> in_path_order(insert_view(s, x)),
    decreases s.len(),
{
    let r = insert_view(s, x);
    if s.len() == 0 {
        assert(r[0] == x);
    } else if path_le(s.last().path, x.path) {
        assert(r == s.push(x));
        assert(r[s.len() as int] == x);
        assert forall|k: int| 0 <= k < s.len() implies r.contains(#[trigger] s[k]) by {
            assert(r[k] == s[k]);
        }
        assert forall|k: int| 0 <= k < r.len() implies (#[trigger] r[k] == x || s.contains(r[k])) by {
            if k < s.len() {
                assert(r[k] == s[k]);
            }
        }
        if in_path_order(s) && !view_paths(s).contains(x.path) {
            assert forall|a: int, b: int| 0 <= a < b < r.len() implies path_le(
                (#[trigger] r[a]).path,
                (#[trigger] r[b]).path,
            ) && r[a].path != r[b].path by {
                if b == s.len() {
                    assert(r[a] == s[a]);
                    assert(view_paths(s)[a] == s[a].path);
                    if a < s.len() - 1 {
                        lemma_path_le_trans(s[a].path, s[s.len() - 1].path, x.path);
                    }
                } else {
                    assert(r[a] == s[a] && r[b] == s[b]);
                }
            }
        }
    } else {
        let init = s.drop_last();
        let y = s.last();
        lemma_insert_view(init, x);
        lemma_path_le_total(y.path, x.path);
        let m = insert_view(init, x);
        assert(r == m.push(y));
        assert(r[m.len() as int] == y);
        assert forall|k: int| 0 <= k < s.len() implies r.contains(#[trigger] s[k]) by {
            if k < init.len() {
                assert(init[k] == s[k]);
                let q = choose|q: int| 0 <= q < m.len() && m[q] == init[k];
                assert(r[q] == m[q]);
            } else {
                assert(s[k] == y);
            }
        }
        let q = choose|q: int| 0 <= q < m.len() && m[q] == x;
        assert(r[q] == m[q]);
        assert forall|k: int| 0 <= k < r.len() implies (#[trigger] r[k] == x || s.contains(r[k])) by {
            if k < m.len() {
                assert(r[k] == m[k]);
                if m[k] != x {
                    let i = choose|i: int| 0 <= i < init.len() && init[i] == m[k];
                    assert(s[i] == init[i]);
                }
            } else {
                assert(s[s.len() - 1] == y);
            }
        }
        if in_path_order(s) && !view_paths(s).contains(x.path) {
            assert forall|a: int, b: int| 0 <= a < b < init.len() implies path_le(
                (#[trigger] init[a]).path,
                (#[trigger] init[b]).path,
            ) && init[a].path != init[b].path by {
                assert(init[a] == s[a] && init[b] == s[b]);
            }
            assert(!view_paths(init).contains(x.path)) by {
                if view_paths(init).contains(x.path) {
                    let i = choose|i: int| 0 <= i < view_paths(init).len() && view_paths(init)[i] == x.path;
                    assert(view_paths(s)[i] == s[i].path);
                    assert(init[i] == s[i]);
                }
            }
            assert(view_paths(s)[s.len() - 1] == y.path);
            assert forall|a: int, b: int| 0 <= a < b < r.len() implies path_le(
                (#[trigger] r[a]).path,
                (#[trigger] r[b]).path,
            ) && r[a].path != r[b].path by {
                if b == m.len() {
                    assert(r[a] == m[a]);
                    if m[a] != x {
                        let i = choose|i: int| 0 <= i < init.len() && init[i] == m[a];
                        assert(s[i] == init[i]);
                    }
                } else {
                    assert(r[a] == m[a] && r[b] == m[b]);
                }
            }
        }
    }
}

proof fn lemma_repo_views_insert(s: Seq<Repository>, x: Repository)
    ensures
        repo_views(insert_by_path(s, x)) == insert_view(repo_views(s), x@),
    decreases s.len(),
{
    if s.len() == 0 {
        assert(repo_views(insert_by_path(s, x)) =~= seq![x@]);
    } else {
        assert(repo_views(s).last() == s.last()@);
        if path_le(s.last().path@, x.path@) {
            assert(repo_views(s.push(x)) =~= repo_views(s).push(x@));
        } else {
            lemma_repo_views_insert(s.drop_last(), x);
            assert(repo_views(s.drop_last()) =~= repo_views(s).drop_last());
            assert(repo_views(insert_by_path(s.drop_last(), x).push(s.last())) =~= repo_views(
                insert_by_path(s.drop_last(), x),
            ).push(s.last()@));
        }
    }
}

/// Never-run, hook-less repositories at `paths`.
pub open spec fn fresh_views(paths: Seq<Seq<char>>) -> Seq<RepoView> {
    paths.map_values(|p: Seq<char>| RepoView { path: p, check_time: None, hook: None })
}

proof fn lemma_path_views_push(v: Seq<String>, x: String)
    ensures
        path_views(v.push(x)) == path_views(v).push(x@),
{
    assert(path_views(v.push(x)) =~= path_views(v).push(x@));
}

proof fn lemma_view_paths_push(m: Seq<RepoView>, x: RepoView)
    ensures
        view_paths(m.push(x)) == view_paths(m).push(x.path),
{
    assert(view_paths(m.push(x)) =~= view_paths(m).push(x.path));
}

proof fn lemma_merged_covers(r: Seq<RepoView>, f: Seq<RepoView>)
    ensures
        forall|p: Seq<char>| #[trigger] view_paths(r).contains(p) ==> view_paths(merged(r, f)).contains(p),
        forall|k: int| 0 <= k < f.len() ==> view_paths(merged(r, f)).contains(#[trigger] f[k].path),
        in_path_order(r) ==> in_path_order(merged(r, f)),
    decreases f.len(),
{
    if f.len() > 0 {
        let init = f.drop_last();
        let y = f.last();
        lemma_merged_covers(r, init);
        let m = merged(r, init);
        if !view_paths(m).contains(y.path) {
            let res = insert_view(m, y);
            lemma_insert_view(m, y);
            assert forall|p: Seq<char>| #[trigger] view_paths(m).contains(p) implies view_paths(
                res,
            ).contains(p) by {
                let q = choose|q: int| 0 <= q < view_paths(m).len() && view_paths(m)[q] == p;
                assert(m[q].path == p);
                lemma_contains_path(res, m[q]);
            }
            lemma_contains_path(res, y);
        }
        assert forall|k: int| 0 <= k < f.len() implies view_paths(merged(r, f)).contains(
            #[trigger] f[k].path,
        ) by {
            if k < init.len() {
                assert(init[k] == f[k]);
            }
        }
    }
}

proof fn lemma_merged_known(r: Seq<RepoView>, f: Seq<RepoView>)
    requires
        forall|k: int| 0 <= k < f.len() ==> view_paths(r).contains(#[trigger] f[k].path),
    ensures
        merged(r, f) == r,
    decreases f.len(),
{
    if f.len() > 0 {
        let init = f.drop_last();
        assert forall|k: int| 0 <= k < init.len() implies view_paths(r).contains(#[trigger] init[k].path) by {
            assert(init[k] == f[k]);
        }
        lemma_merged_known(r, init);
        assert(f.last() == f[f.len() - 1]);
    }
}

/// The entries of `s` whose flag is set, when every flag is set, are all of `s`.
proof fn lemma_kept_all<T>(s: Seq<T>, flags: Seq<bool>)
    requires
        flags.len() == s.len(),
        forall|k: int| 0 <= k < flags.len() ==> #[trigger] flags[k],
    ensures
        kept(s, flags) == s,
    decreases s.len(),
{
    if s.len() > 0 {
        assert forall|k: int| 0 <= k < flags.drop_first().len() implies #[trigger] flags.drop_first()[k] by {
            assert(flags.drop_first()[k] == flags[k + 1]);
        }
        lemma_kept_all(s.drop_first(), flags.drop_first());
        assert(flags[0]);
        assert(seq![s[0]] + s.drop_first() =~= s);
    }
}

/// Scanning an unchanged tree again changes nothing and adds no duplicate: when every
/// repository of a first scan's result is still present, merging the same discoveries
/// into it gives it back, and an inventory sorted by path without duplicates stays so.
pub proof fn lemma_rescan_idempotent(r: Seq<RepoView>, f: Seq<RepoView>, present: Seq<bool>)
    requires
        present.len() == merged(r, f).len(),
        forall|k: int| 0 <= k < present.len() ==> #[trigger] present[k],
    ensures
        merged(kept(merged(r, f), present), f) == merged(r, f),
        in_path_order(r) ==> in_path_order(merged(r, f)),
{
    lemma_kept_all(merged(r, f), present);
    lemma_merged_covers(r, f);
    lemma_merged_known(merged(r, f), f);
}

proof fn lemma_ordered_views(r: Seq<Repository>)
    ensures
        ordered_paths(r) == in_path_order(repo_views(r)),
{
    assert forall|a: int| 0 <= a < r.len() implies #[trigger] repo_views(r)[a].path == r[a].path@ by {}
    if ordered_paths(r) {
        assert forall|a: int, b: int| 0 <= a < b < repo_views(r).len() implies path_le(
            (#[trigger] repo_views(r)[a]).path,
            (#[trigger] repo_views(r)[b]).path,
        ) && repo_views(r)[a].path != repo_views(r)[b].path by {
            assert(repo_views(r)[a].path == r[a].path@ && repo_views(r)[b].path == r[b].path@);
        }
    }
    if in_path_order(repo_views(r)) {
        assert forall|a: int, b: int| 0 <= a < b < r.len() implies path_le(
            (#[trigger] r[a]).path@,
            (#[trigger] r[b]).path@,
        ) && r[a].path@ != r[b].path@ by {
            assert(repo_views(r)[a].path == r[a].path@ && repo_views(r)[b].path == r[b].path@);
        }
    }
}

proof fn lemma_kept_within<T>(s: Seq<T>, flags: Seq<bool>)
    ensures
        kept(s, flags).len() <= s.len(),
        forall|i: int| 0 <= i < kept(s, flags).len() ==> s.contains(#[trigger] kept(s, flags)[i]),
    decreases s.len(),
{
    if s.len() > 0 && flags.len() > 0 {
        lemma_kept_within(s.drop_first(), flags.drop_first());
        let rest = kept(s.drop_first(), flags.drop_first());
        assert forall|i: int| 0 <= i < kept(s, flags).len() implies s.contains(
            #[trigger] kept(s, flags)[i],
        ) by {
            if flags[0] {
                if i == 0 {
                    assert(kept(s, flags)[0] == s[0]);
                } else {
                    assert(kept(s, flags)[i] == rest[i - 1]);
                    let j = choose|j: int| 0 <= j < s.drop_first().len() && s.drop_first()[j] == rest[i - 1];
                    assert(s[j + 1] == rest[i - 1]);
                }
            } else {
                let j = choose|j: int| 0 <= j < s.drop_first().len() && s.drop_first()[j] == rest[i];
                assert(s[j + 1] == rest[i]);
            }
        }
    }
}

/// Inserting a repository at a new path keeps the paths strictly increasing.
pub(crate) proof fn lemma_insert_keeps_order(s: Seq<Repository>, x: Repository)
    requires
        ordered_paths(s),
        !repo_paths(s).contains(x.path@),
    ensures
        ordered_paths(insert_by_path(s, x)),
{
    lemma_ordered_views(s);
    lemma_ordered_views(insert_by_path(s, x));
    lemma_repo_views_insert(s, x);
    assert(repo_paths(s) =~= view_paths(repo_views(s)));
    lemma_insert_view(repo_views(s), x@);
}

proof fn lemma_kept_flagged<T>(s: Seq<T>, flags: Seq<bool>, y: T)
    requires
        flags.len() == s.len(),
    ensures
        kept(s, flags).contains(y) <==> exists|k: int| 0 <= k < s.len() && s[k] == y && #[trigger] flags[k],
    decreases s.len(),
{
    if s.len() > 0 {
        let ts = s.drop_first();
        let tf = flags.drop_first();
        lemma_kept_flagged(ts, tf, y);
        let rest = kept(ts, tf);
        if kept(s, flags).contains(y) {
            let i = choose|i: int| 0 <= i < kept(s, flags).len() && kept(s, flags)[i] == y;
            if flags[0] && i == 0 {
                assert(kept(s, flags)[0] == s[0]);
            } else {
                let r = if flags[0] { i - 1 } else { i };
                assert(kept(s, flags)[i] == rest[r]);
                let k = choose|k: int| 0 <= k < ts.len() && ts[k] == y && #[trigger] tf[k];
                assert(s[k + 1] == ts[k] && flags[k + 1] == tf[k]);
            }
        }
        if exists|k: int| 0 <= k < s.len() && s[k] == y && #[trigger] flags[k] {
            let k = choose|k: int| 0 <= k < s.len() && s[k] == y && #[trigger] flags[k];
            if k == 0 {
                assert(kept(s, flags)[0] == y);
            } else {
                assert(ts[k - 1] == s[k] && tf[k - 1] == flags[k]);
                let i = choose|i: int| 0 <= i < rest.len() && rest[i] == y;
                if flags[0] {
                    assert(kept(s, flags)[i + 1] == y);
                } else {
                    assert(kept(s, flags)[i] == y);
                }
            }
        }
    }
}

proof fn lemma_kept_views_ordered(s: Seq<RepoView>, flags: Seq<bool>)
    requires
        in_path_order(s),
    ensures
        in_path_order(kept(s, flags)),
    decreases s.len(),
{
    if s.len() > 0 && flags.len() > 0 {
        let tail = s.drop_first();
        assert forall|a: int, b: int| 0 <= a < b < tail.len() implies path_le(
            (#[trigger] tail[a]).path,
            (#[trigger] tail[b]).path,
        ) && tail[a].path != tail[b].path by {
            assert(tail[a] == s[a + 1] && tail[b] == s[b + 1]);
        }
        lemma_kept_views_ordered(tail, flags.drop_first());
        lemma_kept_within(tail, flags.drop_first());
        let rest = kept(tail, flags.drop_first());
        if flags[0] {
            let k = kept(s, flags);
            assert forall|a: int, b: int| 0 <= a < b < k.len() implies path_le(
                (#[trigger] k[a]).path,
                (#[trigger] k[b]).path,
            ) && k[a].path != k[b].path by {
                assert(k[b] == rest[b - 1]);
                if a == 0 {
                    assert(k[0] == s[0]);
                    let j = choose|j: int| 0 <= j < tail.len() && tail[j] == rest[b - 1];
                    assert(s[j + 1] == tail[j]);
                } else {
                    assert(k[a] == rest[a - 1]);
                }
            }
        }
    }
}

proof fn lemma_merged_elems(r: Seq<RepoView>, f: Seq<RepoView>, x: RepoView)
    requires
        view_paths(f).no_duplicates(),
    ensures
        merged(r, f).contains(x) <==> (r.contains(x) || (f.contains(x) && !view_paths(r).contains(
            x.path,
        ))),
    decreases f.len(),
{
    if f.len() > 0 {
        let init = f.drop_last();
        let y = f.last();
        let m = merged(r, init);
        assert(y == f[f.len() - 1]);
        assert(view_paths(init).no_duplicates()) by {
            assert forall|i: int, j: int| 0 <= i < view_paths(init).len() && 0 <= j < view_paths(init).len() && i != j
                implies view_paths(init)[i] != view_paths(init)[j] by {
                assert(view_paths(init)[i] == view_paths(f)[i] && view_paths(init)[j] == view_paths(f)[j]);
            }
        }
        assert forall|i: int| 0 <= i < init.len() implies (#[trigger] init[i]).path != y.path by {
            assert(view_paths(f)[i] == init[i].path && view_paths(f)[f.len() - 1] == y.path);
        }
        lemma_merged_elems(r, init, x);
        lemma_merged_elems(r, init, y);
        assert(f.contains(x) <==> (init.contains(x) || x == y)) by {
            if f.contains(x) {
                let i = choose|i: int| 0 <= i < f.len() && f[i] == x;
                if i < init.len() {
                    assert(init[i] == f[i]);
                }
            }
            if init.contains(x) {
                let i = choose|i: int| 0 <= i < init.len() && init[i] == x;
                assert(f[i] == init[i]);
            }
        }
        assert(!init.contains(y));
        if view_paths(m).contains(y.path) {
            let q = choose|q: int| 0 <= q < view_paths(m).len() && view_paths(m)[q] == y.path;
            let z = m[q];
            assert(view_paths(m)[q] == z.path);
            lemma_merged_elems(r, init, z);
            assert(!init.contains(z));
            lemma_contains_path(r, z);
        } else {
            lemma_insert_view(m, y);
            lemma_merged_covers(r, init);
            if x != y {
                if m.contains(x) {
                    let i = choose|i: int| 0 <= i < m.len() && m[i] == x;
                    assert(insert_view(m, y).contains(m[i]));
                }
                if insert_view(m, y).contains(x) {
                    let i = choose|i: int| 0 <= i < insert_view(m, y).len() && insert_view(m, y)[i] == x;
                    assert(insert_view(m, y)[i] == y || m.contains(insert_view(m, y)[i]));
                }
            }
        }
    }
}

proof fn lemma_ordered_equal(a: Seq<RepoView>, b: Seq<RepoView>)
    requires
        in_path_order(a),
        in_path_order(b),
        forall|x: RepoView| a.contains(x) <==> b.contains(x),
    ensures
        a == b,
    decreases a.len(),
{
    if a.len() == 0 {
        if b.len() > 0 {
            assert(b.contains(b[0]));
        }
        assert(a =~= b);
    } else {
        assert(a.contains(a[a.len() - 1]));
        assert(b.len() > 0);
        assert(b.contains(b[b.len() - 1]));
        let x = a[a.len() - 1];
        let y = b[b.len() - 1];
        let i = choose|i: int| 0 <= i < b.len() && b[i] == x;
        let j = choose|j: int| 0 <= j < a.len() && a[j] == y;
        if x != y {
            assert(i != b.len() - 1);
            assert(j != a.len() - 1);
            assert(path_le(x.path, y.path));
            assert(path_le(y.path, x.path));
            lemma_path_le_antisym(x.path, y.path);
            assert(a[j].path != a[a.len() - 1].path);
        }
        let a2 = a.drop_last();
        let b2 = b.drop_last();
        assert forall|z: RepoView| a2.contains(z) <==> b2.contains(z) by {
            if a2.contains(z) {
                let k = choose|k: int| 0 <= k < a2.len() && a2[k] == z;
                assert(a[k] == z);
                assert(a.contains(z));
                assert(b.contains(z));
                assert(a[k].path != a[a.len() - 1].path);
                let k2 = choose|k2: int| 0 <= k2 < b.len() && b[k2] == z;
                if k2 == b.len() - 1 {
                    assert(z == x);
                }
                assert(b2[k2] == z);
            }
            if b2.contains(z) {
                let k = choose|k: int| 0 <= k < b2.len() && b2[k] == z;
                assert(b[k] == z);
                assert(b.contains(z));
                assert(a.contains(z));
                assert(b[k].path != b[b.len() - 1].path);
                let k2 = choose|k2: int| 0 <= k2 < a.len() && a[k2] == z;
                if k2 == a.len() - 1 {
                    assert(z == y);
                }
                assert(a2[k2] == z);
            }
        }
        assert forall|p: int, q: int| 0 <= p < q < a2.len() implies path_le(
            (#[trigger] a2[p]).path,
            (#[trigger] a2[q]).path,
        ) && a2[p].path != a2[q].path by {
            assert(a2[p] == a[p] && a2[q] == a[q]);
        }
        assert forall|p: int, q: int| 0 <= p < q < b2.len() implies path_le(
            (#[trigger] b2[p]).path,
            (#[trigger] b2[q]).path,
        ) && b2[p].path != b2[q].path by {
            assert(b2[p] == b[p] && b2[q] == b[q]);
        }
        lemma_ordered_equal(a2, b2);
        assert(a =~= a2.push(x));
        assert(b =~= b2.push(y));
    }
}

/// Scanning an unchanged tree again gives the inventory back, also where a first
/// scan's repositories are dropped as missing and found again: when the repositories
/// that the scan adds have distinct paths, and each one dropped is exactly one that
/// is added again, the second merge puts every dropped one back in its place.
pub proof fn lemma_rescan_restores(base: Seq<RepoView>, f: Seq<RepoView>, present: Seq<bool>)
    requires
        in_path_order(base),
        view_paths(f).no_duplicates(),
        present.len() == merged(base, f).len(),
        forall|k: int| 0 <= k < present.len() && !#[trigger] present[k] ==> f.contains(merged(base, f)[k]),
    ensures
        merged(kept(merged(base, f), present), f) == merged(base, f),
        in_path_order(merged(base, f)),
{
    let r = merged(base, f);
    lemma_merged_covers(base, f);
    let k = kept(r, present);
    lemma_kept_views_ordered(r, present);
    let m = merged(k, f);
    lemma_merged_covers(k, f);
    assert forall|x: RepoView| m.contains(x) <==> r.contains(x) by {
        lemma_merged_elems(k, f, x);
        lemma_kept_flagged(r, present, x);
        if r.contains(x) {
            let i = choose|i: int| 0 <= i < r.len() && r[i] == x;
            if !present[i] {
                if view_paths(k).contains(x.path) {
                    let q = choose|q: int| 0 <= q < view_paths(k).len() && view_paths(k)[q] == x.path;
                    assert(view_paths(k)[q] == k[q].path);
                    lemma_kept_flagged(r, present, k[q]);
                    let i2 = choose|i2: int| 0 <= i2 < r.len() && r[i2] == k[q] && #[trigger] present[i2];
                    assert(i2 != i);
                }
            }
        }
        if m.contains(x) && !k.contains(x) {
            assert(view_paths(r).contains(x.path)) by {
                let i = choose|i: int| 0 <= i < f.len() && f[i] == x;
            }
            let q = choose|q: int| 0 <= q < view_paths(r).len() && view_paths(r)[q] == x.path;
            assert(view_paths(r)[q] == r[q].path);
            lemma_kept_flagged(r, present, r[q]);
            if present[q] {
                lemma_contains_path(k, r[q]);
            } else {
                assert(f.contains(r[q]));
                let i1 = choose|i: int| 0 <= i < f.len() && f[i] == x;
                let i2 = choose|i: int| 0 <= i < f.len() && f[i] == r[q];
                assert(view_paths(f)[i1] == view_paths(f)[i2]);
            }
        }
    }
    lemma_ordered_equal(m, r);
}

pub(crate) proof fn lemma_kept_ordered(s: Seq<Repository>, flags: Seq<bool>)
    requires
        ordered_paths(s),
    ensures
        ordered_paths(kept(s, flags)),
    decreases s.len(),
{
    if s.len() > 0 && flags.len() > 0 {
        let tail = s.drop_first();
        assert forall|a: int, b: int| 0 <= a < b < tail.len() implies path_le(
            (#[trigger] tail[a]).path@,
            (#[trigger] tail[b]).path@,
        ) && tail[a].path@ != tail[b].path@ by {
            assert(tail[a] == s[a + 1] && tail[b] == s[b + 1]);
        }
        lemma_kept_ordered(tail, flags.drop_first());
        lemma_kept_within(tail, flags.drop_first());
        let rest = kept(tail, flags.drop_first());
        if flags[0] {
            let k = kept(s, flags);
            assert forall|a: int, b: int| 0 <= a < b < k.len() implies path_le(
                (#[trigger] k[a]).path@,
                (#[trigger] k[b]).path@,
            ) && k[a].path@ != k[b].path@ by {
                assert(k[b] == rest[b - 1]);
                if a == 0 {
                    assert(k[0] == s[0]);
                    let j = choose|j: int| 0 <= j < tail.len() && tail[j] == rest[b - 1];
                    assert(s[j + 1] == tail[j]);
                } else {
                    assert(k[a] == rest[a - 1]);
                }
            }
        }
    }
}

impl State {
    /// Adds each of `found`, in order, at its place by path, unless a repository at
    /// its path is known.
    pub fn add_discovered(&mut self, found: &Vec<Repository>)
        ensures
            repo_views(final(self).repositories@) == merged(
                repo_views(old(self).repositories@),
                repo_views(found@),
            ),
            old(self).wf() ==> final(self).wf(),
            final(self).watched == old(self).watched,
            final(self).ignored == old(self).ignored,
            final(self).keys == old(self).keys,
    {
        let ghost base = repo_views(old(self).repositories@);
        let ghost f = repo_views(found@);
        let mut i: usize = 0;
        assert(f.subrange(0, 0) =~= Seq::<RepoView>::empty());
        while i < found.len()
            invariant
                i <= found@.len(),
                f == repo_views(found@),
                repo_views(self.repositories@) == merged(base, f.subrange(0, i as int)),
                self.watched == old(self).watched,
                self.ignored == old(self).ignored,
                self.keys == old(self).keys,
            decreases found@.len() - i,
        {
            let ghost pre = f.subrange(0, i as int);
            let ghost post = f.subrange(0, i + 1);
            assert(post.drop_last() =~= pre);
            assert(post.last() == found@[i as int]@);
            let known = self.has_repo_at_path(found[i].path.as_str());
            proof {
                assert(repo_paths(self.repositories@) =~= view_paths(repo_views(self.repositories@)));
            }
            if !known {
                let ghost before = self.repositories@;
                let x = found[i].duplicate();
                insert_in_path_order(&mut self.repositories, x);
                proof {
                    lemma_repo_views_insert(before, x);
                }
            }
            i = i + 1;
        }
        assert(f.subrange(0, i as int) =~= f);
        proof {
            lemma_ordered_views(old(self).repositories@);
            lemma_ordered_views(self.repositories@);
            lemma_merged_covers(base, f);
        }
    }

    /// Reconciles the inventory with the file system. Watched directories and
    /// repositories that are no longer present are dropped first, so that a path
    /// deleted and created again is found again. Then every repository found in the
    /// snapshot of each watched directory that is still present, under the stored
    /// and the configured ignore lists, and every configured single repository, is
    /// added unless one at its path is known. A configured repository is added even
    /// where it is not present on disk: it may come back.
    pub fn scan(
        &mut self,
        watched_present: &Vec<bool>,
        repos_present: &Vec<bool>,
        trees: &Vec<DirTree>,
        config_ignored: &Vec<String>,
        explicit: &Vec<String>,
    )
        requires
            watched_present@.len() == old(self).watched@.len(),
            trees@.len() == old(self).watched@.len(),
            repos_present@.len() == old(self).repositories@.len(),
        ensures
            final(self).watched@ == kept(old(self).watched@, watched_present@),
            repo_views(final(self).repositories@) == merged(
                repo_views(kept(old(self).repositories@, repos_present@)),
                fresh_views(
                    scan_found(
                        trees@,
                        watched_present@,
                        path_views(old(self).ignored@) + path_views(config_ignored@),
                        trees@.len() as int,
                    ) + path_views(explicit@),
                ),
            ),
            old(self).wf() ==> final(self).wf(),
            final(self).ignored == old(self).ignored,
            final(self).keys == old(self).keys,
    {
        let ghost ign = path_views(old(self).ignored@) + path_views(config_ignored@);
        proof {
            if old(self).wf() {
                lemma_kept_ordered(old(self).repositories@, repos_present@);
            }
        }
        retain_flagged(&mut self.watched, watched_present);
        retain_flagged(&mut self.repositories, repos_present);
        let mut ignoring: Vec<String> = Vec::new();
        let mut k: usize = 0;
        while k < self.ignored.len()
            invariant
                k <= self.ignored@.len(),
                path_views(ignoring@) == path_views(self.ignored@.subrange(0, k as int)),
            decreases self.ignored@.len() - k,
        {
            let ghost before = ignoring@;
            ignoring.push(self.ignored[k].clone());
            proof {
                let x = self.ignored@[k as int];
                assert(ignoring@ == before.push(x));
                assert(self.ignored@.subrange(0, k + 1) =~= self.ignored@.subrange(0, k as int).push(x));
                lemma_path_views_push(before, x);
                lemma_path_views_push(self.ignored@.subrange(0, k as int), x);
            }
            k = k + 1;
        }
        let mut k: usize = 0;
        assert(self.ignored@.subrange(0, self.ignored@.len() as int) =~= self.ignored@);
        let ghost stored = ignoring@;
        while k < config_ignored.len()
            invariant
                k <= config_ignored@.len(),
                path_views(ignoring@) == path_views(stored) + path_views(config_ignored@.subrange(0, k as int)),
            decreases config_ignored@.len() - k,
        {
            let ghost before = ignoring@;
            ignoring.push(config_ignored[k].clone());
            proof {
                let x = config_ignored@[k as int];
                assert(config_ignored@.subrange(0, k + 1) =~= config_ignored@.subrange(0, k as int).push(x));
                lemma_path_views_push(before, x);
                lemma_path_views_push(config_ignored@.subrange(0, k as int), x);
                assert(path_views(ignoring@) =~= path_views(stored) + path_views(config_ignored@.subrange(0, k + 1)));
            }
            k = k + 1;
        }
        assert(config_ignored@.subrange(0, config_ignored@.len() as int) =~= config_ignored@);
        assert(path_views(ignoring@) == ign);
        let mut candidates: Vec<Repository> = Vec::new();
        let mut t: usize = 0;
        while t < trees.len()
            invariant
                t <= trees@.len(),
                trees@.len() == watched_present@.len(),
                path_views(ignoring@) == ign,
                repo_views(candidates@) == fresh_views(scan_found(trees@, watched_present@, ign, t as int)),
            decreases trees@.len() - t,
        {
            if watched_present[t] && trees[t].nodes.len() > 0 {
                let mut found = discover(&ignoring, &trees[t], 0, 0);
                let ghost before = candidates@;
                let ghost got = found@;
                candidates.append(&mut found);
                proof {
                    assert(repo_views(got) =~= fresh_views(repo_paths(got)));
                    assert(repo_views(candidates@) =~= repo_views(before) + repo_views(got));
                    assert(fresh_views(scan_found(trees@, watched_present@, ign, t + 1)) =~= fresh_views(
                        scan_found(trees@, watched_present@, ign, t as int),
                    ) + fresh_views(repo_paths(got)));
                }
            } else {
                assert(scan_found(trees@, watched_present@, ign, t + 1) == scan_found(trees@, watched_present@, ign, t as int));
            }
            t = t + 1;
        }
        let mut k: usize = 0;
        let ghost discovered = candidates@;
        while k < explicit.len()
            invariant
                k <= explicit@.len(),
                repo_views(candidates@) == repo_views(discovered) + fresh_views(path_views(explicit@.subrange(0, k as int))),
            decreases explicit@.len() - k,
        {
            let ghost before = candidates@;
            candidates.push(Repository::new(explicit[k].clone()));
            proof {
                let x = explicit@[k as int];
                assert(explicit@.subrange(0, k + 1) =~= explicit@.subrange(0, k as int).push(x));
                lemma_path_views_push(explicit@.subrange(0, k as int), x);
                assert(repo_views(candidates@) =~= repo_views(before).push(candidates@.last()@));
                assert(fresh_views(path_views(explicit@.subrange(0, k + 1))) =~= fresh_views(path_views(explicit@.subrange(0, k as int))).push(RepoView { path: x@, check_time: None, hook: None }));
                assert(repo_views(candidates@) =~= repo_views(discovered) + fresh_views(path_views(explicit@.subrange(0, k + 1))));
            }
            k = k + 1;
        }
        assert(explicit@.subrange(0, explicit@.len() as int) =~= explicit@);
        assert(fresh_views(scan_found(trees@, watched_present@, ign, trees@.len() as int) + path_views(explicit@))
            =~= repo_views(candidates@));
        self.add_discovered(&candidates);
    }

}

} // verus!
