//! Longest-first ordering of the repositories for a run: those whose last run took
//! longest start first, and those never timed count as the longest of all.
use vstd::prelude::*;
use crate::state::Repository;

verus! {

/// The sort key of a recorded duration: a repository never timed ranks above all.
pub open spec fn wall_key(t: Option<usize>) -> int {
    match t {
        Some(d) => d as int,
        None => usize::MAX as int + 1,
    }
}

/// `s` with `x` put after every entry whose key is at least its own and before the rest.
pub open spec fn insert_by_time(s: Seq<Repository>, x: Repository) -> Seq<Repository>
    decreases s.len(),
{
    if s.len() == 0 {
        seq![x]
    } else if wall_key(s.last().check_time) >= wall_key(x.check_time) {
        s.push(x)
    } else {
        insert_by_time(s.drop_last(), x).push(s.last())
    }
}

/// The repositories in the order a run takes them: a stable sort, longest first.
pub open spec fn by_wall_time(s: Seq<Repository>) -> Seq<Repository>
    decreases s.len(),
{
    if s.len() == 0 {
        Seq::empty()
    } else {
        insert_by_time(by_wall_time(s.drop_last()), s.last())
    }
}

/// No entry has a larger key than one before it.
pub open spec fn longest_first(s: Seq<Repository>) -> bool {
    forall|a: int, b: int|
        0 <= a < b < s.len() ==> wall_key((#[trigger] s[a]).check_time) >= wall_key(
            (#[trigger] s[b]).check_time,
        )
}

proof fn lemma_insert_by_time(s: Seq<Repository>, x: Repository)
    requires
        longest_first(s),
    ensures
        longest_first(insert_by_time(s, x)),
        insert_by_time(s, x).to_multiset() == s.to_multiset().insert(x),
        insert_by_time(s, x).len() == s.len() + 1,
        forall|k: int|
            0 <= k < insert_by_time(s, x).len() ==> (#[trigger] insert_by_time(s, x)[k] == x || s.contains(
                insert_by_time(s, x)[k],
            )),
    decreases s.len(),
{
    broadcast use vstd::seq_lib::group_to_multiset_ensures;

    if s.len() == 0 {
        assert(seq![x] =~= Seq::<Repository>::empty().push(x));
    } else if wall_key(s.last().check_time) >= wall_key(x.check_time) {
        let r = s.push(x);
        assert forall|a: int, b: int| 0 <= a < b < r.len() implies wall_key(
            (#[trigger] r[a]).check_time,
        ) >= wall_key((#[trigger] r[b]).check_time) by {
            if b == r.len() - 1 && a < s.len() - 1 {
                assert(wall_key(s[a].check_time) >= wall_key(s[s.len() - 1].check_time));
            }
        }
        assert forall|k: int| 0 <= k < r.len() implies (#[trigger] r[k] == x || s.contains(r[k])) by {
            if k < s.len() {
                assert(s[k] == r[k]);
            }
        }
    } else {
        let init = s.drop_last();
        let y = s.last();
        assert forall|a: int, b: int| 0 <= a < b < init.len() implies wall_key(
            (#[trigger] init[a]).check_time,
        ) >= wall_key((#[trigger] init[b]).check_time) by {
            assert(init[a] == s[a] && init[b] == s[b]);
        }
        lemma_insert_by_time(init, x);
        let m = insert_by_time(init, x);
        let r = m.push(y);
        assert(s =~= init.push(y));
        assert forall|a: int, b: int| 0 <= a < b < r.len() implies wall_key(
            (#[trigger] r[a]).check_time,
        ) >= wall_key((#[trigger] r[b]).check_time) by {
            if b == r.len() - 1 {
                assert(r[a] == m[a]);
                if m[a] != x {
                    let i = choose|i: int| 0 <= i < init.len() && init[i] == m[a];
                    assert(s[i] == init[i]);
                    assert(wall_key(s[i].check_time) >= wall_key(s[s.len() - 1].check_time));
                }
            }
        }
        assert forall|k: int| 0 <= k < r.len() implies (#[trigger] r[k] == x || s.contains(r[k])) by {
            if k < m.len() {
                assert(r[k] == m[k]);
                if m[k] != x {
                    let i = choose|i: int| 0 <= i < init.len() && init[i] == m[k];
                    assert(s[i] == init[i]);
                }
            } else {
                assert(s[s.len() - 1] == y);
            }
        }
        assert(s.to_multiset() == init.to_multiset().insert(y));
        assert(m.to_multiset() == init.to_multiset().insert(x));
        assert(r.to_multiset() == m.to_multiset().insert(y));
        assert(r.to_multiset() =~= s.to_multiset().insert(x));
    }
}

/// The order of a run is a rearrangement of the known repositories in which a
/// repository whose last run took longer never comes after one whose last run took
/// less time, and a repository never timed comes before every timed one.
pub proof fn lemma_wall_time_order(s: Seq<Repository>)
    ensures
        by_wall_time(s).len() == s.len(),
        by_wall_time(s).to_multiset() == s.to_multiset(),
        longest_first(by_wall_time(s)),
        forall|a: int, b: int|
            0 <= a < by_wall_time(s).len() && 0 <= b < by_wall_time(s).len()
                && (#[trigger] by_wall_time(s)[a]).check_time is Some
                && (#[trigger] by_wall_time(s)[b]).check_time is Some
                && by_wall_time(s)[a].check_time.unwrap() > by_wall_time(s)[b].check_time.unwrap()
                ==> a < b,
        forall|a: int, b: int|
            0 <= a < by_wall_time(s).len() && 0 <= b < by_wall_time(s).len()
                && (#[trigger] by_wall_time(s)[a]).check_time is None
                && (#[trigger] by_wall_time(s)[b]).check_time is Some ==> a < b,
    decreases s.len(),
{
    broadcast use vstd::seq_lib::group_to_multiset_ensures;

    if s.len() > 0 {
        lemma_wall_time_order(s.drop_last());
        lemma_insert_by_time(by_wall_time(s.drop_last()), s.last());
        assert(s =~= s.drop_last().push(s.last()));
    }
    let r = by_wall_time(s);
    assert forall|a: int, b: int|
        0 <= a < r.len() && 0 <= b < r.len() && (#[trigger] r[a]).check_time is None
            && (#[trigger] r[b]).check_time is Some implies a < b by {
        if b < a {
            assert(wall_key(r[b].check_time) >= wall_key(r[a].check_time));
        }
    }
}

/// Puts `x` into the longest-first list `out`, after every entry that ranks at least
/// as high.
fn insert_longest_first(out: &mut Vec<Repository>, x: Repository)
    ensures
        final(out)@ == insert_by_time(old(out)@, x),
{
    let ghost s = out@;
    let mut pos: usize = out.len();
    assert(s.subrange(0, s.len() as int) =~= s);
    assert(insert_by_time(s, x) + s.subrange(s.len() as int, s.len() as int) =~= insert_by_time(s, x));
    while pos > 0 && runs_shorter(&out[pos - 1].check_time, &x.check_time)
        invariant
            out@ == s,
            pos <= s.len(),
            insert_by_time(s, x) == insert_by_time(s.subrange(0, pos as int), x) + s.subrange(
                pos as int,
                s.len() as int,
            ),
        decreases pos,
    {
        let ghost p = pos as int;
        proof {
            let pre = s.subrange(0, p);
            assert(pre.drop_last() =~= s.subrange(0, p - 1));
            assert(pre.last() == s[p - 1]);
            assert(s.subrange(p - 1, s.len() as int) =~= seq![s[p - 1]] + s.subrange(p, s.len() as int));
            assert(insert_by_time(s.subrange(0, p - 1), x).push(s[p - 1]) + s.subrange(p, s.len() as int)
                =~= insert_by_time(s.subrange(0, p - 1), x) + s.subrange(p - 1, s.len() as int));
        }
        pos = pos - 1;
    }
    proof {
        let pre = s.subrange(0, pos as int);
        if pos > 0 {
            assert(pre.last() == s[pos - 1]);
        }
        assert(insert_by_time(pre, x) =~= pre.push(x));
        assert(s.insert(pos as int, x) =~= pre.push(x) + s.subrange(pos as int, s.len() as int));
    }
    out.insert(pos, x);
}

/// Whether a run that took `a` ranks strictly below one that took `b`.
fn runs_shorter(a: &Option<usize>, b: &Option<usize>) -> (r: bool)
    ensures
        r == (wall_key(*a) < wall_key(*b)),
{
    match (a, b) {
        (Some(x), Some(y)) => *x < *y,
        (Some(_), None) => true,
        (None, _) => false,
    }
}

/// The repositories in longest-first order.
pub fn sorted_by_wall_time(repos: &Vec<Repository>) -> (r: Vec<Repository>)
    ensures
        r@ == by_wall_time(repos@),
{
    let mut out: Vec<Repository> = Vec::new();
    let mut i: usize = 0;
    assert(repos@.subrange(0, 0) =~= Seq::<Repository>::empty());
    while i < repos.len()
        invariant
            i <= repos@.len(),
            out@ == by_wall_time(repos@.subrange(0, i as int)),
        decreases repos@.len() - i,
    {
        let x = repos[i].duplicate();
        insert_longest_first(&mut out, x);
        proof {
            let pre = repos@.subrange(0, i + 1);
            assert(pre.drop_last() =~= repos@.subrange(0, i as int));
            assert(pre.last() == repos@[i as int]);
        }
        i = i + 1;
    }
    assert(repos@.subrange(0, i as int) =~= repos@);
    out
}

} // verus!
