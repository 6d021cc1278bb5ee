//! The order in which the inventory is written out: repositories sorted by path,
//! so that the persisted file does not depend on the order of discovery.
use vstd::prelude::*;
use crate::state::{Repository, State};
use crate::text::chars_of;

verus! {

/// `a` comes no later than `b` in the character-by-character order of paths.
pub open spec fn path_le(a: Seq<char>, b: Seq<char>) -> bool
    decreases a.len(),
{
    if a.len() == 0 {
        true
    } else if b.len() == 0 {
        false
    } else if a[0] != b[0] {
        a[0] < b[0]
    } else {
        path_le(a.drop_first(), b.drop_first())
    }
}

pub(crate) proof fn lemma_path_le_total(a: Seq<char>, b: Seq<char>)
    ensures
        path_le(a, b) || path_le(b, a),
    decreases a.len(),
{
    if a.len() > 0 && b.len() > 0 && a[0] == b[0] {
        lemma_path_le_total(a.drop_first(), b.drop_first());
    }
}

pub(crate) proof fn lemma_path_le_trans(a: Seq<char>, b: Seq<char>, c: Seq<char>)
    requires
        path_le(a, b),
        path_le(b, c),
    ensures
        path_le(a, c),
    decreases a.len(),
{
    if a.len() > 0 && b.len() > 0 && c.len() > 0 && a[0] == b[0] && b[0] == c[0] {
        lemma_path_le_trans(a.drop_first(), b.drop_first(), c.drop_first());
    }
}

pub(crate) proof fn lemma_path_le_antisym(a: Seq<char>, b: Seq<char>)
    requires
        path_le(a, b),
        path_le(b, a),
    ensures
        a == b,
    decreases a.len(),
{
    if a.len() > 0 && b.len() > 0 {
        lemma_path_le_antisym(a.drop_first(), b.drop_first());
        assert(a =~= seq![a[0]] + a.drop_first());
        assert(b =~= seq![b[0]] + b.drop_first());
    }
}

/// `s` with `x` put after every entry whose path is not past its own.
pub open spec fn insert_by_path(s: Seq<Repository>, x: Repository) -> Seq<Repository>
    decreases s.len(),
{
    if s.len() == 0 {
        seq![x]
    } else if path_le(s.last().path@, x.path@) {
        s.push(x)
    } else {
        insert_by_path(s.drop_last(), x).push(s.last())
    }
}

/// The repositories in the order they are written out: a stable sort by path.
pub open spec fn by_path(s: Seq<Repository>) -> Seq<Repository>
    decreases s.len(),
{
    if s.len() == 0 {
        Seq::empty()
    } else {
        insert_by_path(by_path(s.drop_last()), s.last())
    }
}

/// No entry's path comes before the path of an entry ahead of it.
pub open spec fn sorted_by_path(s: Seq<Repository>) -> bool {
    forall|a: int, b: int| 0 <= a < b < s.len() ==> path_le((#[trigger] s[a]).path@, (#[trigger] s[b]).path@)
}

proof fn lemma_insert_by_path(s: Seq<Repository>, x: Repository)
    requires
        sorted_by_path(s),
    ensures
        sorted_by_path(insert_by_path(s, x)),
        insert_by_path(s, x).to_multiset() == s.to_multiset().insert(x),
        insert_by_path(s, x).len() == s.len() + 1,
        forall|k: int|
            0 <= k < insert_by_path(s, x).len() ==> (#[trigger] insert_by_path(s, x)[k] == x || s.contains(
                insert_by_path(s, x)[k],
            )),
        s.len() > 0 && !path_le(s.last().path@, x.path@) ==> insert_by_path(s, x).last() == s.last(),
    decreases s.len(),
{
    broadcast use vstd::seq_lib::group_to_multiset_ensures;

    if s.len() == 0 {
        assert(seq![x] =~= Seq::<Repository>::empty().push(x));
    } else if path_le(s.last().path@, x.path@) {
        let r = s.push(x);
        assert forall|a: int, b: int| 0 <= a < b < r.len() implies path_le(
            (#[trigger] r[a]).path@,
            (#[trigger] r[b]).path@,
        ) by {
            if b == r.len() - 1 && a < s.len() - 1 {
                lemma_path_le_trans(s[a].path@, s[s.len() - 1].path@, x.path@);
            }
        }
        assert forall|k: int| 0 <= k < r.len() implies (#[trigger] r[k] == x || s.contains(r[k])) by {
            if k < s.len() {
                assert(s[k] == r[k]);
            }
        }
    } else {
        let init = s.drop_last();
        let y = s.last();
        assert forall|a: int, b: int| 0 <= a < b < init.len() implies path_le(
            (#[trigger] init[a]).path@,
            (#[trigger] init[b]).path@,
        ) by {
            assert(init[a] == s[a] && init[b] == s[b]);
        }
        lemma_insert_by_path(init, x);
        lemma_path_le_total(y.path@, x.path@);
        let m = insert_by_path(init, x);
        let r = m.push(y);
        assert(s =~= init.push(y));
        assert forall|a: int, b: int| 0 <= a < b < r.len() implies path_le(
            (#[trigger] r[a]).path@,
            (#[trigger] r[b]).path@,
        ) by {
            if b == r.len() - 1 {
                assert(r[a] == m[a]);
                if m[a] != x {
                    let i = choose|i: int| 0 <= i < init.len() && init[i] == m[a];
                    assert(s[i] == init[i]);
                    assert(path_le(s[i].path@, s[s.len() - 1].path@));
                }
            }
        }
        assert forall|k: int| 0 <= k < r.len() implies (#[trigger] r[k] == x || s.contains(r[k])) by {
            if k < m.len() {
                assert(r[k] == m[k]);
                if m[k] != x {
                    let i = choose|i: int| 0 <= i < init.len() && init[i] == m[k];
                    assert(s[i] == init[i]);
                }
            } else {
                assert(s[s.len() - 1] == y);
            }
        }
        assert(s.to_multiset() == init.to_multiset().insert(y));
        assert(r.to_multiset() =~= s.to_multiset().insert(x));
    }
}

/// Putting the inventory in its written order loses and adds no repository and
/// leaves the paths sorted, so reading back what was written gives the same
/// repositories.
pub proof fn lemma_save_order(s: Seq<Repository>)
    ensures
        by_path(s).len() == s.len(),
        by_path(s).to_multiset() == s.to_multiset(),
        sorted_by_path(by_path(s)),
    decreases s.len(),
{
    broadcast use vstd::seq_lib::group_to_multiset_ensures;

    if s.len() > 0 {
        lemma_save_order(s.drop_last());
        lemma_insert_by_path(by_path(s.drop_last()), s.last());
        assert(s =~= s.drop_last().push(s.last()));
    }
}

/// Whether the path `a` comes no later than `b`.
pub fn path_not_after(a: &str, b: &str) -> (r: bool)
    ensures
        r == path_le(a@, b@),
{
    let x = chars_of(a);
    let y = chars_of(b);
    let mut i: usize = 0;
    assert(x@.subrange(0, x@.len() as int) =~= x@);
    assert(y@.subrange(0, y@.len() as int) =~= y@);
    while i < x.len() && i < y.len() && x[i] == y[i]
        invariant
            i <= x@.len(),
            i <= y@.len(),
            path_le(x@, y@) == path_le(x@.subrange(i as int, x@.len() as int), y@.subrange(i as int, y@.len() as int)),
        decreases x@.len() - i,
    {
        proof {
            let xs = x@.subrange(i as int, x@.len() as int);
            let ys = y@.subrange(i as int, y@.len() as int);
            assert(xs.drop_first() =~= x@.subrange(i + 1, x@.len() as int));
            assert(ys.drop_first() =~= y@.subrange(i + 1, y@.len() as int));
        }
        i = i + 1;
    }
    proof {
        let xs = x@.subrange(i as int, x@.len() as int);
        let ys = y@.subrange(i as int, y@.len() as int);
        if i < x@.len() {
            assert(xs[0] == x@[i as int]);
        }
        if i < y@.len() {
            assert(ys[0] == y@[i as int]);
        }
    }
    assert(x@.subrange(0, x@.len() as int) =~= x@);
    assert(y@.subrange(0, y@.len() as int) =~= y@);
    if i == x.len() {
        true
    } else if i == y.len() {
        false
    } else {
        x[i] < y[i]
    }
}

/// Puts `x` into `out` after every entry whose path is not past its own.
pub(crate) fn insert_in_path_order(out: &mut Vec<Repository>, x: Repository)
    ensures
        final(out)@ == insert_by_path(old(out)@, x),
{
    let ghost s = out@;
    let mut pos: usize = out.len();
    assert(s.subrange(0, s.len() as int) =~= s);
    assert(insert_by_path(s, x) + s.subrange(s.len() as int, s.len() as int) =~= insert_by_path(s, x));
    while pos > 0 && !path_not_after(out[pos - 1].path.as_str(), x.path.as_str())
        invariant
            out@ == s,
            pos <= s.len(),
            insert_by_path(s, x) == insert_by_path(s.subrange(0, pos as int), x) + s.subrange(
                pos as int,
                s.len() as int,
            ),
        decreases pos,
    {
        let ghost p = pos as int;
        proof {
            let pre = s.subrange(0, p);
            assert(pre.drop_last() =~= s.subrange(0, p - 1));
            assert(pre.last() == s[p - 1]);
            assert(insert_by_path(s.subrange(0, p - 1), x).push(s[p - 1]) + s.subrange(p, s.len() as int)
                =~= insert_by_path(s.subrange(0, p - 1), x) + s.subrange(p - 1, s.len() as int));
        }
        pos = pos - 1;
    }
    proof {
        let pre = s.subrange(0, pos as int);
        if pos > 0 {
            assert(pre.last() == s[pos - 1]);
        }
        assert(insert_by_path(pre, x) =~= pre.push(x));
        assert(s.insert(pos as int, x) =~= pre.push(x) + s.subrange(pos as int, s.len() as int));
    }
    out.insert(pos, x);
}

impl State {
    /// Puts the repositories in the order in which the inventory is written out.
    pub fn sort_for_save(&mut self)
        ensures
            final(self).repositories@ == by_path(old(self).repositories@),
            final(self).watched == old(self).watched,
            final(self).ignored == old(self).ignored,
            final(self).keys == old(self).keys,
    {
        let mut out: Vec<Repository> = Vec::new();
        let mut i: usize = 0;
        assert(self.repositories@.subrange(0, 0) =~= Seq::<Repository>::empty());
        while i < self.repositories.len()
            invariant
                *self == *old(self),
                i <= self.repositories@.len(),
                out@ == by_path(self.repositories@.subrange(0, i as int)),
            decreases self.repositories@.len() - i,
        {
            let x = self.repositories[i].duplicate();
            insert_in_path_order(&mut out, x);
            proof {
                let pre = self.repositories@.subrange(0, i + 1);
                assert(pre.drop_last() =~= self.repositories@.subrange(0, i as int));
                assert(pre.last() == self.repositories@[i as int]);
            }
            i = i + 1;
        }
        assert(self.repositories@.subrange(0, i as int) =~= self.repositories@);
        self.repositories = out;
    }
}

} // verus!
