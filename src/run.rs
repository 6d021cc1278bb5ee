//! The end of a run: the outcomes of all tasks are folded back into the inventory,
//! so that no measured duration is lost when some task failed.
use vstd::prelude::*;
use crate::repository_info::RepositoryInfo;
use crate::state::{all_known, lemma_timed_keeps, retimed, timed, Repository, State};

verus! {

/// A task whose external tool could not be launched.
#[derive(Debug)]
pub struct LaunchFailure {
    /// The repository the task worked on.
    pub path: String,
    /// The command that could not be launched.
    pub command: String,
}

/// Why a run as a whole failed.
#[derive(Debug)]
pub enum RunError {
    /// A task could not launch the external tool.
    Launch(LaunchFailure),
    /// A completed task names a repository that the inventory does not know.
    UnknownRepository,
}

/// The records of the tasks that completed, in order.
pub open spec fn completed(o: Seq<Result<RepositoryInfo, LaunchFailure>>) -> Seq<RepositoryInfo>
    decreases o.len(),
{
    if o.len() == 0 {
        Seq::empty()
    } else {
        match o.last() {
            Ok(info) => completed(o.drop_last()).push(info),
            Err(_) => completed(o.drop_last()),
        }
    }
}

/// The first task that failed, if any.
pub open spec fn first_failure(o: Seq<Result<RepositoryInfo, LaunchFailure>>) -> Option<LaunchFailure>
    decreases o.len(),
{
    if o.len() == 0 {
        None
    } else {
        match first_failure(o.drop_last()) {
            Some(f) => Some(f),
            None => match o.last() {
                Err(f) => Some(f),
                Ok(_) => None,
            },
        }
    }
}

proof fn lemma_timed_takes_last(infos: Seq<RepositoryInfo>, q: int, r: Repository)
    requires
        0 <= q < infos.len(),
        infos[q].path@ == r.path@,
        forall|a: int| q < a < infos.len() ==> (#[trigger] infos[a]).path@ != r.path@,
    ensures
        timed(infos, r).check_time == infos[q].check_time,
    decreases infos.len(),
{
    if q < infos.len() - 1 {
        let init = infos.drop_last();
        assert forall|a: int| q < a < init.len() implies (#[trigger] init[a]).path@ != r.path@ by {
            assert(init[a] == infos[a]);
        }
        lemma_timed_takes_last(init, q, r);
    }
}

proof fn lemma_completed_takes_last(o: Seq<Result<RepositoryInfo, LaunchFailure>>, j: int, r: Repository)
    requires
        0 <= j < o.len(),
        o[j] is Ok,
        o[j]->Ok_0.path@ == r.path@,
        forall|a: int| j < a < o.len() && (#[trigger] o[a]) is Ok ==> o[a]->Ok_0.path@ != r.path@,
    ensures
        timed(completed(o), r).check_time == o[j]->Ok_0.check_time,
    decreases o.len(),
{
    let init = o.drop_last();
    if j == o.len() - 1 {
        assert(completed(o).last() == o[j]->Ok_0);
    } else {
        assert forall|a: int| j < a < init.len() && (#[trigger] init[a]) is Ok implies init[a]->Ok_0.path@
            != r.path@ by {
            assert(init[a] == o[a]);
        }
        assert(init[j] == o[j]);
        lemma_completed_takes_last(init, j, r);
        let last = o.last();
        assert(last == o[o.len() - 1]);
        match last {
            Ok(info) => {
                assert(completed(o) == completed(init).push(info));
                assert(completed(o).drop_last() =~= completed(init));
            },
            Err(_) => {},
        }
    }
}

/// A failed launch loses no timing: once a run is folded back, each repository whose
/// task completed holds the duration that task measured (the last one, should the
/// repository have run twice), however many of the other tasks failed.
pub proof fn lemma_failure_keeps_timings(
    repos: Seq<Repository>,
    outcomes: Seq<Result<RepositoryInfo, LaunchFailure>>,
    j: int,
    m: int,
)
    requires
        0 <= j < outcomes.len(),
        outcomes[j] is Ok,
        0 <= m < repos.len(),
        repos[m].path@ == outcomes[j]->Ok_0.path@,
        forall|a: int|
            j < a < outcomes.len() && (#[trigger] outcomes[a]) is Ok ==> outcomes[a]->Ok_0.path@
                != repos[m].path@,
    ensures
        retimed(repos, completed(outcomes))[m].check_time == outcomes[j]->Ok_0.check_time,
        retimed(repos, completed(outcomes))[m].path == repos[m].path,
{
    lemma_completed_takes_last(outcomes, j, repos[m]);
    lemma_timed_keeps(completed(outcomes), repos[m]);
}

/// No two records share a path.
pub open spec fn distinct_paths(infos: Seq<RepositoryInfo>) -> bool {
    forall|a: int, b: int|
        0 <= a < infos.len() && 0 <= b < infos.len() && a != b ==> (#[trigger] infos[a]).path@ != (
        #[trigger] infos[b]).path@
}

proof fn lemma_timed_match(infos: Seq<RepositoryInfo>, r: Repository, q: int)
    requires
        distinct_paths(infos),
        0 <= q < infos.len(),
        infos[q].path@ == r.path@,
    ensures
        timed(infos, r) == (Repository { check_time: infos[q].check_time, ..r }),
{
    assert forall|a: int| q < a < infos.len() implies (#[trigger] infos[a]).path@ != r.path@ by {
        assert(infos[a].path@ != infos[q].path@);
    }
    lemma_timed_takes_last(infos, q, r);
    lemma_timed_keeps(infos, r);
}

proof fn lemma_timed_none(infos: Seq<RepositoryInfo>, r: Repository)
    requires
        forall|q: int| 0 <= q < infos.len() ==> (#[trigger] infos[q]).path@ != r.path@,
    ensures
        timed(infos, r) == r,
    decreases infos.len(),
{
    if infos.len() > 0 {
        let init = infos.drop_last();
        assert(infos.last() == infos[infos.len() - 1]);
        assert forall|q: int| 0 <= q < init.len() implies (#[trigger] init[q]).path@ != r.path@ by {
            assert(init[q] == infos[q]);
        }
        lemma_timed_none(init, r);
    }
}

proof fn lemma_completed_contains(o: Seq<Result<RepositoryInfo, LaunchFailure>>, info: RepositoryInfo)
    ensures
        completed(o).contains(info) == o.contains(Ok(info)),
    decreases o.len(),
{
    if o.len() > 0 {
        let init = o.drop_last();
        lemma_completed_contains(init, info);
        let c = completed(init);
        assert(o.last() == o[o.len() - 1]);
        if o.contains(Ok(info)) {
            let i = choose|i: int| 0 <= i < o.len() && o[i] == Ok::<RepositoryInfo, LaunchFailure>(info);
            if i < init.len() {
                assert(init[i] == o[i]);
                let j = choose|j: int| 0 <= j < c.len() && c[j] == info;
                assert(completed(o)[j] == info);
            } else {
                assert(completed(o)[c.len() as int] == info);
            }
        }
        if completed(o).contains(info) {
            let j = choose|j: int| 0 <= j < completed(o).len() && completed(o)[j] == info;
            if j < c.len() {
                assert(completed(o)[j] == c[j]);
                let i = choose|i: int| 0 <= i < init.len() && init[i] == Ok::<RepositoryInfo, LaunchFailure>(info);
                assert(o[i] == init[i]);
            } else {
                assert(o[o.len() - 1] == Ok::<RepositoryInfo, LaunchFailure>(info));
            }
        }
    }
}

proof fn lemma_fold_same_record(
    o1: Seq<Result<RepositoryInfo, LaunchFailure>>,
    o2: Seq<Result<RepositoryInfo, LaunchFailure>>,
    r: Repository,
    q: int,
)
    requires
        o1.to_multiset() == o2.to_multiset(),
        distinct_paths(completed(o1)),
        distinct_paths(completed(o2)),
        0 <= q < completed(o1).len(),
        completed(o1)[q].path@ == r.path@,
    ensures
        timed(completed(o1), r) == timed(completed(o2), r),
{
    broadcast use vstd::seq_lib::to_multiset_contains;

    let info = completed(o1)[q];
    lemma_completed_contains(o1, info);
    assert(o1.to_multiset().count(Ok(info)) > 0);
    assert(o2.to_multiset().count(Ok(info)) > 0);
    lemma_completed_contains(o2, info);
    let q2 = choose|q2: int| 0 <= q2 < completed(o2).len() && completed(o2)[q2] == info;
    lemma_timed_match(completed(o1), r, q);
    lemma_timed_match(completed(o2), r, q2);
}

/// The order in which tasks complete does not matter: when each task ran on its own
/// repository, folding back the outcomes in any order gives the same inventory, so
/// a run on a worker pool leaves it as a sequential run does.
pub proof fn lemma_fold_order_free(
    repos: Seq<Repository>,
    o1: Seq<Result<RepositoryInfo, LaunchFailure>>,
    o2: Seq<Result<RepositoryInfo, LaunchFailure>>,
)
    requires
        o1.to_multiset() == o2.to_multiset(),
        distinct_paths(completed(o1)),
        distinct_paths(completed(o2)),
    ensures
        retimed(repos, completed(o1)) == retimed(repos, completed(o2)),
{
    let c1 = completed(o1);
    let c2 = completed(o2);
    assert forall|k: int| 0 <= k < repos.len() implies timed(c1, #[trigger] repos[k]) == timed(
        c2,
        repos[k],
    ) by {
        let r = repos[k];
        if exists|q: int| 0 <= q < c1.len() && (#[trigger] c1[q]).path@ == r.path@ {
            let q = choose|q: int| 0 <= q < c1.len() && (#[trigger] c1[q]).path@ == r.path@;
            lemma_fold_same_record(o1, o2, r, q);
        } else if exists|q: int| 0 <= q < c2.len() && (#[trigger] c2[q]).path@ == r.path@ {
            let q = choose|q: int| 0 <= q < c2.len() && (#[trigger] c2[q]).path@ == r.path@;
            lemma_fold_same_record(o2, o1, r, q);
        } else {
            lemma_timed_none(c1, r);
            lemma_timed_none(c2, r);
        }
    }
    assert(retimed(repos, c1) =~= retimed(repos, c2));
}

impl State {
    /// Ends a run: the durations of every task that completed are folded back into
    /// the inventory first, whatever else happened; then the run fails with the first
    /// task that could not launch the external tool, if any, and otherwise returns
    /// the records of the completed tasks in order.
    pub fn finish_run(&mut self, outcomes: Vec<Result<RepositoryInfo, LaunchFailure>>) -> (r: Result<
        Vec<RepositoryInfo>,
        RunError,
    >)
        ensures
            final(self).repositories@ == retimed(old(self).repositories@, completed(outcomes@)),
            old(self).wf() ==> final(self).wf(),
            final(self).watched == old(self).watched,
            final(self).ignored == old(self).ignored,
            final(self).keys == old(self).keys,
            match first_failure(outcomes@) {
                Some(f) => r matches Err(RunError::Launch(g)) && g == f,
                None => if all_known(old(self).repositories@, completed(outcomes@)) {
                    r is Ok && r.unwrap()@ == completed(outcomes@)
                } else {
                    r matches Err(RunError::UnknownRepository)
                },
            },
    {
        let ghost orig = outcomes@;
        let mut outcomes = outcomes;
        assert(orig.len() == outcomes.len());
        let mut done: Vec<RepositoryInfo> = Vec::new();
        let mut failure: Option<LaunchFailure> = None;
        let mut i: usize = 0;
        assert(orig.subrange(0, 0) =~= Seq::<Result<RepositoryInfo, LaunchFailure>>::empty());
        assert(orig.subrange(0, orig.len() as int) =~= orig);
        while outcomes.len() > 0
            invariant
                i <= orig.len(),
                orig.len() <= usize::MAX,
                outcomes@ == orig.subrange(i as int, orig.len() as int),
                done@ == completed(orig.subrange(0, i as int)),
                failure == first_failure(orig.subrange(0, i as int)),
            decreases outcomes@.len(),
        {
            let o = outcomes.remove(0);
            proof {
                let post = orig.subrange(0, i + 1);
                assert(post.drop_last() =~= orig.subrange(0, i as int));
                assert(post.last() == o);
                assert(outcomes@ =~= orig.subrange(i + 1, orig.len() as int));
            }
            match o {
                Ok(info) => {
                    done.push(info);
                },
                Err(f) => {
                    if failure.is_none() {
                        failure = Some(f);
                    }
                },
            }
            i = i + 1;
        }
        assert(orig.subrange(0, i as int) =~= orig);
        let times = self.update_check_times(&done);
        match failure {
            Some(f) => Err(RunError::Launch(f)),
            None => match times {
                Ok(()) => Ok(done),
                Err(_) => Err(RunError::UnknownRepository),
            },
        }
    }

}

} // verus!
