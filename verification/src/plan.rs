//! Parallel search: what is left to do, who does it, and what comes of it.

use rayon::iter::{IntoParallelIterator, ParallelIterator};
use vstd::prelude::*;
use vstd::rwlock::{RwLock, RwLockPredicate};

use crate::checkpoint::{copy_stack, Checkpoint, ParallelInProgress, SearchError, SearchMode};
use crate::gather::{
    concat, finds_all, jobs_ahead, law_split_covers_every_leaf, lemma_absorb_sound,
    lemma_extends_itself, lemma_goal, lemma_result, lemma_same_leaves, listed, SearchPred,
};
use crate::parallel::{ActiveJob, ParallelJob, ParallelSearchCtx, ParallelShared};
use crate::progress::{
    increasing, latest, lemma_latest_none, lemma_latest_some, work_indices, ParallelProgress,
};
use crate::results::{copy_path, copy_paths, paths, SharedResults};
use crate::search::State;
use crate::split::{cut_at, item_paths, items_fit, law_nodes_at_a_level, WorkItem};
use crate::tree::{law_search_covers_every_leaf, Tally, Tree};
use crate::walk::{nodes_ahead, position_ok};

verus! {

/// `ParallelIterator::map` and `collect` of rayon: calls `f` once for each item, on the threads of
/// the pool, and returns the results in the order of the items.
#[verifier::external_body]
fn map_in_parallel<T: Send, U: Send, F: Fn(T) -> U + Sync + Send>(items: Vec<T>, f: F) -> (results:
    Vec<U>)
    requires
        forall|i: int| 0 <= i < items@.len() ==> f.requires((#[trigger] items@[i],)),
    ensures
        results@.len() == items@.len(),
        forall|i: int| 0 <= i < items@.len() ==> f.ensures((items@[i],), #[trigger] results@[i]),
{
    items.into_par_iter().map(f).collect()
}

/// A job is both completed and in progress.
pub open spec fn overlapping(
    jobs: nat,
    completed: Seq<usize>,
    in_progress: Seq<ParallelInProgress>,
) -> bool {
    exists|w: usize|
        {
            &&& #[trigger] latest(in_progress, w) is Some
            &&& w < jobs
            &&& completed.contains(w)
        }
}

/// A job in progress does not exist.
pub open spec fn out_of_range(jobs: nat, in_progress: Seq<ParallelInProgress>) -> bool {
    exists|w: usize| #[trigger] latest(in_progress, w) is Some && w >= jobs
}

/// The jobs below `n` that are neither completed nor in progress, in increasing order.
pub open spec fn fresh_jobs(
    n: nat,
    completed: Seq<usize>,
    in_progress: Seq<ParallelInProgress>,
) -> Seq<usize>
    decreases n,
{
    if n == 0 {
        seq![]
    } else {
        let before = fresh_jobs((n - 1) as nat, completed, in_progress);
        let last = (n - 1) as usize;
        if completed.contains(last) || latest(in_progress, last) is Some {
            before
        } else {
            before.push(last)
        }
    }
}

/// The job is the one with its number, at the position that was noted for it.
pub open spec fn job_matches(
    job: ParallelJob,
    items: Seq<WorkItem>,
    in_progress: Seq<ParallelInProgress>,
) -> bool {
    &&& job.index < items.len()
    &&& job.work_item.key@ == items[job.index as int].key@
    &&& job.work_item.base_mask@ == items[job.index as int].base_mask@
    &&& job.work_item.base_mask.wf() == items[job.index as int].base_mask.wf()
    &&& job.position() == latest(in_progress, job.index)
}

/// The numbers of the jobs of a list.
pub open spec fn job_indices(jobs: Seq<ParallelJob>) -> Seq<usize> {
    Seq::new(jobs.len(), |i: int| jobs[i].index)
}

proof fn lemma_fresh_jobs(
    n: nat,
    completed: Seq<usize>,
    in_progress: Seq<ParallelInProgress>,
    w: usize,
)
    requires
        n <= usize::MAX,
    ensures
        fresh_jobs(n, completed, in_progress).contains(w) <==> w < n && !completed.contains(w)
            && latest(in_progress, w) is None,
    decreases n,
{
    if n > 0 {
        let before = fresh_jobs((n - 1) as nat, completed, in_progress);
        let all = fresh_jobs(n, completed, in_progress);
        let last = (n - 1) as usize;
        lemma_fresh_jobs((n - 1) as nat, completed, in_progress, w);
        if all.len() > before.len() {
            assert(all[before.len() as int] == last);
            if before.contains(w) {
                let i = choose|i: int| 0 <= i < before.len() && before[i] == w;
                assert(all[i] == w);
            }
            if all.contains(w) && w != last {
                let i = choose|i: int| 0 <= i < all.len() && all[i] == w;
                assert(before[i] == w);
            }
        }
    }
}

proof fn lemma_fresh_increase(n: nat, completed: Seq<usize>, in_progress: Seq<ParallelInProgress>)
    requires
        n <= usize::MAX,
    ensures
        increasing(fresh_jobs(n, completed, in_progress)),
    decreases n,
{
    if n > 0 {
        let before = fresh_jobs((n - 1) as nat, completed, in_progress);
        let all = fresh_jobs(n, completed, in_progress);
        lemma_fresh_increase((n - 1) as nat, completed, in_progress);
        assert forall|i: int, j: int| 0 <= i < j < all.len() implies #[trigger] all[i]
            < #[trigger] all[j] by {
            if j < before.len() {
                assert(before[i] < before[j]);
            } else {
                lemma_fresh_jobs((n - 1) as nat, completed, in_progress, before[i]);
                assert(before.contains(before[i]));
            }
        }
    }
}

/// The jobs in progress and the fresh ones are all that are not completed, each once.
proof fn lemma_job_list(
    n: nat,
    completed: Seq<usize>,
    in_progress: Seq<ParallelInProgress>,
    indices: Seq<usize>,
)
    requires
        n <= usize::MAX,
        increasing(work_indices(in_progress)),
        !overlapping(n, completed, in_progress),
        !out_of_range(n, in_progress),
        indices == work_indices(in_progress) + fresh_jobs(n, completed, in_progress),
    ensures
        indices.no_duplicates(),
        forall|w: usize| #[trigger]
            indices.contains(w) <==> w < n && !completed.contains(w),
{
    let started = work_indices(in_progress);
    let fresh = fresh_jobs(n, completed, in_progress);
    lemma_fresh_increase(n, completed, in_progress);
    assert forall|i: int, j: int| 0 <= i < indices.len() && 0 <= j < indices.len() && i
        != j implies indices[i] != indices[j] by {
        let a = if i < j {
            i
        } else {
            j
        };
        let b = if i < j {
            j
        } else {
            i
        };
        if b < started.len() {
            assert(started[a] < started[b]);
        } else if a >= started.len() {
            assert(fresh[a - started.len()] < fresh[b - started.len()]);
        } else {
            let w = started[a];
            lemma_latest_none(in_progress, w);
            assert(started.contains(w));
            lemma_fresh_jobs(n, completed, in_progress, w);
            assert(fresh.contains(fresh[b - started.len()]));
        }
    }
    assert forall|w: usize| #[trigger] indices.contains(w) <==> w < n && !completed.contains(w) by {
        lemma_latest_none(in_progress, w);
        lemma_fresh_jobs(n, completed, in_progress, w);
        if started.contains(w) {
            let k = choose|k: int| 0 <= k < started.len() && started[k] == w;
            assert(indices[k] == w);
        }
        if fresh.contains(w) {
            let k = choose|k: int| 0 <= k < fresh.len() && fresh[k] == w;
            assert(indices[started.len() + k] == w);
        }
        if indices.contains(w) {
            let k = choose|k: int| 0 <= k < indices.len() && indices[k] == w;
            if k < started.len() {
                assert(started[k] == w);
            } else {
                assert(fresh[k - started.len()] == w);
            }
        }
    }
}

/// When jobs in progress are refused, entry by entry.
pub proof fn lemma_refusals(jobs: nat, completed: Seq<usize>, in_progress: Seq<ParallelInProgress>)
    ensures
        overlapping(jobs, completed, in_progress) <==> exists|i: int|
            {
                &&& 0 <= i < in_progress.len()
                &&& (#[trigger] in_progress[i]).work_index < jobs
                &&& completed.contains(in_progress[i].work_index)
            },
        out_of_range(jobs, in_progress) <==> exists|i: int|
            0 <= i < in_progress.len() && (#[trigger] in_progress[i]).work_index >= jobs,
{
    let all = work_indices(in_progress);
    if overlapping(jobs, completed, in_progress) {
        let w = choose|w: usize|
            {
                &&& #[trigger] latest(in_progress, w) is Some
                &&& w < jobs
                &&& completed.contains(w)
            };
        lemma_latest_none(in_progress, w);
        let i = choose|i: int| 0 <= i < all.len() && all[i] == w;
        assert(in_progress[i].work_index == w);
    }
    if out_of_range(jobs, in_progress) {
        let w = choose|w: usize| #[trigger] latest(in_progress, w) is Some && w >= jobs;
        lemma_latest_none(in_progress, w);
        let i = choose|i: int| 0 <= i < all.len() && all[i] == w;
        assert(in_progress[i].work_index == w);
    }
    assert forall|i: int| 0 <= i < in_progress.len() implies latest(
        in_progress,
        (#[trigger] in_progress[i]).work_index,
    ) is Some by {
        lemma_latest_none(in_progress, in_progress[i].work_index);
        assert(all[i] == in_progress[i].work_index);
    }
}

/// The listed jobs, one by one.
proof fn lemma_listed_jobs(
    n: nat,
    completed: Seq<usize>,
    in_progress: Seq<ParallelInProgress>,
    items: Seq<WorkItem>,
    jobs: Seq<ParallelJob>,
)
    requires
        n <= usize::MAX,
        increasing(work_indices(in_progress)),
        job_indices(jobs) == work_indices(in_progress) + fresh_jobs(n, completed, in_progress),
        job_indices(jobs).no_duplicates(),
        forall|w: usize| #[trigger]
            job_indices(jobs).contains(w) <==> w < n && !completed.contains(w),
        forall|i: int| 0 <= i < jobs.len() ==> job_matches(#[trigger] jobs[i], items, in_progress),
    ensures
        forall|i: int, j: int|
            0 <= i < j < jobs.len() ==> (#[trigger] jobs[i]).index != (#[trigger] jobs[j]).index,
        forall|w: usize|
            w < n && !(#[trigger] completed.contains(w)) ==> exists|i: int|
                0 <= i < jobs.len() && (#[trigger] jobs[i]).index == w,
        forall|i: int|
            0 <= i < jobs.len() ==> (#[trigger] jobs[i]).index < n && !completed.contains(
                jobs[i].index,
            ),
        in_progress.len() <= jobs.len(),
        forall|i: int|
            0 <= i < in_progress.len() ==> (#[trigger] jobs[i]).index == in_progress[i].work_index
                && jobs[i].resume is Some && jobs[i].resume.unwrap().0@ == in_progress[i].stack@
                && jobs[i].resume.unwrap().1@ == in_progress[i].key@,
        forall|i: int| in_progress.len() <= i < jobs.len() ==> (#[trigger] jobs[i]).resume is None,
        forall|i: int|
            0 <= i < jobs.len() ==> (#[trigger] jobs[i]).work_item.key@
                == items[jobs[i].index as int].key@,
{
    let indices = job_indices(jobs);
    let started = work_indices(in_progress);
    let fresh = fresh_jobs(n, completed, in_progress);
    assert(indices.len() == started.len() + fresh.len());
    assert forall|i: int, j: int| 0 <= i < j < jobs.len() implies (#[trigger] jobs[i]).index != (
    #[trigger] jobs[j]).index by {
        assert(indices[i] != indices[j]);
    }
    assert forall|w: usize| w < n && !(#[trigger] completed.contains(w)) implies exists|i: int|
        0 <= i < jobs.len() && (#[trigger] jobs[i]).index == w by {
        assert(indices.contains(w));
        let i = choose|i: int| 0 <= i < indices.len() && indices[i] == w;
        assert(jobs[i].index == w);
    }
    assert forall|i: int| 0 <= i < jobs.len() implies (#[trigger] jobs[i]).index < n
        && !completed.contains(jobs[i].index) by {
        assert(indices[i] == jobs[i].index);
        assert(indices.contains(jobs[i].index));
    }
    assert forall|i: int| 0 <= i < in_progress.len() implies (#[trigger] jobs[i]).index
        == in_progress[i].work_index && jobs[i].resume is Some && jobs[i].resume.unwrap().0@
        == in_progress[i].stack@ && jobs[i].resume.unwrap().1@ == in_progress[i].key@ by {
        assert(indices[i] == started[i]);
        lemma_latest_some(in_progress, i);
    }
    assert forall|i: int| in_progress.len() <= i < jobs.len() implies (
    #[trigger] jobs[i]).resume is None by {
        let w = jobs[i].index;
        assert(indices[i] == fresh[i - started.len()]);
        assert(fresh.contains(w));
        lemma_fresh_jobs(n, completed, in_progress, w);
    }
}

/// A job that has a leaf to look at is listed.
proof fn lemma_nothing_left_out(
    todo: Seq<Seq<Seq<usize>>>,
    progress: ParallelProgress,
    indices: Seq<usize>,
    tree: Tree,
    split: nat,
)
    requires
        todo == jobs_ahead(tree, split, progress.completed@, progress.in_progress@),
        todo.len() <= usize::MAX,
        !overlapping(todo.len(), progress.completed@, progress.in_progress@),
        forall|w: usize| #[trigger]
            indices.contains(w) <==> w < todo.len() && !progress.completed@.contains(w),
    ensures
        forall|w: int|
            0 <= w < todo.len() && (#[trigger] todo[w]).len() > 0 ==> indices.contains(w as usize),
{
    assert forall|w: int| 0 <= w < todo.len() && (#[trigger] todo[w]).len() > 0 implies
        indices.contains(w as usize) by {
        if progress.completed@.contains(w as usize) {
            assert(latest(progress.in_progress@, w as usize) is None);
        }
    }
}

/// What the threads share at the start keeps their invariant.
proof fn lemma_starts_well(pred: SearchPred, shared: ParallelShared)
    requires
        shared.wf(),
        shared.results@ == pred.start,
        pred.todo == jobs_ahead(
            pred.tree,
            pred.split,
            shared.progress.completed@,
            shared.progress.in_progress@,
        ),
        !overlapping(
            pred.todo.len(),
            shared.progress.completed@,
            shared.progress.in_progress@,
        ),
        !out_of_range(pred.todo.len(), shared.progress.in_progress@),
        forall|w: usize| #[trigger]
            latest(shared.progress.in_progress@, w) matches Some((stack, key)) ==> position_ok(
                pred.tree,
                stack,
                key,
            ),
    ensures
        pred.inv(shared),
{
    let list = shared.progress.in_progress@;
    lemma_goal(pred, Seq::empty());
    lemma_extends_itself(pred.start.shifts);
    lemma_extends_itself(pred.start.target_shifts);
    assert forall|i: int| 0 <= i < list.len() implies {
        let item = #[trigger] list[i];
        &&& item.work_index < pred.todo.len()
        &&& !shared.progress.completed@.contains(item.work_index)
        &&& position_ok(pred.tree, item.stack@, item.key@)
    } by {
        lemma_latest_some(list, i);
        assert(latest(list, list[i].work_index) is Some);
    }
}

impl State {
    /// The jobs that are left: those in progress, from where they stand, and those that have not
    /// been started.
    pub fn parallel_jobs(&self, work_items: &Vec<WorkItem>, progress: &ParallelProgress) -> (jobs:
        Result<Vec<ParallelJob>, SearchError>)
        requires
            progress.wf(),
        ensures
            match jobs {
                Ok(jobs) => {
                    &&& !overlapping(
                        work_items@.len(),
                        progress.completed@,
                        progress.in_progress@,
                    )
                    &&& !out_of_range(work_items@.len(), progress.in_progress@)
                    &&& job_indices(jobs@) == work_indices(progress.in_progress@) + fresh_jobs(
                        work_items@.len(),
                        progress.completed@,
                        progress.in_progress@,
                    )
                    &&& forall|i: int|
                        0 <= i < jobs@.len() ==> job_matches(
                            #[trigger] jobs@[i],
                            work_items@,
                            progress.in_progress@,
                        )
                },
                Err(error) => if overlapping(
                    work_items@.len(),
                    progress.completed@,
                    progress.in_progress@,
                ) {
                    error == SearchError::WorkIndexOverlap
                } else {
                    &&& out_of_range(work_items@.len(), progress.in_progress@)
                    &&& error == SearchError::WorkIndexOutOfRange
                },
            },
            jobs is Ok <==> forall|i: int|
                0 <= i < progress.in_progress@.len() ==> {
                    &&& (#[trigger] progress.in_progress@[i]).work_index < work_items@.len()
                    &&& !progress.completed@.contains(progress.in_progress@[i].work_index)
                },
            jobs matches Err(error) ==> error == (if exists|i: int|
                {
                    &&& 0 <= i < progress.in_progress@.len()
                    &&& (#[trigger] progress.in_progress@[i]).work_index < work_items@.len()
                    &&& progress.completed@.contains(progress.in_progress@[i].work_index)
                } {
                SearchError::WorkIndexOverlap
            } else {
                SearchError::WorkIndexOutOfRange
            }),
            jobs matches Ok(jobs) ==> {
                &&& forall|i: int, j: int|
                    0 <= i < j < jobs@.len() ==> (#[trigger] jobs@[i]).index != (
                    #[trigger] jobs@[j]).index
                &&& forall|w: usize|
                    w < work_items@.len() && !(#[trigger] progress.completed@.contains(w))
                        ==> exists|i: int|
                        0 <= i < jobs@.len() && (#[trigger] jobs@[i]).index == w
                &&& forall|i: int|
                    0 <= i < jobs@.len() ==> (#[trigger] jobs@[i]).index < work_items@.len()
                        && !progress.completed@.contains(jobs@[i].index)
                &&& progress.in_progress@.len() <= jobs@.len()
                &&& forall|i: int|
                    0 <= i < progress.in_progress@.len() ==> (#[trigger] jobs@[i]).index
                        == progress.in_progress@[i].work_index && jobs@[i].resume is Some
                        && jobs@[i].resume.unwrap().0@ == progress.in_progress@[i].stack@
                        && jobs@[i].resume.unwrap().1@ == progress.in_progress@[i].key@
                &&& forall|i: int|
                    progress.in_progress@.len() <= i < jobs@.len() ==> (
                    #[trigger] jobs@[i]).resume is None
                &&& forall|i: int|
                    0 <= i < jobs@.len() ==> (#[trigger] jobs@[i]).work_item.key@
                        == work_items@[jobs@[i].index as int].key@
            },
    {
        proof {
            lemma_refusals(work_items@.len(), progress.completed@, progress.in_progress@);
        }
        let ghost n = work_items@.len();
        let ghost completed = progress.completed@;
        let ghost in_progress = progress.in_progress@;
        let ghost all = work_indices(in_progress);
        let mut jobs: Vec<ParallelJob> = Vec::new();
        let mut i: usize = 0;
        while i < progress.in_progress.len()
            invariant
                n == work_items@.len(),
                completed == progress.completed@,
                in_progress == progress.in_progress@,
                all == work_indices(in_progress),
                progress.wf(),
                0 <= i <= in_progress.len(),
                jobs@.len() == i,
                job_indices(jobs@) == all.take(i as int),
                forall|k: int|
                    0 <= k < i ==> (#[trigger] all[k]) < n && !completed.contains(all[k]),
                forall|k: int|
                    0 <= k < jobs@.len() ==> job_matches(
                        #[trigger] jobs@[k],
                        work_items@,
                        in_progress,
                    ),
            decreases in_progress.len() - i,
        {
            let item = &progress.in_progress[i];
            let index: usize = item.work_index;
            proof {
                lemma_latest_some(in_progress, i as int);
                assert(all[i as int] == index);
            }
            if index >= work_items.len() {
                proof {
                    assert(latest(in_progress, index) is Some);
                    if overlapping(n, completed, in_progress) {
                        let w = choose|w: usize|
                            {
                                &&& #[trigger] latest(in_progress, w) is Some
                                &&& w < n
                                &&& completed.contains(w)
                            };
                        lemma_latest_none(in_progress, w);
                        let k = choose|k: int| 0 <= k < all.len() && all[k] == w;
                        if k > i {
                            assert(all[i as int] < all[k]);
                        }
                    }
                }
                proof {
                    lemma_refusals(n, completed, in_progress);
                }
                return Err(SearchError::WorkIndexOutOfRange);
            }
            if progress.is_completed(index) {
                assert(latest(in_progress, index) is Some);
                proof {
                    lemma_refusals(n, completed, in_progress);
                }
                return Err(SearchError::WorkIndexOverlap);
            }
            let ghost before = jobs@;
            let job = ParallelJob {
                index,
                work_item: work_items[index].clone(),
                resume: Some((copy_stack(&item.stack), copy_path(&item.key))),
            };
            jobs.push(job);
            proof {
                assert(job_indices(jobs@) =~= job_indices(before).push(index));
                assert(all.take(i as int + 1) =~= all.take(i as int).push(index));
                assert forall|k: int| 0 <= k < jobs@.len() implies job_matches(
                    #[trigger] jobs@[k],
                    work_items@,
                    in_progress,
                ) by {
                    if k < before.len() {
                        assert(jobs@[k] == before[k]);
                    }
                }
            }
            i = i + 1;
        }
        proof {
            assert(all.take(i as int) =~= all);
            assert forall|w: usize| #[trigger] latest(in_progress, w) is Some implies w < n
                && !completed.contains(w) by {
                lemma_latest_none(in_progress, w);
                let k = choose|k: int| 0 <= k < all.len() && all[k] == w;
                assert(all[k] < n);
            }
            assert(!overlapping(n, completed, in_progress));
            assert(!out_of_range(n, in_progress));
            assert(all + fresh_jobs(0, completed, in_progress) =~= all);
        }
        let mut index: usize = 0;
        while index < work_items.len()
            invariant
                n == work_items@.len(),
                completed == progress.completed@,
                in_progress == progress.in_progress@,
                all == work_indices(in_progress),
                progress.wf(),
                0 <= index <= n,
                job_indices(jobs@) == all + fresh_jobs(index as nat, completed, in_progress),
                forall|k: int|
                    0 <= k < jobs@.len() ==> job_matches(
                        #[trigger] jobs@[k],
                        work_items@,
                        in_progress,
                    ),
            decreases n - index,
        {
            if !progress.is_completed(index) && !progress.is_in_progress(index) {
                let ghost before = jobs@;
                let job = ParallelJob {
                    index,
                    work_item: work_items[index].clone(),
                    resume: None,
                };
                jobs.push(job);
                proof {
                    assert(job_indices(jobs@) =~= job_indices(before).push(index));
                    assert(job_indices(jobs@) =~= all + fresh_jobs(
                        index as nat + 1,
                        completed,
                        in_progress,
                    ));
                    assert forall|k: int| 0 <= k < jobs@.len() implies job_matches(
                        #[trigger] jobs@[k],
                        work_items@,
                        in_progress,
                    ) by {
                        if k < before.len() {
                            assert(jobs@[k] == before[k]);
                        }
                    }
                }
            }
            index = index + 1;
        }
        proof {
            assert(n <= usize::MAX) by {
                assert(n == work_items.len());
            }
            lemma_job_list(n, completed, in_progress, job_indices(jobs@));
            lemma_listed_jobs(n, completed, in_progress, work_items@, jobs@);
        }
        Ok(jobs)
    }
}

/// What a job has found once it is completed.
#[derive(Debug)]
pub struct JobOutcome {
    pub index: usize,
    pub found: SharedResults,
}

impl JobOutcome {
    /// The findings are the job's own and account for each of its leaves.
    pub open spec fn completes(&self, ctx: &ParallelSearchCtx) -> bool {
        let pred = ctx.shared.pred();
        &&& self.index < pred.todo.len()
        &&& self.found.wf()
        &&& pred.own_sound(self.found@, self.index as int)
        &&& forall|leaf: Seq<usize>| #[trigger]
            pred.todo[self.index as int].contains(leaf) ==> pred.accounted(self.found@, leaf)
    }
}

impl ActiveJob {
    /// What the job has found, once nothing is left for it to do.
    pub fn outcome(self, ctx: &ParallelSearchCtx) -> (outcome: JobOutcome)
        requires
            self.wf(ctx),
            self.walk.stack@.len() == 0,
        ensures
            outcome.index == self.index,
            outcome.found == self.own,
            outcome.completes(ctx),
    {
        JobOutcome { index: self.index, found: self.own }
    }
}

impl Tally {
    /// What a search starts with.
    pub open spec fn at_start(resume: Option<Checkpoint>) -> Tally {
        match resume {
            Some(c) => c.tally(),
            None => Tally::empty(),
        }
    }
}

impl ParallelShared {
    /// What the threads share at the start: nothing, or what the checkpoint holds.
    pub fn at_start(resume: &Option<Checkpoint>) -> (shared: Self)
        ensures
            shared.results@ == Tally::at_start(*resume),
            match *resume {
                Some(c) => {
                    &&& shared.results.max_count == c.max_count
                    &&& shared.results.shifts@.len() == c.shifts@.len()
                    &&& forall|i: int|
                        0 <= i < c.shifts@.len() ==> (#[trigger] shared.results.shifts@[i])@
                            == c.shifts@[i]@
                    &&& shared.results.target_shifts@.len() == c.target_shifts@.len()
                    &&& forall|i: int|
                        0 <= i < c.target_shifts@.len() ==> (
                        #[trigger] shared.results.target_shifts@[i])@ == c.target_shifts@[i]@
                },
                None => {
                    &&& shared.results.max_count == 0
                    &&& shared.results.shifts@.len() == 0
                    &&& shared.results.target_shifts@.len() == 0
                },
            },
            shared.progress.wf(),
            shared.last_checkpoint_nodes == shared.node_count,
            match *resume {
                Some(c) => {
                    &&& shared.results.results == c.results
                    &&& shared.results.target_results == c.target_results
                    &&& shared.results.wf() == c.counters_fit()
                    &&& shared.node_count == c.node_count
                    &&& forall|w: usize| #[trigger]
                        shared.progress.completed@.contains(w) <==> c.completed@.contains(w)
                    &&& forall|w: usize| #[trigger]
                        latest(shared.progress.in_progress@, w) == latest(c.in_progress@, w)
                },
                None => {
                    &&& shared.results.wf()
                    &&& shared.node_count == 0
                    &&& shared.progress.completed@ == Seq::<usize>::empty()
                    &&& shared.progress.in_progress@ == Seq::<ParallelInProgress>::empty()
                },
            },
    {
        match resume {
            Some(checkpoint) => {
                let shifts = copy_paths(&checkpoint.shifts);
                let target_shifts = copy_paths(&checkpoint.target_shifts);
                assert(paths(shifts@).len() == paths(checkpoint.shifts@).len());
                assert(paths(target_shifts@).len() == paths(checkpoint.target_shifts@).len());
                ParallelShared {
                    results: SharedResults {
                        max_count: checkpoint.max_count,
                        results: checkpoint.results,
                        shifts,
                        target_results: checkpoint.target_results,
                        target_shifts,
                    },
                    node_count: checkpoint.node_count,
                    last_checkpoint_nodes: checkpoint.node_count,
                    progress: ParallelProgress::from_lists(
                        &checkpoint.completed,
                        &checkpoint.in_progress,
                    ),
                }
            },
            None => ParallelShared {
                results: SharedResults::default(),
                node_count: 0,
                last_checkpoint_nodes: 0,
                progress: ParallelProgress::new(),
            },
        }
    }
}

impl State {
    /// How many jobs a search that is split at the given level has.
    pub open spec fn job_count(&self, split_depth: usize) -> nat {
        self.tree(split_depth).leaves_of(Seq::empty()).len()
    }

    /// Why a parallel search cannot start from a checkpoint, if it cannot.
    pub open spec fn refuses(&self, depth: usize, resume: Option<Checkpoint>) -> Option<SearchError> {
        match resume {
            None => None,
            Some(c) => if c.mode != SearchMode::Parallel {
                Some(SearchError::SequentialCheckpoint)
            } else if !self.fits_config(c, depth) {
                Some(SearchError::ConfigMismatch { depth: c.depth, cols: c.cols })
            } else if c.split_depth > depth {
                Some(SearchError::SplitBelowDepth)
            } else if overlapping(
                self.job_count(c.split_depth),
                c.completed@,
                c.in_progress@,
            ) {
                Some(SearchError::WorkIndexOverlap)
            } else if out_of_range(self.job_count(c.split_depth), c.in_progress@) {
                Some(SearchError::WorkIndexOutOfRange)
            } else {
                None
            },
        }
    }

    /// A parallel search can start at the root, or from the checkpoint if it is one that the search
    /// takes: then every job in progress has to stand at a position in the tree.
    pub open spec fn can_plan(&self, depth: usize, resume: Option<Checkpoint>) -> bool {
        resume matches Some(c) ==> self.refuses(depth, resume) is None ==> {
            &&& c.counters_fit()
            &&& forall|w: usize|
                #![trigger latest(c.in_progress@, w)]
                latest(c.in_progress@, w) matches Some((stack, key)) ==> position_ok(
                    self.tree(depth),
                    stack,
                    key,
                )
        }
    }

    /// The leaves that a search still has to look at, job by job, when it is split at the given
    /// level.
    pub open spec fn leaves_ahead(
        &self,
        depth: usize,
        split_depth: usize,
        resume: Option<Checkpoint>,
    ) -> Seq<Seq<Seq<usize>>> {
        match resume {
            Some(c) => jobs_ahead(
                self.tree(depth),
                split_depth as nat,
                c.completed@,
                c.in_progress@,
            ),
            None => jobs_ahead(self.tree(depth), split_depth as nat, seq![], seq![]),
        }
    }

    /// Splits the tree, or takes up the split of a checkpoint, and lists the jobs that are left.
    #[verifier::spinoff_prover]
    pub fn plan_parallel(&self, depth: usize, resume: Option<Checkpoint>) -> (plan: Result<
        (ParallelSearchCtx, Vec<ParallelJob>),
        SearchError,
    >)
        requires
            self.ready(depth),
            self.can_plan(depth, resume),
        ensures
            match plan {
                Ok((ctx, jobs)) => {
                    &&& self.refuses(depth, resume) is None
                    &&& ctx.depth == depth
                    &&& ctx.serves(*self)
                    &&& resume matches Some(c) ==> ctx.split_depth == c.split_depth
                    &&& resume is None ==> exists|threads: usize|
                        {
                            &&& 1 <= threads <= 0xffff
                            &&& #[trigger] self.splits_at_for(depth, threads, ctx.split_depth)
                        }
                    &&& ctx.shared.pred().start == Tally::at_start(resume)
                    &&& ctx.todo() == self.leaves_ahead(depth, ctx.split_depth, resume)
                    &&& ctx.todo().len() <= usize::MAX
                    &&& job_indices(jobs@).no_duplicates()
                    &&& forall|w: usize| #[trigger]
                        job_indices(jobs@).contains(w) <==> w < ctx.todo().len() && (
                        resume matches Some(c) ==> !c.completed@.contains(w))
                    &&& forall|i: int|
                        0 <= i < jobs@.len() ==> {
                            &&& (#[trigger] jobs@[i]).fits(&ctx)
                            &&& jobs@[i].position() == match resume {
                                Some(c) => latest(c.in_progress@, jobs@[i].index),
                                None => None,
                            }
                        }
                    &&& forall|w: int|
                        0 <= w < ctx.todo().len() && (#[trigger] ctx.todo()[w]).len() > 0
                            ==> job_indices(jobs@).contains(w as usize)
                },
                Err(error) => self.refuses(depth, resume) == Some(error),
            },
            plan is Ok <==> (resume matches Some(c) ==> {
                &&& c.mode == SearchMode::Parallel
                &&& c.depth == depth
                &&& c.primes@ == self.primes@
                &&& c.cols == self.zero_mask.size()
                &&& c.split_depth <= depth
                &&& forall|i: int|
                    0 <= i < c.in_progress@.len() ==> {
                        &&& (#[trigger] c.in_progress@[i]).work_index < self.primes@.take(
                            c.split_depth as int,
                        ).fold_left(1int, |a: int, p: usize| a * p)
                        &&& !c.completed@.contains(c.in_progress@[i].work_index)
                    }
            }),
    {
        proof {
            self.law_only_foreign_checkpoints_are_refused(depth, resume);
        }
        let ghost tree = self.tree(depth);
        let ghost start = Tally::at_start(resume);
        let split_depth: usize = match &resume {
            Some(checkpoint) => {
                if checkpoint.mode != SearchMode::Parallel {
                    return Err(SearchError::SequentialCheckpoint);
                }
                match self.apply_checkpoint_config(checkpoint, depth) {
                    Ok(_) => {},
                    Err(error) => {
                        return Err(error);
                    },
                }
                if checkpoint.split_depth > depth {
                    return Err(SearchError::SplitBelowDepth);
                }
                checkpoint.split_depth
            },
            None => self.parallel_split_depth(depth),
        };
        let shared = ParallelShared::at_start(&resume);
        let ghost progress = shared.progress;
        let ghost todo = self.leaves_ahead(depth, split_depth, resume);
        proof {
            assert(cut_at(tree, split_depth as nat) == self.tree(split_depth));
            self.lemma_ready(depth, split_depth);
            match resume {
                Some(c) => {
                    lemma_same_lists(
                        tree,
                        split_depth as nat,
                        self.job_count(split_depth),
                        progress.completed@,
                        progress.in_progress@,
                        c.completed@,
                        c.in_progress@,
                    );
                },
                None => {},
            }
        }
        let work_items = self.parallel_work_items(split_depth);
        assert(item_paths(work_items@).len() == work_items.len());
        let jobs = match self.parallel_jobs(&work_items, &shared.progress) {
            Ok(jobs) => jobs,
            Err(error) => {
                return Err(error);
            },
        };
        let ghost pred = SearchPred {
            tree,
            target: self.target,
            split: split_depth as nat,
            start,
            todo,
        };
        proof {
            lemma_starts_well(pred, shared);
        }
        let ctx = ParallelSearchCtx {
            depth,
            split_depth,
            shared: RwLock::new(shared, Ghost(pred)),
        };
        proof {
            lemma_job_list(
                work_items@.len(),
                progress.completed@,
                progress.in_progress@,
                job_indices(jobs@),
            );
            self.lemma_jobs_fit(&ctx, jobs@, work_items@, progress);
            lemma_nothing_left_out(todo, progress, job_indices(jobs@), tree, split_depth as nat);
        }
        Ok((ctx, jobs))
    }

    /// A parallel search without a checkpoint is never refused, and one with a checkpoint exactly
    /// where the checkpoint was made by another kind of search or with other settings, or lists
    /// jobs in progress that do not exist or are completed.
    pub proof fn law_only_foreign_checkpoints_are_refused(
        &self,
        depth: usize,
        resume: Option<Checkpoint>,
    )
        requires
            depth <= self.primes@.len(),
        ensures
            resume is None ==> self.refuses(depth, resume) is None,
            self.refuses(depth, resume) is None <==> (resume matches Some(c) ==> {
                &&& c.mode == SearchMode::Parallel
                &&& c.depth == depth
                &&& c.primes@ == self.primes@
                &&& c.cols == self.zero_mask.size()
                &&& c.split_depth <= depth
                &&& forall|i: int|
                    0 <= i < c.in_progress@.len() ==> {
                        &&& (#[trigger] c.in_progress@[i]).work_index < self.primes@.take(
                            c.split_depth as int,
                        ).fold_left(1int, |a: int, p: usize| a * p)
                        &&& !c.completed@.contains(c.in_progress@[i].work_index)
                    }
            }),
            resume matches Some(c) ==> (self.refuses(depth, resume) matches Some(error) ==> error
                == (if c.mode != SearchMode::Parallel {
                SearchError::SequentialCheckpoint
            } else if c.depth != depth || c.primes@ != self.primes@ || c.cols
                != self.zero_mask.size() {
                SearchError::ConfigMismatch { depth: c.depth, cols: c.cols }
            } else if c.split_depth > depth {
                SearchError::SplitBelowDepth
            } else if exists|i: int|
                {
                    &&& 0 <= i < c.in_progress@.len()
                    &&& (#[trigger] c.in_progress@[i]).work_index < self.primes@.take(
                        c.split_depth as int,
                    ).fold_left(1int, |a: int, p: usize| a * p)
                    &&& c.completed@.contains(c.in_progress@[i].work_index)
                } {
                SearchError::WorkIndexOverlap
            } else {
                SearchError::WorkIndexOutOfRange
            })),
    {
        if let Some(c) = resume {
            if c.split_depth <= depth {
                law_nodes_at_a_level(self.tree(depth), c.split_depth as nat);
                assert(cut_at(self.tree(depth), c.split_depth as nat) == self.tree(c.split_depth));
                lemma_refusals(self.job_count(c.split_depth), c.completed@, c.in_progress@);
            }
        }
    }

    /// What is ready for a search is ready for a shorter one.
    pub proof fn lemma_ready(&self, depth: usize, split_depth: usize)
        requires
            self.ready(depth),
            split_depth <= depth,
        ensures
            self.ready(split_depth),
    {
        assert forall|l: int| 0 <= l < split_depth implies #[trigger] self.tree(split_depth).fans[l]
            <= self.tree(split_depth).rows[l].len() by {
            assert(self.tree(depth).fans[l] <= self.tree(depth).rows[l].len());
        }
        assert forall|l: int, s: int|
            0 <= l < split_depth && 0 <= s < self.tree(split_depth).rows[l].len() implies (
        #[trigger] self.tree(split_depth).rows[l][s]).len() == self.tree(split_depth).base.len() by {
            assert(self.tree(depth).rows[l][s].len() == self.tree(depth).base.len());
        }
    }

    /// All listed jobs can be run.
    proof fn lemma_jobs_fit(
        &self,
        ctx: &ParallelSearchCtx,
        jobs: Seq<ParallelJob>,
        items: Seq<WorkItem>,
        progress: ParallelProgress,
    )
        requires
            self.ready(ctx.depth),
            ctx.serves(*self),
            item_paths(items) == self.tree(ctx.split_depth).leaves_of(Seq::empty()),
            items_fit(self.tree(ctx.split_depth), items),
            items.len() <= usize::MAX,
            forall|i: int|
                0 <= i < jobs.len() ==> job_matches(
                    #[trigger] jobs[i],
                    items,
                    progress.in_progress@,
                ),
            forall|w: usize| #[trigger]
                latest(progress.in_progress@, w) matches Some((stack, key)) ==> position_ok(
                    self.tree(ctx.depth),
                    stack,
                    key,
                ),
            forall|w: usize| #[trigger]
                job_indices(jobs).contains(w) ==> !progress.completed@.contains(w),
            ctx.todo() == jobs_ahead(
                self.tree(ctx.depth),
                ctx.split_depth as nat,
                progress.completed@,
                progress.in_progress@,
            ),
        ensures
            forall|i: int| 0 <= i < jobs.len() ==> (#[trigger] jobs[i]).fits(ctx),
    {
        assert forall|i: int| 0 <= i < jobs.len() implies (#[trigger] jobs[i]).fits(ctx) by {
            assert(job_indices(jobs)[i] == jobs[i].index);
            assert(job_indices(jobs).contains(jobs[i].index));
            self.lemma_job_fits(ctx, jobs[i], items, progress);
        }
    }

    proof fn lemma_job_fits(
        &self,
        ctx: &ParallelSearchCtx,
        job: ParallelJob,
        items: Seq<WorkItem>,
        progress: ParallelProgress,
    )
        requires
            self.ready(ctx.depth),
            ctx.serves(*self),
            item_paths(items) == self.tree(ctx.split_depth).leaves_of(Seq::empty()),
            items_fit(self.tree(ctx.split_depth), items),
            items.len() <= usize::MAX,
            job_matches(job, items, progress.in_progress@),
            forall|w: usize| #[trigger]
                latest(progress.in_progress@, w) matches Some((stack, key)) ==> position_ok(
                    self.tree(ctx.depth),
                    stack,
                    key,
                ),
            latest(progress.in_progress@, job.index) is None ==> !progress.completed@.contains(
                job.index,
            ),
            ctx.todo() == jobs_ahead(
                self.tree(ctx.depth),
                ctx.split_depth as nat,
                progress.completed@,
                progress.in_progress@,
            ),
        ensures
            job.fits(ctx),
    {
        let tree = self.tree(ctx.depth);
        let short = self.tree(ctx.split_depth);
        assert(cut_at(tree, ctx.split_depth as nat) == short);
        let w = job.index as int;
        let node = items[w].key@;
        assert(item_paths(items)[w] == node);
        assert(short.leaves_of(Seq::empty()).contains(node));
        self.lemma_ready(ctx.depth, ctx.split_depth);
        law_search_covers_every_leaf(short);
        assert(short.is_leaf(node));
        assert forall|i: int| 0 <= i < node.len() implies #[trigger] node[i] < tree.rows[i].len() by {
            assert(tree.fans[i] <= tree.rows[i].len());
        }
        assert(short.row(node) =~= tree.row(node));
        assert(items[w].base_mask@ == short.row(node));
    }

    /// Runs a job to its end.
    pub fn complete_parallel_job(&self, job: ParallelJob, ctx: &ParallelSearchCtx) -> (outcome:
        JobOutcome)
        requires
            self.ready(ctx.depth),
            ctx.serves(*self),
            ctx.todo().len() <= usize::MAX,
            job.fits(ctx),
        ensures
            outcome.index == job.index,
            outcome.completes(ctx),
    {
        let ghost index = job.index;
        let mut active = self.start_parallel_job(job, ctx);
        let mut done: bool = false;
        while !done
            invariant
                self.ready(ctx.depth),
                ctx.serves(*self),
                ctx.todo().len() <= usize::MAX,
                active.wf(ctx),
                active.index == index,
                done ==> active.walk.stack@.len() == 0,
            decreases
                    nodes_ahead(ctx.shared.pred().tree, active.walk.stack@),
                    (if done {
                        0nat
                    } else {
                        1nat
                    }),
        {
            done = self.run_parallel_job(&mut active, ctx);
        }
        active.outcome(ctx)
    }
}

impl State {
    /// Every job that has a leaf to look at is completed by one of the outcomes.
    pub open spec fn all_completed(ctx: &ParallelSearchCtx, outcomes: Seq<JobOutcome>) -> bool {
        &&& forall|i: int| 0 <= i < outcomes.len() ==> (#[trigger] outcomes[i]).completes(ctx)
        &&& forall|w: int|
            0 <= w < ctx.todo().len() && (#[trigger] ctx.todo()[w]).len() > 0 ==> exists|i: int|
                0 <= i < outcomes.len() && (#[trigger] outcomes[i]).index == w
    }

    /// What all jobs have found together.
    pub fn collect_results(&self, ctx: &ParallelSearchCtx, outcomes: &Vec<JobOutcome>) -> (results:
        SharedResults)
        requires
            ctx.serves(*self),
            Self::all_completed(ctx, outcomes@),
        ensures
            results.wf(),
            finds_all(
                ctx.shared.pred().tree,
                self.target,
                ctx.shared.pred().start,
                concat(ctx.todo()),
                results@,
            ),
    {
        let ghost pred = ctx.shared.pred();
        let handle = ctx.shared.acquire_read();
        let mut results = handle.borrow().results.clone();
        handle.release_read();
        let mut i: usize = 0;
        while i < outcomes.len()
            invariant
                pred == ctx.shared.pred(),
                ctx.serves(*self),
                Self::all_completed(ctx, outcomes@),
                0 <= i <= outcomes@.len(),
                results.wf(),
                pred.sound(results@),
                forall|k: int, leaf: Seq<usize>|
                    0 <= k < i && #[trigger] pred.accounted(outcomes@[k].found@, leaf)
                        ==> pred.accounted(results@, leaf),
            decreases outcomes@.len() - i,
        {
            assert(outcomes@[i as int].completes(ctx));
            proof {
                lemma_absorb_sound(
                    pred,
                    results@,
                    outcomes@[i as int].found@,
                    outcomes@[i as int].index as int,
                );
            }
            results.absorb(self.target, &outcomes[i].found);
            i = i + 1;
        }
        proof {
            assert forall|leaf: Seq<usize>| #[trigger] listed(pred.todo, leaf) implies
                pred.accounted(results@, leaf) by {
                let w = choose|w: int|
                    0 <= w < pred.todo.len() && (#[trigger] pred.todo[w]).contains(leaf);
                assert(ctx.todo()[w].len() > 0);
                let k = choose|k: int|
                    0 <= k < outcomes@.len() && (#[trigger] outcomes@[k]).index == w;
                assert(outcomes@[k].completes(ctx));
                assert(pred.accounted(outcomes@[k].found@, leaf));
            }
            lemma_result(pred, results@);
        }
        results
    }

    /// Searches the tree down to `depth` on the threads of the pool, from the root or from a
    /// checkpoint.
    pub fn search_parallel(&self, depth: usize, resume: Option<Checkpoint>) -> (outcome: Result<
        SharedResults,
        SearchError,
    >)
        requires
            self.ready(depth),
            self.can_plan(depth, resume),
        ensures
            outcome matches Ok(results) ==> results.results == results.shifts@.len()
                && results.target_results == results.target_shifts@.len(),
            match outcome {
                Ok(results) => {
                    &&& self.refuses(depth, resume) is None
                    &&& results.wf()
                    &&& finds_all(
                        self.tree(depth),
                        self.target,
                        Tally::at_start(resume),
                        match resume {
                            Some(c) => concat(self.leaves_ahead(depth, c.split_depth, resume)),
                            None => self.tree(depth).leaves_of(Seq::empty()),
                        },
                        results@,
                    )
                },
                Err(error) => self.refuses(depth, resume) == Some(error),
            },
            outcome is Ok <==> (resume matches Some(c) ==> {
                &&& c.mode == SearchMode::Parallel
                &&& c.depth == depth
                &&& c.primes@ == self.primes@
                &&& c.cols == self.zero_mask.size()
                &&& c.split_depth <= depth
                &&& forall|i: int|
                    0 <= i < c.in_progress@.len() ==> {
                        &&& (#[trigger] c.in_progress@[i]).work_index < self.primes@.take(
                            c.split_depth as int,
                        ).fold_left(1int, |a: int, p: usize| a * p)
                        &&& !c.completed@.contains(c.in_progress@[i].work_index)
                    }
            }),
    {
        proof {
            self.law_only_foreign_checkpoints_are_refused(depth, resume);
        }
        let ghost tree = self.tree(depth);
        let (ctx, jobs) = match self.plan_parallel(depth, resume) {
            Ok(plan) => plan,
            Err(error) => {
                return Err(error);
            },
        };
        let ghost planned = jobs@;
        let common = &ctx;
        let run = |job: ParallelJob| -> (outcome: JobOutcome)
            requires
                job.fits(common),
            ensures
                outcome.index == job.index && outcome.completes(common),
            { self.complete_parallel_job(job, common) };
        let outcomes = map_in_parallel(jobs, run);
        proof {
            assert forall|w: int|
                0 <= w < ctx.todo().len() && (#[trigger] ctx.todo()[w]).len() > 0 implies exists|i: int|
                0 <= i < outcomes@.len() && (#[trigger] outcomes@[i]).index == w by {
                let indices = job_indices(planned);
                assert(indices.contains(w as usize));
                let i = choose|i: int| 0 <= i < indices.len() && indices[i] == w as usize;
                assert(outcomes@[i].index == planned[i].index);
            }
        }
        let results = self.collect_results(&ctx, &outcomes);
        proof {
            if resume is None {
                let all = concat(ctx.todo());
                self.lemma_ready(depth, ctx.split_depth);
                assert(cut_at(tree, ctx.split_depth as nat) == self.tree(ctx.split_depth));
                law_split_covers_every_leaf(tree, ctx.split_depth as nat);
                law_search_covers_every_leaf(tree);
                assert forall|leaf: Seq<usize>| #[trigger] all.contains(leaf) <==> tree.leaves_of(
                    Seq::empty(),
                ).contains(leaf) by {
                    assert(tree.leaves_of(Seq::empty()).contains(leaf) <==> tree.is_leaf(leaf));
                }
                lemma_same_leaves(
                    tree,
                    self.target,
                    Tally::empty(),
                    all,
                    tree.leaves_of(Seq::empty()),
                    results@,
                );
            }
        }
        Ok(results)
    }
}

/// Lists that agree on every job leave the same leaves ahead and have the same conflicts.
pub proof fn lemma_same_lists(
    tree: Tree,
    split: nat,
    jobs: nat,
    completed: Seq<usize>,
    in_progress: Seq<ParallelInProgress>,
    other_completed: Seq<usize>,
    other_in_progress: Seq<ParallelInProgress>,
)
    requires
        forall|w: usize| #[trigger] completed.contains(w) <==> other_completed.contains(w),
        forall|w: usize| #[trigger] latest(in_progress, w) == latest(other_in_progress, w),
    ensures
        jobs_ahead(tree, split, completed, in_progress) == jobs_ahead(
            tree,
            split,
            other_completed,
            other_in_progress,
        ),
        overlapping(jobs, completed, in_progress) == overlapping(
            jobs,
            other_completed,
            other_in_progress,
        ),
        out_of_range(jobs, in_progress) == out_of_range(jobs, other_in_progress),
        forall|w: usize| #[trigger] latest(other_in_progress, w) == latest(in_progress, w),
{
    let a = jobs_ahead(tree, split, completed, in_progress);
    let b = jobs_ahead(tree, split, other_completed, other_in_progress);
    assert forall|w: int| 0 <= w < a.len() implies a[w] == b[w] by {
        assert(latest(in_progress, w as usize) == latest(other_in_progress, w as usize));
        assert(completed.contains(w as usize) <==> other_completed.contains(w as usize));
    }
    assert(a =~= b);
    assert forall|w: usize| #[trigger] latest(other_in_progress, w) == latest(in_progress, w) by {
        assert(latest(in_progress, w) == latest(other_in_progress, w));
    }
    if overlapping(jobs, completed, in_progress) {
        let w = choose|w: usize|
            {
                &&& #[trigger] latest(in_progress, w) is Some
                &&& w < jobs
                &&& completed.contains(w)
            };
        assert(latest(other_in_progress, w) is Some);
    }
    if overlapping(jobs, other_completed, other_in_progress) {
        let w = choose|w: usize|
            {
                &&& #[trigger] latest(other_in_progress, w) is Some
                &&& w < jobs
                &&& other_completed.contains(w)
            };
        assert(latest(in_progress, w) is Some);
        assert(completed.contains(w));
    }
    if out_of_range(jobs, in_progress) {
        let w = choose|w: usize| #[trigger] latest(in_progress, w) is Some && w >= jobs;
        assert(latest(other_in_progress, w) is Some);
    }
    if out_of_range(jobs, other_in_progress) {
        let w = choose|w: usize| #[trigger] latest(other_in_progress, w) is Some && w >= jobs;
        assert(latest(in_progress, w) is Some);
    }
}

} // verus!
