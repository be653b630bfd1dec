//! Search of the tree by several threads.

use vstd::arithmetic::div_mod::lemma_small_mod;
use vstd::prelude::*;
use vstd::rwlock::{RwLock, RwLockPredicate};

use crate::checkpoint::{copy_stack, Frame, ParallelInProgress};
use crate::gather::{
    job_ahead, jobs_ahead, lemma_absorb_sound, lemma_record_own, lemma_record_sound, listed,
    SearchPred,
};
use crate::progress::{latest, lemma_latest_none, lemma_latest_some, work_indices, ParallelProgress};
use crate::results::{copy_path, SharedResults};
use crate::search::{counted, lemma_counted_next, State};
use crate::split::{cut_at, WorkItem};
use crate::tree::{lemma_leaves_below_bound, out_of_reach, Tally, Tree};
use crate::walk::{next_child, nodes_ahead, position_ok, remaining, settle, Walk};

verus! {

/// What the threads share.
#[derive(Debug)]
pub struct ParallelShared {
    pub results: SharedResults,
    pub node_count: u64,
    pub last_checkpoint_nodes: u64,
    pub progress: ParallelProgress,
}

impl ParallelShared {
    pub open spec fn wf(&self) -> bool {
        &&& self.results.wf()
        &&& self.progress.wf()
    }

    /// Takes up the findings and the nodes of a job, and where it stands unless it is completed.
    pub fn note_position(&mut self, target: Option<usize>, job: &ActiveJob)
        requires
            old(self).wf(),
        ensures
            final(self).wf(),
            final(self).results@ == old(self).results@.absorb(target, job.own@),
            final(self).node_count == old(self).node_count.wrapping_add(job.local_nodes),
            final(self).last_checkpoint_nodes == old(self).last_checkpoint_nodes,
            final(self).progress.completed == old(self).progress.completed,
            forall|w: usize| #[trigger]
                latest(final(self).progress.in_progress@, w) == if w == job.index
                    && !old(self).progress.completed@.contains(w) {
                    Some((job.walk.stack@, job.walk.key@))
                } else {
                    latest(old(self).progress.in_progress@, w)
                },
    {
        self.results.absorb(target, &job.own);
        self.node_count = self.node_count.wrapping_add(job.local_nodes);
        if !self.progress.is_completed(job.index) {
            let item = ParallelInProgress {
                work_index: job.index,
                stack: copy_stack(&job.walk.stack),
                key: copy_path(&job.walk.key),
            };
            self.progress.store(item);
        }
    }

    /// Takes up the findings and the nodes of a job, and that it is completed.
    pub fn note_completed(&mut self, target: Option<usize>, job: &ActiveJob)
        requires
            old(self).wf(),
        ensures
            final(self).wf(),
            final(self).results@ == old(self).results@.absorb(target, job.own@),
            final(self).node_count == old(self).node_count.wrapping_add(job.local_nodes),
            final(self).last_checkpoint_nodes == old(self).last_checkpoint_nodes,
            forall|w: usize| #[trigger]
                final(self).progress.completed@.contains(w) <==> w == job.index
                    || old(self).progress.completed@.contains(w),
            forall|w: usize| #[trigger]
                latest(final(self).progress.in_progress@, w) == if w == job.index {
                    None
                } else {
                    latest(old(self).progress.in_progress@, w)
                },
    {
        self.results.absorb(target, &job.own);
        self.node_count = self.node_count.wrapping_add(job.local_nodes);
        self.progress.remove(job.index);
        self.progress.complete(job.index);
    }
}

impl SearchPred {
    /// The jobs in progress exist, are not completed, and stand at positions in the tree.
    pub open spec fn progress_ok(self, progress: ParallelProgress) -> bool {
        &&& progress.wf()
        &&& forall|i: int|
            0 <= i < progress.in_progress@.len() ==> {
                let item = #[trigger] progress.in_progress@[i];
                &&& item.work_index < self.todo.len()
                &&& !progress.completed@.contains(item.work_index)
                &&& position_ok(self.tree, item.stack@, item.key@)
            }
    }

    /// A search that goes on from the noted positions looks only at leaves that the jobs have to
    /// look at, and at all that are not accounted for.
    pub open spec fn nothing_lost(self, shared: ParallelShared) -> bool {
        let ahead = jobs_ahead(
            self.tree,
            self.split,
            shared.progress.completed@,
            shared.progress.in_progress@,
        );
        &&& ahead.len() == self.todo.len()
        &&& forall|w: int, leaf: Seq<usize>|
            0 <= w < self.todo.len() && #[trigger] self.todo[w].contains(leaf)
                ==> ahead[w].contains(leaf) || self.accounted(shared.results@, leaf)
        &&& forall|w: int, leaf: Seq<usize>|
            0 <= w < self.todo.len() && #[trigger] ahead[w].contains(leaf)
                ==> self.todo[w].contains(leaf)
    }
}

impl RwLockPredicate<ParallelShared> for SearchPred {
    open spec fn inv(self, v: ParallelShared) -> bool {
        &&& v.results.wf()
        &&& self.sound(v.results@)
        &&& self.progress_ok(v.progress)
        &&& self.nothing_lost(v)
    }
}

/// What every job of a parallel search can reach.
pub struct ParallelSearchCtx {
    pub depth: usize,
    pub split_depth: usize,
    pub shared: RwLock<ParallelShared, SearchPred>,
}

impl ParallelSearchCtx {
    /// The context belongs to a search of this state.
    pub open spec fn serves(&self, state: State) -> bool {
        &&& self.split_depth <= self.depth
        &&& self.shared.pred().tree == state.tree(self.depth)
        &&& self.shared.pred().target == state.target
        &&& self.shared.pred().split == self.split_depth
    }

    /// The leaves that each job has to look at.
    pub open spec fn todo(&self) -> Seq<Seq<Seq<usize>>> {
        self.shared.pred().todo
    }
}

/// The work of one thread: a node at the level of the split, or the position below it that an
/// earlier search had reached.
#[derive(Debug)]
pub struct ParallelJob {
    pub index: usize,
    pub work_item: WorkItem,
    pub resume: Option<(Vec<Frame>, Vec<usize>)>,
}

impl ParallelJob {
    /// Where the job goes on.
    pub open spec fn position(&self) -> Option<(Seq<Frame>, Seq<usize>)> {
        match self.resume {
            Some((stack, key)) => Some((stack@, key@)),
            None => None,
        }
    }

    /// The job can be run in the given context.
    pub open spec fn fits(&self, ctx: &ParallelSearchCtx) -> bool {
        let tree = ctx.shared.pred().tree;
        &&& self.index < ctx.todo().len()
        &&& match self.position() {
            Some((stack, key)) => {
                &&& position_ok(tree, stack, key)
                &&& ctx.todo()[self.index as int] == if ctx.split_depth < ctx.depth {
                    remaining(tree, stack, key)
                } else {
                    seq![]
                }
            },
            None => {
                &&& self.work_item.key@.len() == ctx.split_depth
                &&& tree.has_path(self.work_item.key@)
                &&& self.work_item.base_mask.wf()
                &&& self.work_item.base_mask@ == tree.row(self.work_item.key@)
                &&& ctx.todo()[self.index as int] == tree.leaves_of(self.work_item.key@)
            },
        }
    }
}

/// A job that is running, with what it has found itself.
pub struct ActiveJob {
    pub index: usize,
    pub walk: Walk,
    pub own: SharedResults,
    pub local_nodes: u64,
}

impl ActiveJob {
    /// The job stands at a position in the tree, its findings are its own, and they account for
    /// every leaf of the job that is not ahead.
    pub open spec fn wf(&self, ctx: &ParallelSearchCtx) -> bool {
        let pred = ctx.shared.pred();
        let w = self.index as int;
        let ahead = remaining(pred.tree, self.walk.stack@, self.walk.key@);
        &&& w < pred.todo.len()
        &&& self.walk.wf(pred.tree)
        &&& self.walk.stack@.len() > 0 ==> ctx.split_depth < ctx.depth
        &&& self.own.wf()
        &&& pred.own_sound(self.own@, w)
        &&& forall|leaf: Seq<usize>| #[trigger]
            pred.todo[w].contains(leaf) ==> ahead.contains(leaf) || pred.accounted(
                self.own@,
                leaf,
            )
        &&& forall|leaf: Seq<usize>| #[trigger]
            ahead.contains(leaf) ==> pred.todo[w].contains(leaf)
    }
}

/// Where a job stands and what it has found.
pub struct Trail {
    pub stack: Seq<Frame>,
    pub key: Seq<usize>,
    pub own: Tally,
}

impl Trail {
    /// The job one node further, where the highest count that the threads shared at that moment was
    /// `bound`; `None` where no node is left.
    pub open spec fn step(self, tree: Tree, target: Option<usize>, bound: nat) -> Option<Trail> {
        let (settled, path) = settle(self.stack, self.key);
        if settled.len() == 0 {
            None
        } else {
            let (stack, node) = next_child(settled, path);
            let count = tree.count(node);
            if count < bound && out_of_reach(target, count) {
                Some(Trail { stack, key: path, own: self.own })
            } else if node.len() >= tree.depth {
                Some(Trail { stack, key: path, own: self.own.record_once(target, count, node) })
            } else {
                Some(
                    Trail {
                        stack: stack.push(
                            Frame {
                                level: node.len() as usize,
                                next_idx: tree.fans[node.len() as int],
                            },
                        ),
                        key: node,
                        own: self.own,
                    },
                )
            }
        }
    }

    /// The job as many nodes further as there are bounds.
    pub open spec fn steps(self, tree: Tree, target: Option<usize>, bounds: Seq<nat>) -> Option<
        Trail,
    >
        decreases bounds.len(),
    {
        if bounds.len() == 0 {
            Some(self)
        } else {
            match self.steps(tree, target, bounds.drop_last()) {
                Some(trail) => trail.step(tree, target, bounds.last()),
                None => None,
            }
        }
    }
}

impl ActiveJob {
    /// Where the job stands and what it has found.
    pub open spec fn trail(&self) -> Trail {
        Trail { stack: self.walk.stack@, key: self.walk.key@, own: self.own@ }
    }

    /// What a run does that visits one node for each of the bounds, the highest counts that it read
    /// on its way: it stops behind the node with which the job's own node number reaches the
    /// interval, or when no node is left.
    pub open spec fn ran(
        before: ActiveJob,
        after: ActiveJob,
        ctx: &ParallelSearchCtx,
        interval: u64,
        bounds: Seq<nat>,
        done: bool,
    ) -> bool {
        let pred = ctx.shared.pred();
        let reached = before.trail().steps(pred.tree, pred.target, bounds);
        &&& forall|i: int|
            0 <= i < bounds.len() ==> pred.start.max <= #[trigger] bounds[i] <= pred.goal()
        &&& forall|i: nat|
            1 <= i < bounds.len() ==> #[trigger] counted(before.local_nodes, i) != interval
        &&& after.local_nodes == 0
        &&& reached is Some
        &&& if done {
            let (stack, key) = settle(reached->0.stack, reached->0.key);
            &&& stack.len() == 0
            &&& after.trail() == (Trail { stack, key, own: reached->0.own })
            &&& bounds.len() > 0 ==> counted(before.local_nodes, bounds.len()) != interval
        } else {
            &&& after.trail() == reached->0
            &&& bounds.len() > 0
            &&& counted(before.local_nodes, bounds.len()) == interval
        }
    }
}

/// Where a node is left without a look below it, its leaves count to less than the search will end
/// with, and miss the target.
proof fn lemma_pruned(pred: SearchPred, tally: Tally, node: Seq<usize>, bound: nat)
    requires
        pred.tree.wf(),
        pred.tree.has_path(node),
        bound <= pred.goal(),
        pred.tree.count(node) < bound,
        pred.target matches Some(t) ==> pred.tree.count(node) < t,
    ensures
        forall|leaf: Seq<usize>| #[trigger]
            pred.tree.leaves_of(node).contains(leaf) ==> pred.accounted(tally, leaf),
{
    let tree = pred.tree;
    assert forall|leaf: Seq<usize>| #[trigger] tree.leaves_of(node).contains(leaf) implies
        pred.accounted(tally, leaf) by {
        if node.len() < tree.depth {
            let level = node.len() as int;
            assert(tree.fans[level] <= tree.rows[level].len());
            lemma_leaves_below_bound(tree, node, tree.fans[level] as nat, leaf);
        }
    }
}

proof fn lemma_concat_contains(a: Seq<Seq<usize>>, b: Seq<Seq<usize>>)
    ensures
        forall|leaf: Seq<usize>| #[trigger]
            (a + b).contains(leaf) <==> a.contains(leaf) || b.contains(leaf),
{
    assert forall|leaf: Seq<usize>| #[trigger] (a + b).contains(leaf) <==> a.contains(leaf)
        || b.contains(leaf) by {
        if a.contains(leaf) {
            let i = choose|i: int| 0 <= i < a.len() && a[i] == leaf;
            assert((a + b)[i] == leaf);
        }
        if b.contains(leaf) {
            let i = choose|i: int| 0 <= i < b.len() && b[i] == leaf;
            assert((a + b)[a.len() + i] == leaf);
        }
    }
}

/// Better findings lose nothing either.
proof fn lemma_still_nothing_lost(pred: SearchPred, before: ParallelShared, after: ParallelShared)
    requires
        pred.nothing_lost(before),
        after.progress == before.progress,
        forall|leaf: Seq<usize>| #[trigger]
            pred.accounted(before.results@, leaf) ==> pred.accounted(after.results@, leaf),
    ensures
        pred.nothing_lost(after),
{
}

/// Noting where a job stands, once its findings are in, loses nothing.
proof fn lemma_moved_on(
    pred: SearchPred,
    before: ParallelShared,
    after: ParallelShared,
    w: usize,
)
    requires
        pred.nothing_lost(before),
        0 <= w < pred.todo.len(),
        pred.todo.len() <= usize::MAX,
        after.results@ == before.results@,
        forall|x: usize|
            x != w ==> #[trigger] latest(after.progress.in_progress@, x) == latest(
                before.progress.in_progress@,
                x,
            ),
        forall|x: usize|
            x != w ==> #[trigger] after.progress.completed@.contains(x)
                == before.progress.completed@.contains(x),
        ({
            let ahead = job_ahead(
                pred.tree,
                pred.split,
                cut_at(pred.tree, pred.split).leaves_of(Seq::empty())[w as int],
                w,
                after.progress.completed@,
                after.progress.in_progress@,
            );
            &&& forall|leaf: Seq<usize>| #[trigger]
                pred.todo[w as int].contains(leaf) ==> ahead.contains(leaf) || pred.accounted(
                    after.results@,
                    leaf,
                )
            &&& forall|leaf: Seq<usize>| #[trigger]
                ahead.contains(leaf) ==> pred.todo[w as int].contains(leaf)
        }),
    ensures
        pred.nothing_lost(after),
{
    let was = jobs_ahead(
        pred.tree,
        pred.split,
        before.progress.completed@,
        before.progress.in_progress@,
    );
    let now = jobs_ahead(
        pred.tree,
        pred.split,
        after.progress.completed@,
        after.progress.in_progress@,
    );
    assert forall|x: int| 0 <= x < pred.todo.len() && x != w implies now[x] == was[x] by {
        assert(latest(after.progress.in_progress@, x as usize) == latest(
            before.progress.in_progress@,
            x as usize,
        ));
        assert(after.progress.completed@.contains(x as usize)
            == before.progress.completed@.contains(x as usize));
    }
    assert forall|x: int, leaf: Seq<usize>|
        0 <= x < pred.todo.len() && #[trigger] pred.todo[x].contains(leaf) implies now[x].contains(
        leaf,
    ) || pred.accounted(after.results@, leaf) by {
        if x != w {
            assert(now[x] == was[x]);
        }
    }
    assert forall|x: int, leaf: Seq<usize>|
        0 <= x < pred.todo.len() && #[trigger] now[x].contains(leaf) implies pred.todo[x].contains(
        leaf,
    ) by {
        if x != w {
            assert(now[x] == was[x]);
        }
    }
}

/// A completed job is not in progress.
proof fn lemma_not_in_progress(pred: SearchPred, progress: ParallelProgress, w: usize)
    requires
        pred.progress_ok(progress),
        progress.completed@.contains(w),
    ensures
        latest(progress.in_progress@, w) is None,
{
    let list = progress.in_progress@;
    lemma_latest_none(list, w);
    let all = work_indices(list);
    if all.contains(w) {
        let k = choose|k: int| 0 <= k < all.len() && all[k] == w;
        assert(list[k].work_index == w);
    }
}

/// Lists that agree on every job lose nothing either.
proof fn lemma_same_progress(pred: SearchPred, before: ParallelShared, after: ParallelShared)
    requires
        pred.nothing_lost(before),
        after.results == before.results,
        after.progress.completed == before.progress.completed,
        forall|x: usize| #[trigger]
            latest(after.progress.in_progress@, x) == latest(before.progress.in_progress@, x),
    ensures
        pred.nothing_lost(after),
{
    let was = jobs_ahead(
        pred.tree,
        pred.split,
        before.progress.completed@,
        before.progress.in_progress@,
    );
    let now = jobs_ahead(
        pred.tree,
        pred.split,
        after.progress.completed@,
        after.progress.in_progress@,
    );
    assert forall|x: int| 0 <= x < was.len() implies now[x] == was[x] by {
        assert(latest(after.progress.in_progress@, x as usize) == latest(
            before.progress.in_progress@,
            x as usize,
        ));
    }
    assert(now =~= was);
}

/// The jobs in progress are where they were, but for one that stands at a position or is completed.
proof fn lemma_progress_ok(
    pred: SearchPred,
    before: ParallelProgress,
    after: ParallelProgress,
    w: usize,
)
    requires
        pred.progress_ok(before),
        after.wf(),
        w < pred.todo.len(),
        forall|x: usize|
            x != w ==> #[trigger] latest(after.in_progress@, x) == latest(before.in_progress@, x),
        forall|x: usize|
            x != w ==> #[trigger] after.completed@.contains(x) == before.completed@.contains(x),
        latest(after.in_progress@, w) matches Some((stack, key)) ==> {
            &&& position_ok(pred.tree, stack, key)
            &&& !after.completed@.contains(w)
        },
    ensures
        pred.progress_ok(after),
{
    let list = after.in_progress@;
    let earlier = before.in_progress@;
    assert forall|i: int| 0 <= i < list.len() implies {
        let item = #[trigger] list[i];
        &&& item.work_index < pred.todo.len()
        &&& !after.completed@.contains(item.work_index)
        &&& position_ok(pred.tree, item.stack@, item.key@)
    } by {
        let x = list[i].work_index;
        lemma_latest_some(list, i);
        if x != w {
            assert(latest(list, x) == latest(earlier, x));
            lemma_latest_none(earlier, x);
            let all = work_indices(earlier);
            let k = choose|k: int| 0 <= k < all.len() && all[k] == x;
            lemma_latest_some(earlier, k);
            assert(earlier[k].work_index == x);
        }
    }
}

impl State {
    /// The count that a leaf has to reach now to matter: the highest count that the threads share
    /// at this moment. It is never below the count that the search started with, nor above the one
    /// that it will end with.
    fn shared_bound(&self, ctx: &ParallelSearchCtx) -> (bound: usize)
        ensures
            exists|shared: ParallelShared| #[trigger]
                ctx.shared.inv(shared) && bound == shared.results.max_count,
            ctx.shared.pred().start.max <= bound <= ctx.shared.pred().goal(),
    {
        let handle = ctx.shared.acquire_read();
        let shared = handle.borrow();
        assert(ctx.shared.inv(*shared));
        let bound: usize = shared.results.max_count;
        handle.release_read();
        bound
    }

    /// Makes a leaf of a job known to all threads.
    fn record_shared(&self, count: usize, key: &Vec<usize>, ctx: &ParallelSearchCtx)
        requires
            ctx.serves(*self),
            listed(ctx.todo(), key@),
            count == ctx.shared.pred().tree.count(key@),
    {
        let ghost pred = ctx.shared.pred();
        let (mut shared, handle) = ctx.shared.acquire_write();
        let ghost before = shared;
        proof {
            lemma_record_sound(pred, shared.results@, key@);
        }
        shared.results.record_best(self.target, count, key);
        proof {
            lemma_still_nothing_lost(pred, before, shared);
        }
        handle.release_write(shared);
    }

    /// Makes the findings and the position of a job known to all threads.
    fn store_parallel_progress(&self, job: &ActiveJob, ctx: &ParallelSearchCtx)
        requires
            ctx.serves(*self),
            job.wf(ctx),
            ctx.split_depth < ctx.depth,
            ctx.todo().len() <= usize::MAX,
    {
        let ghost pred = ctx.shared.pred();
        let ghost w = job.index;
        let (mut shared, handle) = ctx.shared.acquire_write();
        let ghost start = shared;
        proof {
            lemma_absorb_sound(pred, shared.results@, job.own@, w as int);
        }
        shared.note_position(self.target, job);
        proof {
            let found = ParallelShared { progress: start.progress, ..shared };
            lemma_still_nothing_lost(pred, start, found);
            if start.progress.completed@.contains(w) {
                assert(latest(shared.progress.in_progress@, w) == latest(
                    start.progress.in_progress@,
                    w,
                ));
                lemma_not_in_progress(pred, start.progress, w);
                lemma_same_progress(pred, found, shared);
            } else {
                lemma_moved_on(pred, found, shared, w);
            }
            lemma_progress_ok(pred, start.progress, shared.progress, w);
        }
        handle.release_write(shared);
    }

    /// Makes the findings of a job known to all threads and notes that it is completed.
    fn finish_parallel_job(&self, job: &ActiveJob, ctx: &ParallelSearchCtx)
        requires
            ctx.serves(*self),
            job.wf(ctx),
            job.walk.stack@.len() == 0,
            ctx.todo().len() <= usize::MAX,
    {
        let ghost pred = ctx.shared.pred();
        let ghost w = job.index;
        let (mut shared, handle) = ctx.shared.acquire_write();
        let ghost start = shared;
        proof {
            lemma_absorb_sound(pred, shared.results@, job.own@, w as int);
        }
        shared.note_completed(self.target, job);
        proof {
            let found = ParallelShared { progress: start.progress, ..shared };
            lemma_still_nothing_lost(pred, start, found);
            lemma_moved_on(pred, found, shared, w);
            lemma_progress_ok(pred, start.progress, shared.progress, w);
        }
        handle.release_write(shared);
    }

    /// Starts a job: goes to its position, and looks at its node where that is a leaf.
    pub fn start_parallel_job(&self, job: ParallelJob, ctx: &ParallelSearchCtx) -> (active:
        ActiveJob)
        requires
            self.ready(ctx.depth),
            ctx.serves(*self),
            ctx.todo().len() <= usize::MAX,
            job.fits(ctx),
        ensures
            active.wf(ctx),
            active.index == job.index,
            active.local_nodes == 0,
            match job.position() {
                Some((stack, key)) => {
                    &&& active.walk.key@ == key
                    &&& active.walk.stack@ == if ctx.split_depth < ctx.depth {
                        stack
                    } else {
                        seq![]
                    }
                    &&& active.own@ == Tally::empty()
                },
                None => {
                    &&& active.walk.key@ == job.work_item.key@
                    &&& active.walk.stack@ == if ctx.split_depth < ctx.depth {
                        seq![
                            Frame {
                                level: ctx.split_depth,
                                next_idx: self.primes@[ctx.split_depth as int],
                            },
                        ]
                    } else {
                        seq![]
                    }
                    &&& active.own@ == if ctx.split_depth < ctx.depth {
                        Tally::empty()
                    } else {
                        Tally::empty().record_once(
                            self.target,
                            self.tree(ctx.depth).count(job.work_item.key@),
                            job.work_item.key@,
                        )
                    }
                },
            },
    {
        let ghost pred = ctx.shared.pred();
        let ghost tree = pred.tree;
        let depth: usize = ctx.depth;
        let index: usize = job.index;
        let mut own = SharedResults::default();
        let at_leaves: bool = ctx.split_depth == depth;
        let walk = match job.resume {
            Some((saved_stack, saved_key)) => {
                let masks = self.rebuild_masks(depth, &saved_key);
                assert forall|i: int| 0 <= i <= depth implies (#[trigger] masks@[i])@.len()
                    == tree.base.len() by {}
                let stack: Vec<Frame> = if at_leaves {
                    Vec::new()
                } else {
                    saved_stack
                };
                Walk::new(stack, saved_key, masks, Ghost(tree))
            },
            None => {
                let key = job.work_item.key;
                let base_mask = job.work_item.base_mask;
                let mut stack: Vec<Frame> = Vec::new();
                if at_leaves {
                    let count: usize = base_mask.count_ones();
                    proof {
                        assert(tree.leaves_of(key@) =~= seq![key@]);
                        assert(tree.leaves_of(key@)[0] == key@);
                        assert(pred.todo[index as int].contains(key@));
                        lemma_record_own(pred, own@, index as int, key@);
                    }
                    own.record_best(self.target, count, &key);
                    self.record_shared(count, &key, ctx);
                } else {
                    let level: usize = ctx.split_depth;
                    assert(tree.fans[level as int] <= tree.rows[level as int].len());
                    stack.push(Frame { level, next_idx: self.primes[level] });
                    proof {
                        assert(key@.take(level as int) =~= key@);
                        assert(stack@.drop_last() =~= Seq::<Frame>::empty());
                        assert(remaining(tree, stack@.drop_last(), key@) =~= Seq::<
                            Seq<usize>,
                        >::empty());
                        assert(remaining(tree, stack@, key@) =~= tree.leaves_of(key@));
                    }
                }
                let mut masks = vec![self.zero_mask.clone();depth + 1];
                masks[ctx.split_depth] = base_mask;
                proof {
                    assert(key@.take(ctx.split_depth as int) =~= key@);
                }
                Walk::new(stack, key, masks, Ghost(tree))
            },
        };
        let active = ActiveJob { index, walk, own, local_nodes: 0 };
        if !at_leaves {
            self.store_parallel_progress(&active, ctx);
        }
        active
    }

    /// Runs a job until its nodes reach the interval (`false`) or the job is completed (`true`).
    pub fn run_parallel_job(&self, job: &mut ActiveJob, ctx: &ParallelSearchCtx) -> (done: bool)
        requires
            self.ready(ctx.depth),
            ctx.serves(*self),
            ctx.todo().len() <= usize::MAX,
            old(job).wf(ctx),
        ensures
            final(job).wf(ctx),
            final(job).index == old(job).index,
            exists|bounds: Seq<nat>| #[trigger]
                ActiveJob::ran(
                    *old(job),
                    *final(job),
                    ctx,
                    self.checkpoint_interval,
                    bounds,
                    done,
                ),
            !done ==> nodes_ahead(ctx.shared.pred().tree, final(job).walk.stack@) < nodes_ahead(
                ctx.shared.pred().tree,
                old(job).walk.stack@,
            ),
    {
        let ghost pred = ctx.shared.pred();
        let ghost tree = pred.tree;
        let ghost w = job.index as int;
        let ghost start = *job;
        let ghost mut bounds: Seq<nat> = Seq::empty();
        assert(counted(start.local_nodes, 0) == start.local_nodes);
        loop
            invariant
                start == *old(job),
                self.ready(ctx.depth),
                ctx.serves(*self),
                ctx.todo().len() <= usize::MAX,
                pred == ctx.shared.pred(),
                tree == pred.tree,
                w == job.index,
                job.index == start.index,
                job.wf(ctx),
                nodes_ahead(tree, job.walk.stack@) <= nodes_ahead(tree, start.walk.stack@),
                start.trail().steps(tree, pred.target, bounds) == Some(job.trail()),
                job.local_nodes == counted(start.local_nodes, bounds.len()),
                forall|i: int|
                    0 <= i < bounds.len() ==> pred.start.max <= #[trigger] bounds[i]
                        <= pred.goal(),
                forall|i: nat|
                    1 <= i <= bounds.len() ==> #[trigger] counted(start.local_nodes, i)
                        != self.checkpoint_interval,
            decreases nodes_ahead(tree, job.walk.stack@),
        {
            let ghost ahead = remaining(tree, job.walk.stack@, job.walk.key@);
            let ghost own_before = job.own@;
            let ghost trail_before = job.trail();
            let ghost bounds_before = bounds;
            let count: usize = match job.walk.next_node(&self.shift_table, Ghost(tree)) {
                None => {
                    self.finish_parallel_job(job, ctx);
                    job.local_nodes = 0;
                    assert(ActiveJob::ran(
                        start,
                        *job,
                        ctx,
                        self.checkpoint_interval,
                        bounds,
                        true,
                    ));
                    return true;
                },
                Some(count) => count,
            };
            let ghost node = job.walk.key@;
            let ghost rest = remaining(tree, job.walk.stack@, node);
            proof {
                lemma_concat_contains(tree.leaves_of(node), rest);
            }
            job.local_nodes = job.local_nodes.wrapping_add(1);
            let due: bool = job.local_nodes == self.checkpoint_interval;
            let bound: usize = self.shared_bound(ctx);
            proof {
                lemma_counted_next(start.local_nodes, bounds.len());
                bounds = bounds.push(bound as nat);
                assert(bounds.drop_last() =~= bounds_before);
            }
            let hopeless: bool = count < bound && match self.target {
                Some(target) => count < target,
                None => true,
            };
            if hopeless {
                proof {
                    lemma_pruned(pred, job.own@, node, bound as nat);
                }
                job.walk.leave(Ghost(tree));
            } else if job.walk.key.len() >= ctx.depth {
                proof {
                    assert(tree.leaves_of(node)[0] == node);
                    assert(tree.leaves_of(node).contains(node));
                    assert(ahead.contains(node));
                    assert(pred.todo[w].contains(node));
                    lemma_record_own(pred, job.own@, w, node);
                }
                job.own.record_best(self.target, count, &job.walk.key);
                self.record_shared(count, &job.walk.key, ctx);
                job.walk.leave(Ghost(tree));
            } else {
                let level: usize = job.walk.key.len();
                assert(tree.fans[level as int] <= tree.rows[level as int].len());
                job.walk.enter(self.primes[level], Ghost(tree));
            }
            proof {
                let now = remaining(tree, job.walk.stack@, job.walk.key@);
                let (settled, path) = settle(trail_before.stack, trail_before.key);
                assert(node.drop_last() =~= path);
                assert(trail_before.step(tree, pred.target, bound as nat) == Some(job.trail()));
                assert forall|leaf: Seq<usize>| #[trigger] pred.todo[w].contains(leaf) implies
                    now.contains(leaf) || pred.accounted(job.own@, leaf) by {
                    assert(ahead.contains(leaf) || pred.accounted(own_before, leaf));
                    if tree.leaves_of(node).contains(leaf) && node.len() >= tree.depth {
                        assert(leaf == node);
                    }
                }
                assert forall|leaf: Seq<usize>| #[trigger] now.contains(leaf) implies
                    pred.todo[w].contains(leaf) by {
                    assert(ahead.contains(leaf));
                }
            }
            if due {
                self.store_parallel_progress(job, ctx);
                job.local_nodes = 0;
                assert(ActiveJob::ran(
                    start,
                    *job,
                    ctx,
                    self.checkpoint_interval,
                    bounds,
                    false,
                ));
                return false;
            }
        }
    }
}

/// A job pauses when the nodes that it has visited since its last pause are as many as the interval,
/// and is completed with fewer otherwise.
pub proof fn law_jobs_pause_after_an_interval(
    before: ActiveJob,
    after: ActiveJob,
    ctx: &ParallelSearchCtx,
    interval: u64,
    bounds: Seq<nat>,
    done: bool,
)
    requires
        ActiveJob::ran(before, after, ctx, interval, bounds, done),
        before.local_nodes < interval,
    ensures
        after.local_nodes == 0,
        !done ==> before.local_nodes + bounds.len() == interval,
        done ==> before.local_nodes + bounds.len() < interval,
        done ==> after.walk.stack@.len() == 0,
{
    let range = 0x1_0000_0000_0000_0000nat;
    let gap = (interval - before.local_nodes) as nat;
    lemma_small_mod(interval as nat, range);
    assert(counted(before.local_nodes, gap) == interval);
    assert(bounds.len() <= gap);
    lemma_small_mod((before.local_nodes + bounds.len()) as nat, range);
    assert(counted(before.local_nodes, bounds.len()) == before.local_nodes + bounds.len());
}

} // verus!
