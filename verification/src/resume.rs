//! Checkpoints of a parallel search.

use vstd::prelude::*;

use crate::checkpoint::{Checkpoint, ParallelInProgress, SearchMode};
use crate::gather::{
    concat, extends, finds_all, jobs_ahead, lemma_concat_lists, lemma_extends_further, listed,
};
use crate::parallel::{ParallelSearchCtx, ParallelShared};
use crate::plan::{lemma_same_lists, out_of_range, overlapping};
use crate::progress::{increasing, latest, lemma_latest_none, lemma_latest_some, work_indices};
use crate::results::{copy_path, copy_paths, paths};
use crate::search::State;
use crate::split::cut_at;
use crate::tree::{hits, lemma_best, Tally};
use crate::walk::position_ok;

verus! {

/// Two lists hold the same positions of the same jobs.
pub open spec fn same_positions(
    a: Seq<ParallelInProgress>,
    b: Seq<ParallelInProgress>,
) -> bool {
    &&& a.len() == b.len()
    &&& forall|i: int|
        0 <= i < a.len() ==> {
            &&& (#[trigger] a[i]).work_index == b[i].work_index
            &&& a[i].stack@ == b[i].stack@
            &&& a[i].key@ == b[i].key@
        }
}

proof fn lemma_same_positions(
    a: Seq<ParallelInProgress>,
    b: Seq<ParallelInProgress>,
    work_index: usize,
)
    requires
        same_positions(a, b),
    ensures
        latest(a, work_index) == latest(b, work_index),
    decreases a.len(),
{
    if a.len() > 0 {
        assert(a.last() == a[a.len() - 1]);
        assert forall|i: int| 0 <= i < a.drop_last().len() implies {
            &&& (#[trigger] a.drop_last()[i]).work_index == b.drop_last()[i].work_index
            &&& a.drop_last()[i].stack@ == b.drop_last()[i].stack@
            &&& a.drop_last()[i].key@ == b.drop_last()[i].key@
        } by {
            assert(a[i].work_index == b[i].work_index);
        }
        lemma_same_positions(a.drop_last(), b.drop_last(), work_index);
    }
}

impl State {
    /// The checkpoint holds what the threads of a search shared at one moment.
    pub open spec fn shared_recorded_in(
        &self,
        ctx: ParallelSearchCtx,
        shared: ParallelShared,
        checkpoint: Checkpoint,
    ) -> bool {
        &&& checkpoint.mode == SearchMode::Parallel
        &&& self.fits_config(checkpoint, ctx.depth)
        &&& checkpoint.split_depth == ctx.split_depth
        &&& checkpoint.stack@.len() == 0
        &&& checkpoint.key@.len() == 0
        &&& checkpoint.tally() == shared.results@
        &&& checkpoint.results == shared.results.results
        &&& checkpoint.target_results == shared.results.target_results
        &&& checkpoint.node_count == shared.node_count
        &&& checkpoint.completed@ == shared.progress.completed@
        &&& same_positions(checkpoint.in_progress@, shared.progress.in_progress@)
    }

    /// A checkpoint is due: always, or only once an interval has passed since the last one.
    pub open spec fn checkpoint_due(&self, shared: ParallelShared, require_interval: bool) -> bool {
        !(require_interval && shared.node_count.saturating_sub(shared.last_checkpoint_nodes)
            < self.checkpoint_interval)
    }

    /// The checkpoint of what the threads share, if one is due.
    pub fn checkpoint_of(
        &self,
        ctx: &ParallelSearchCtx,
        shared: &ParallelShared,
        require_interval: bool,
    ) -> (due: Option<Checkpoint>)
        ensures
            match due {
                Some(checkpoint) => {
                    &&& self.checkpoint_due(*shared, require_interval)
                    &&& self.shared_recorded_in(*ctx, *shared, checkpoint)
                },
                None => !self.checkpoint_due(*shared, require_interval),
            },
            due is Some <==> !require_interval || self.checkpoint_interval == 0
                || shared.node_count - shared.last_checkpoint_nodes >= self.checkpoint_interval,
            due matches Some(c) ==> {
                &&& c.mode == SearchMode::Parallel
                &&& c.depth == ctx.depth
                &&& c.primes@ == self.primes@
                &&& c.cols == self.zero_mask.size()
                &&& c.stack@.len() == 0
                &&& c.key@.len() == 0
                &&& c.max_count == shared.results.max_count
                &&& c.results == shared.results.results
                &&& c.shifts@.len() == shared.results.shifts@.len()
                &&& forall|i: int|
                    0 <= i < c.shifts@.len() ==> (#[trigger] c.shifts@[i])@
                        == shared.results.shifts@[i]@
                &&& c.target_results == shared.results.target_results
                &&& c.target_shifts@.len() == shared.results.target_shifts@.len()
                &&& forall|i: int|
                    0 <= i < c.target_shifts@.len() ==> (#[trigger] c.target_shifts@[i])@
                        == shared.results.target_shifts@[i]@
                &&& c.node_count == shared.node_count
                &&& c.split_depth == ctx.split_depth
                &&& c.completed@ == shared.progress.completed@
                &&& c.in_progress@.len() == shared.progress.in_progress@.len()
                &&& forall|i: int|
                    0 <= i < c.in_progress@.len() ==> {
                        &&& (#[trigger] c.in_progress@[i]).work_index
                            == shared.progress.in_progress@[i].work_index
                        &&& c.in_progress@[i].stack@ == shared.progress.in_progress@[i].stack@
                        &&& c.in_progress@[i].key@ == shared.progress.in_progress@[i].key@
                    }
            },
    {
        if require_interval && shared.node_count.saturating_sub(shared.last_checkpoint_nodes)
            < self.checkpoint_interval {
            return None;
        }
        let mut in_progress: Vec<ParallelInProgress> = Vec::new();
        let mut i: usize = 0;
        while i < shared.progress.in_progress.len()
            invariant
                0 <= i <= shared.progress.in_progress@.len(),
                same_positions(in_progress@, shared.progress.in_progress@.take(i as int)),
            decreases shared.progress.in_progress@.len() - i,
        {
            let ghost before = in_progress@;
            let ghost list = shared.progress.in_progress@;
            let item = shared.progress.in_progress[i].clone();
            in_progress.push(item);
            proof {
                assert forall|k: int| 0 <= k < in_progress@.len() implies {
                    &&& (#[trigger] in_progress@[k]).work_index == list.take(
                        i as int + 1,
                    )[k].work_index
                    &&& in_progress@[k].stack@ == list.take(i as int + 1)[k].stack@
                    &&& in_progress@[k].key@ == list.take(i as int + 1)[k].key@
                } by {
                    if k < before.len() {
                        assert(before[k].work_index == list.take(i as int)[k].work_index);
                    }
                }
            }
            i = i + 1;
        }
        assert(shared.progress.in_progress@.take(i as int) =~= shared.progress.in_progress@);
        Some(
            Checkpoint {
                mode: SearchMode::Parallel,
                depth: ctx.depth,
                primes: copy_path(&self.primes),
                cols: self.zero_mask.size(),
                stack: Vec::new(),
                key: Vec::new(),
                max_count: shared.results.max_count,
                results: shared.results.results,
                shifts: copy_paths(&shared.results.shifts),
                target_results: shared.results.target_results,
                target_shifts: copy_paths(&shared.results.target_shifts),
                node_count: shared.node_count,
                split_depth: ctx.split_depth,
                completed: copy_path(&shared.progress.completed),
                in_progress,
            },
        )
    }

    /// The checkpoint of a parallel search at this moment, if one is due.
    pub fn make_parallel_checkpoint(&self, ctx: &ParallelSearchCtx, require_interval: bool) -> (due:
        Option<Checkpoint>)
        ensures
            !require_interval ==> due is Some,
            exists|shared: ParallelShared|
                {
                    &&& #[trigger] ctx.shared.inv(shared)
                    &&& match due {
                        Some(checkpoint) => {
                            &&& self.checkpoint_due(shared, require_interval)
                            &&& self.shared_recorded_in(*ctx, shared, checkpoint)
                        },
                        None => !self.checkpoint_due(shared, require_interval),
                    }
                },
    {
        let handle = ctx.shared.acquire_read();
        let shared = handle.borrow();
        assert(ctx.shared.inv(*shared));
        let due = self.checkpoint_of(ctx, shared, require_interval);
        handle.release_read();
        due
    }
}

impl ParallelShared {
    /// Takes up that a checkpoint has been written after `nodes` nodes.
    pub fn note_written(&mut self, nodes: u64)
        ensures
            final(self).last_checkpoint_nodes == nodes,
            final(self).results == old(self).results,
            final(self).node_count == old(self).node_count,
            final(self).progress == old(self).progress,
    {
        self.last_checkpoint_nodes = nodes;
    }
}

impl ParallelSearchCtx {
    /// Notes that a checkpoint has been written after `nodes` nodes.
    pub fn mark_checkpoint(&self, nodes: u64) {
        let (mut shared, handle) = self.shared.acquire_write();
        let ghost before = shared;
        shared.note_written(nodes);
        assert(shared.progress == before.progress);
        assert(self.shared.pred().nothing_lost(shared));
        handle.release_write(shared);
    }
}

/// Every checkpoint that a parallel search makes on its way lists its jobs in increasing order, can
/// be taken up again, and leads to the same result as the search itself.
pub proof fn law_parallel_checkpoint_loses_nothing(
    state: State,
    ctx: ParallelSearchCtx,
    shared: ParallelShared,
    checkpoint: Checkpoint,
)
    requires
        state.ready(ctx.depth),
        ctx.serves(state),
        ctx.shared.inv(shared),
        state.shared_recorded_in(ctx, shared, checkpoint),
    ensures
        increasing(checkpoint.completed@),
        increasing(work_indices(checkpoint.in_progress@)),
        state.refuses(ctx.depth, Some(checkpoint)) is None,
        state.can_plan(ctx.depth, Some(checkpoint)),
        forall|found: Tally| #[trigger]
            finds_all(
                state.tree(ctx.depth),
                state.target,
                checkpoint.tally(),
                concat(
                    state.leaves_ahead(ctx.depth, checkpoint.split_depth, Some(checkpoint)),
                ),
                found,
            ) ==> finds_all(
                state.tree(ctx.depth),
                state.target,
                ctx.shared.pred().start,
                concat(ctx.todo()),
                found,
            ),
{
    let pred = ctx.shared.pred();
    let tree = state.tree(ctx.depth);
    let split = ctx.split_depth as nat;
    let list = shared.progress.in_progress@;
    let completed = shared.progress.completed@;
    let n = state.job_count(ctx.split_depth);
    assert(work_indices(checkpoint.in_progress@) =~= work_indices(list)) by {
        assert forall|i: int| 0 <= i < list.len() implies work_indices(checkpoint.in_progress@)[i]
            == work_indices(list)[i] by {
            assert(checkpoint.in_progress@[i].work_index == list[i].work_index);
        }
    }
    assert(cut_at(tree, split) == state.tree(ctx.split_depth));
    assert(n == pred.todo.len());
    assert forall|w: usize| #[trigger] latest(checkpoint.in_progress@, w) == latest(list, w) by {
        lemma_same_positions(checkpoint.in_progress@, list, w);
    }
    lemma_same_lists(
        tree,
        split,
        n,
        checkpoint.completed@,
        checkpoint.in_progress@,
        completed,
        list,
    );
    assert forall|w: usize| #[trigger] latest(list, w) is Some implies {
        &&& w < n
        &&& !completed.contains(w)
        &&& latest(list, w) matches Some((stack, key)) && position_ok(tree, stack, key)
    } by {
        lemma_latest_none(list, w);
        let all = work_indices(list);
        let i = choose|i: int| 0 <= i < all.len() && all[i] == w;
        assert(list[i].work_index == w);
        lemma_latest_some(list, i);
    }
    assert(!overlapping(n, completed, list));
    assert(!out_of_range(n, list));
    assert(paths(checkpoint.shifts@).len() == paths(shared.results.shifts@).len());
    assert(paths(checkpoint.target_shifts@).len() == paths(shared.results.target_shifts@).len());
    assert(checkpoint.counters_fit());
    assert forall|w: usize|
        #![trigger latest(checkpoint.in_progress@, w)]
        latest(checkpoint.in_progress@, w) matches Some((stack, key)) ==> position_ok(
            tree,
            stack,
            key,
        ) by {
        assert(latest(list, w) == latest(checkpoint.in_progress@, w));
    }
    let ahead = jobs_ahead(tree, split, completed, list);
    assert(state.leaves_ahead(ctx.depth, checkpoint.split_depth, Some(checkpoint)) == ahead);
    assert forall|found: Tally| #[trigger]
        finds_all(tree, state.target, checkpoint.tally(), concat(ahead), found) implies finds_all(
        tree,
        state.target,
        pred.start,
        concat(pred.todo),
        found,
    ) by {
        lemma_resumed_result(ctx, shared, ahead, found);
    }
}

proof fn lemma_resumed_result(
    ctx: ParallelSearchCtx,
    shared: ParallelShared,
    ahead: Seq<Seq<Seq<usize>>>,
    found: Tally,
)
    requires
        ctx.shared.inv(shared),
        ahead == jobs_ahead(
            ctx.shared.pred().tree,
            ctx.shared.pred().split,
            shared.progress.completed@,
            shared.progress.in_progress@,
        ),
        finds_all(
            ctx.shared.pred().tree,
            ctx.shared.pred().target,
            shared.results@,
            concat(ahead),
            found,
        ),
    ensures
        finds_all(
            ctx.shared.pred().tree,
            ctx.shared.pred().target,
            ctx.shared.pred().start,
            concat(ctx.shared.pred().todo),
            found,
        ),
{
    let pred = ctx.shared.pred();
    let tree = pred.tree;
    let left = concat(ahead);
    let all = concat(pred.todo);
    let now = shared.results@;
    lemma_best(tree, now.max, left);
    lemma_best(tree, pred.start.max, all);
    assert forall|leaf: Seq<usize>| #[trigger] left.contains(leaf) implies all.contains(leaf) by {
        lemma_concat_lists(ahead, leaf);
        lemma_concat_lists(pred.todo, leaf);
        let w = choose|w: int| 0 <= w < ahead.len() && (#[trigger] ahead[w]).contains(leaf);
        assert(pred.todo[w].contains(leaf));
    }
    assert forall|leaf: Seq<usize>| #[trigger] all.contains(leaf) implies left.contains(leaf)
        || pred.accounted(now, leaf) by {
        lemma_concat_lists(ahead, leaf);
        lemma_concat_lists(pred.todo, leaf);
        let w = choose|w: int|
            0 <= w < pred.todo.len() && (#[trigger] pred.todo[w]).contains(leaf);
        if ahead[w].contains(leaf) {
            assert(listed(ahead, leaf));
        }
    }
    assert(found.max == pred.goal()) by {
        if tree.best(now.max, left) != now.max {
            let leaf = choose|leaf: Seq<usize>| #[trigger]
                left.contains(leaf) && tree.count(leaf) == tree.best(now.max, left);
            assert(all.contains(leaf));
        }
        if pred.goal() != pred.start.max {
            let leaf = choose|leaf: Seq<usize>| #[trigger]
                all.contains(leaf) && tree.count(leaf) == pred.goal();
            assert(left.contains(leaf) || pred.accounted(now, leaf));
        }
    }
    if found.max == pred.start.max {
        lemma_extends_further(pred.start.shifts, now.shifts, found.shifts);
    }
    lemma_extends_further(pred.start.target_shifts, now.target_shifts, found.target_shifts);
    assert forall|leaf: Seq<usize>| #[trigger] found.shifts.contains(leaf) <==> {
        ||| pred.start.max == found.max && pred.start.shifts.contains(leaf)
        ||| all.contains(leaf) && tree.count(leaf) == found.max
    } by {
        lemma_concat_lists(pred.todo, leaf);
        if now.max == found.max && now.shifts.contains(leaf) {
            assert(pred.start.max == found.max && pred.start.shifts.contains(leaf) || listed(
                pred.todo,
                leaf,
            ));
        }
        if left.contains(leaf) {
            assert(all.contains(leaf));
        }
        if all.contains(leaf) && tree.count(leaf) == found.max {
            assert(left.contains(leaf) || pred.accounted(now, leaf));
        }
    }
    assert forall|leaf: Seq<usize>| #[trigger] found.target_shifts.contains(leaf) <==> {
        ||| pred.start.target_shifts.contains(leaf)
        ||| all.contains(leaf) && hits(pred.target, tree.count(leaf))
    } by {
        lemma_concat_lists(pred.todo, leaf);
        if now.target_shifts.contains(leaf) {
            assert(pred.start.target_shifts.contains(leaf) || listed(pred.todo, leaf));
        }
        if left.contains(leaf) {
            assert(all.contains(leaf));
        }
        if all.contains(leaf) && hits(pred.target, tree.count(leaf)) {
            assert(left.contains(leaf) || pred.accounted(now, leaf));
        }
    }
}

/// A parallel search that goes on from a checkpoint with every job completed finds what the
/// checkpoint holds, in the same order.
pub proof fn law_completed_jobs_are_not_searched_again(
    state: State,
    depth: usize,
    checkpoint: Checkpoint,
    found: Tally,
)
    requires
        checkpoint.in_progress@.len() == 0,
        forall|w: usize|
            w < state.job_count(checkpoint.split_depth) ==> #[trigger] checkpoint.completed@.contains(
                w,
            ),
        finds_all(
            state.tree(depth),
            state.target,
            checkpoint.tally(),
            concat(state.leaves_ahead(depth, checkpoint.split_depth, Some(checkpoint))),
            found,
        ),
    ensures
        found == checkpoint.tally(),
{
    let tree = state.tree(depth);
    let from = checkpoint.tally();
    let lists = state.leaves_ahead(depth, checkpoint.split_depth, Some(checkpoint));
    let leaves = concat(lists);
    assert(cut_at(tree, checkpoint.split_depth as nat) == state.tree(checkpoint.split_depth));
    assert forall|w: int| 0 <= w < lists.len() implies (#[trigger] lists[w]).len() == 0 by {
        assert(latest(checkpoint.in_progress@, w as usize) is None);
        assert(checkpoint.completed@.contains(w as usize));
    }
    if leaves.len() > 0 {
        lemma_concat_lists(lists, leaves[0]);
        assert(leaves.contains(leaves[0]));
    }
    lemma_best(tree, from.max, leaves);
    lemma_no_more(from.shifts, found.shifts);
    lemma_no_more(from.target_shifts, found.target_shifts);
}

proof fn lemma_no_more(list: Seq<Seq<usize>>, longer: Seq<Seq<usize>>)
    requires
        extends(list, longer),
        forall|leaf: Seq<usize>| #[trigger] longer.contains(leaf) ==> list.contains(leaf),
    ensures
        longer == list,
{
    if longer.len() > list.len() {
        assert(longer.contains(longer[list.len() as int]));
    }
    assert(longer =~= longer.take(list.len() as int));
}

} // verus!
