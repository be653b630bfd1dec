//! What searches find, in terms of primes, columns and positions.

use vstd::prelude::*;

use crate::bits::{law_ones_is_how_often_true_occurs, lemma_ones_padded};
use crate::checkpoint::{Checkpoint, Frame};
use crate::gather::{
    concat, extends, finds_all, law_split_covers_every_leaf, lemma_concat_lists,
    lemma_leaves_of_contains, lemma_same_leaves,
};
use crate::parallel::{ParallelSearchCtx, ParallelShared};
use crate::progress::latest;
use crate::results::{paths, SharedResults};
use crate::resume::law_parallel_checkpoint_loses_nothing;
use crate::search::State;
use crate::split::cut_at;
use crate::tree::{
    law_search_covers_every_leaf, law_search_finds_every_best_leaf, lemma_best, lemma_counting_to,
    lemma_leaves_below_contains, searched_before, Tally, Tree,
};
use crate::walk::{position_ok, remaining};

verus! {

/// A state whose root has the first `cols` columns open, and whose first levels have a mask for each
/// shift, all of one length, can be searched down to those levels.
pub proof fn law_full_table_makes_state_ready(state: State, depth: usize)
    requires
        depth < usize::MAX,
        depth <= state.primes@.len(),
        depth <= state.shift_table@.len(),
        state.zero_mask.wf(),
        forall|l: int|
            0 <= l < depth ==> (#[trigger] state.shift_table@[l])@.len() >= state.primes@[l],
        forall|l: int, k: int|
            0 <= l < state.shift_table@.len() && 0 <= k < state.shift_table@[l]@.len() ==> {
                &&& (#[trigger] state.shift_table@[l]@[k]).wf()
                &&& state.shift_table@[l]@[k]@.len() == state.zero_mask@.len()
            },
    ensures
        state.ready(depth),
{
    let tree = state.tree(depth);
    let table = state.shift_table@;
    assert forall|l: int| 0 <= l < tree.depth implies #[trigger] tree.fans[l] <= tree.rows[l].len() by {
        assert(table[l]@.len() >= state.primes@[l]);
    }
    assert forall|l: int, s: int|
        0 <= l < tree.depth && 0 <= s < tree.rows[l].len() implies (#[trigger] tree.rows[l][s]).len()
        == tree.base.len() by {
        assert(tree.rows[l][s] == table[l]@[s]@);
    }
}

/// A path counts the columns that are open at the root and in the mask of each of its shifts.
pub proof fn law_path_counts_commonly_open_columns(state: State, depth: usize, path: Seq<usize>)
    requires
        path.len() <= state.shift_table@.len(),
        forall|l: int| 0 <= l < path.len() ==> #[trigger] path[l] < state.shift_table@[l]@.len(),
    ensures
        state.tree(depth).count(path) == Seq::new(
            state.zero_mask@.len(),
            |c: int|
                state.zero_mask@[c] && forall|l: int|
                    0 <= l < path.len() ==> state.shift_table@[l]@[#[trigger] path[l] as int]@[c],
        ).to_multiset().count(true),
{
    let direct = Seq::new(
        state.zero_mask@.len(),
        |c: int|
            state.zero_mask@[c] && forall|l: int|
                0 <= l < path.len() ==> state.shift_table@[l]@[#[trigger] path[l] as int]@[c],
    );
    let row = state.tree(depth).row(path);
    assert forall|c: int| 0 <= c < row.len() implies row[c] == direct[c] by {
        state.lemma_row_of(depth, path, c);
    }
    assert(row =~= direct);
    law_ones_is_how_often_true_occurs(row);
}

/// In a search over the shift table of its primes, a path counts the columns whose remainders differ
/// from all its shifts.
pub proof fn law_path_counts_uncovered_columns(
    state: State,
    depth: usize,
    cols: usize,
    path: Seq<usize>,
)
    requires
        path.len() == depth,
        depth <= state.primes@.len(),
        depth <= state.shift_table@.len(),
        cols <= state.zero_mask@.len(),
        forall|i: int|
            0 <= i < state.zero_mask@.len() ==> #[trigger] state.zero_mask@[i] == (i < cols),
        forall|l: int| 0 <= l < depth ==> #[trigger] state.primes@[l] >= 2,
        forall|l: int|
            0 <= l < depth ==> (#[trigger] state.shift_table@[l])@.len() == state.primes@[l],
        forall|l: int, k: int, c: int|
            0 <= l < depth && 0 <= k < state.primes@[l] && 0 <= c < state.zero_mask@.len()
                ==> #[trigger] state.shift_table@[l]@[k]@[c] == (c < cols && c
                % (state.primes@[l] as int) != k),
        forall|l: int| 0 <= l < depth ==> #[trigger] path[l] < state.primes@[l],
    ensures
        state.tree(depth).count(path) == Seq::new(
            cols as nat,
            |c: int|
                forall|l: int|
                    0 <= l < depth ==> c % (state.primes@[l] as int) != #[trigger] path[l],
        ).to_multiset().count(true),
{
    let direct = Seq::new(
        cols as nat,
        |c: int|
            forall|l: int| 0 <= l < depth ==> c % (state.primes@[l] as int) != #[trigger] path[l],
    );
    let row = state.tree(depth).row(path);
    assert forall|l: int| 0 <= l < path.len() implies #[trigger] path[l]
        < state.shift_table@[l]@.len() by {
        assert(state.shift_table@[l]@.len() == state.primes@[l]);
    }
    assert forall|c: int| 0 <= c < row.len() implies row[c] == (c < cols && forall|l: int|
        0 <= l < depth ==> c % (state.primes@[l] as int) != #[trigger] path[l]) by {
        state.lemma_row_of(depth, path, c);
        if row[c] {
            assert forall|l: int| 0 <= l < depth implies c % (state.primes@[l] as int)
                != #[trigger] path[l] by {
                assert(state.shift_table@[l]@[path[l] as int]@[c]);
            }
        }
        if c < cols && forall|l: int|
            0 <= l < depth ==> c % (state.primes@[l] as int) != #[trigger] path[l] {
            assert forall|l: int| 0 <= l < path.len() implies state.shift_table@[l]@[
                #[trigger] path[l] as int
            ]@[c] by {
                assert(c % (state.primes@[l] as int) != path[l]);
            }
        }
    }
    lemma_ones_padded(row, cols as nat);
    assert(row.take(cols as int) =~= direct);
    law_ones_is_how_often_true_occurs(direct);
}

/// A sequential search over the shift table of its primes, with nothing found before, ends with the
/// highest number of uncovered columns of any shift sequence. It lists exactly the sequences that
/// have it, and exactly those that hit the target, each once and in descending order.
pub proof fn law_sequential_search_is_exhaustive(
    before: State,
    after: State,
    depth: usize,
    cols: usize,
    path: Seq<usize>,
)
    requires
        0 < depth <= before.primes@.len(),
        depth <= before.shift_table@.len(),
        cols <= before.zero_mask@.len(),
        forall|i: int|
            0 <= i < before.zero_mask@.len() ==> #[trigger] before.zero_mask@[i] == (i < cols),
        forall|l: int| 0 <= l < depth ==> #[trigger] before.primes@[l] >= 2,
        forall|l: int|
            0 <= l < depth ==> (#[trigger] before.shift_table@[l])@.len() == before.primes@[l],
        forall|l: int, k: int|
            0 <= l < depth && 0 <= k < before.primes@[l] ==> (
            #[trigger] before.shift_table@[l]@[k])@.len() == before.zero_mask@.len(),
        forall|l: int, k: int, c: int|
            0 <= l < depth && 0 <= k < before.primes@[l] && 0 <= c < before.zero_mask@.len()
                ==> #[trigger] before.shift_table@[l]@[k]@[c] == (c < cols && c
                % (before.primes@[l] as int) != k),
        before.max_count == 0,
        before.shifts@.len() == 0,
        before.target_shifts@.len() == 0,
        after.tally() == before.tree(depth).summary(
            before.target,
            before.tally(),
            before.tree(depth).leaves_of(Seq::empty()),
        ),
    ensures
        path.len() == depth && (forall|l: int|
            0 <= l < depth ==> #[trigger] path[l] < before.primes@[l]) ==> ({
            let count = Seq::new(
                cols as nat,
                |c: int|
                    forall|l: int|
                        0 <= l < depth ==> c % (before.primes@[l] as int) != #[trigger] path[l],
            ).to_multiset().count(true);
            &&& count <= after.max_count
            &&& count == after.max_count <==> exists|i: int|
                0 <= i < after.shifts@.len() && (#[trigger] after.shifts@[i])@ == path
            &&& (before.target matches Some(t) && count == t) <==> exists|i: int|
                0 <= i < after.target_shifts@.len() && (#[trigger] after.target_shifts@[i])@
                    == path
        }),
        after.shifts@.len() > 0,
        forall|i: int|
            0 <= i < after.shifts@.len() ==> (#[trigger] after.shifts@[i])@.len() == depth,
        forall|i: int, l: int|
            0 <= i < after.shifts@.len() && 0 <= l < depth ==> #[trigger] after.shifts@[i]@[l]
                < before.primes@[l],
        forall|i: int|
            0 <= i < after.target_shifts@.len() ==> (#[trigger] after.target_shifts@[i])@.len()
                == depth,
        forall|i: int, j: int|
            0 <= i < j < after.shifts@.len() ==> searched_before(
                (#[trigger] after.shifts@[i])@,
                (#[trigger] after.shifts@[j])@,
            ),
        forall|i: int, j: int|
            0 <= i < j < after.target_shifts@.len() ==> searched_before(
                (#[trigger] after.target_shifts@[i])@,
                (#[trigger] after.target_shifts@[j])@,
            ),
{
    let tree = before.tree(depth);
    let found = after.tally();
    lemma_tree_of_table(before, depth, cols);
    assert(before.tally() == Tally::empty()) by {
        assert(before.tally().shifts =~= Tally::empty().shifts);
        assert(before.tally().target_shifts =~= Tally::empty().target_shifts);
    }
    law_search_finds_every_best_leaf(tree, before.target);
    lemma_listed_paths(after.shifts@);
    lemma_listed_paths(after.target_shifts@);
    if path.len() == depth && (forall|l: int|
        0 <= l < depth ==> #[trigger] path[l] < before.primes@[l]) {
        assert(tree.is_leaf(path));
        law_path_counts_uncovered_columns(before, depth, cols, path);
        assert(found.shifts.contains(path) <==> tree.count(path) == found.max);
        assert(found.target_shifts.contains(path) <==> (before.target matches Some(t)
            && tree.count(path) == t));
    }
    let zeros = Seq::new(depth as nat, |l: int| 0usize);
    assert(tree.is_leaf(zeros));
    assert(paths(after.shifts@).len() == after.shifts@.len());
    assert forall|i: int| 0 <= i < after.shifts@.len() implies tree.is_leaf(
        (#[trigger] after.shifts@[i])@,
    ) by {
        assert(found.shifts[i] == after.shifts@[i]@);
        assert(found.shifts.contains(after.shifts@[i]@));
    }
    assert forall|i: int, l: int|
        0 <= i < after.shifts@.len() && 0 <= l < depth implies #[trigger] after.shifts@[i]@[l]
        < before.primes@[l] by {
        assert(tree.is_leaf(after.shifts@[i]@));
    }
    assert forall|i: int| 0 <= i < after.target_shifts@.len() implies tree.is_leaf(
        (#[trigger] after.target_shifts@[i])@,
    ) by {
        assert(found.target_shifts[i] == after.target_shifts@[i]@);
        assert(found.target_shifts.contains(after.target_shifts@[i]@));
    }
    assert forall|i: int, j: int| 0 <= i < j < after.shifts@.len() implies searched_before(
        (#[trigger] after.shifts@[i])@,
        (#[trigger] after.shifts@[j])@,
    ) by {
        assert(searched_before(found.shifts[i], found.shifts[j]));
    }
    assert forall|i: int, j: int| 0 <= i < j < after.target_shifts@.len() implies searched_before(
        (#[trigger] after.target_shifts@[i])@,
        (#[trigger] after.target_shifts@[j])@,
    ) by {
        assert(searched_before(found.target_shifts[i], found.target_shifts[j]));
    }
}

proof fn lemma_listed_paths(list: Seq<Vec<usize>>)
    ensures
        forall|path: Seq<usize>| #[trigger]
            paths(list).contains(path) <==> exists|i: int|
                0 <= i < list.len() && (#[trigger] list[i])@ == path,
{
    assert forall|path: Seq<usize>| #[trigger] paths(list).contains(path) <==> exists|i: int|
        0 <= i < list.len() && (#[trigger] list[i])@ == path by {
        if paths(list).contains(path) {
            let i = choose|i: int| 0 <= i < paths(list).len() && paths(list)[i] == path;
            assert(list[i]@ == path);
        }
        if exists|i: int| 0 <= i < list.len() && (#[trigger] list[i])@ == path {
            let i = choose|i: int| 0 <= i < list.len() && (#[trigger] list[i])@ == path;
            assert(paths(list)[i] == path);
        }
    }
}

proof fn lemma_tree_of_table(state: State, depth: usize, cols: usize)
    requires
        depth <= state.primes@.len(),
        depth <= state.shift_table@.len(),
        forall|l: int|
            0 <= l < depth ==> (#[trigger] state.shift_table@[l])@.len() == state.primes@[l],
        forall|l: int, k: int|
            0 <= l < depth && 0 <= k < state.primes@[l] ==> (
            #[trigger] state.shift_table@[l]@[k])@.len() == state.zero_mask@.len(),
    ensures
        state.tree(depth).wf(),
{
    let tree = state.tree(depth);
    assert forall|l: int| 0 <= l < tree.depth implies #[trigger] tree.fans[l] <= tree.rows[l].len() by {
        assert(state.shift_table@[l]@.len() == state.primes@[l]);
    }
    assert forall|l: int, s: int|
        0 <= l < tree.depth && 0 <= s < tree.rows[l].len() implies (#[trigger] tree.rows[l][s]).len()
        == tree.base.len() by {
        assert(state.shift_table@[l]@.len() == state.primes@[l]);
        assert(tree.rows[l][s] == state.shift_table@[l]@[s]@);
    }
}

/// A parallel search over the shift table of its primes, without a checkpoint, ends with the highest
/// number of uncovered columns of any shift sequence. It lists exactly the sequences that have it,
/// and exactly those that hit the target, each once.
pub proof fn law_parallel_search_is_exhaustive(
    state: State,
    found: SharedResults,
    depth: usize,
    cols: usize,
    path: Seq<usize>,
)
    requires
        0 < depth <= state.primes@.len(),
        depth <= state.shift_table@.len(),
        cols <= state.zero_mask@.len(),
        forall|i: int|
            0 <= i < state.zero_mask@.len() ==> #[trigger] state.zero_mask@[i] == (i < cols),
        forall|l: int| 0 <= l < depth ==> #[trigger] state.primes@[l] >= 2,
        forall|l: int|
            0 <= l < depth ==> (#[trigger] state.shift_table@[l])@.len() == state.primes@[l],
        forall|l: int, k: int|
            0 <= l < depth && 0 <= k < state.primes@[l] ==> (
            #[trigger] state.shift_table@[l]@[k])@.len() == state.zero_mask@.len(),
        forall|l: int, k: int, c: int|
            0 <= l < depth && 0 <= k < state.primes@[l] && 0 <= c < state.zero_mask@.len()
                ==> #[trigger] state.shift_table@[l]@[k]@[c] == (c < cols && c
                % (state.primes@[l] as int) != k),
        found.wf(),
        finds_all(
            state.tree(depth),
            state.target,
            Tally::at_start(None),
            state.tree(depth).leaves_of(Seq::empty()),
            found@,
        ),
    ensures
        path.len() == depth && (forall|l: int|
            0 <= l < depth ==> #[trigger] path[l] < state.primes@[l]) ==> ({
            let count = Seq::new(
                cols as nat,
                |c: int|
                    forall|l: int|
                        0 <= l < depth ==> c % (state.primes@[l] as int) != #[trigger] path[l],
            ).to_multiset().count(true);
            &&& count <= found.max_count
            &&& count == found.max_count <==> exists|i: int|
                0 <= i < found.shifts@.len() && (#[trigger] found.shifts@[i])@ == path
            &&& (state.target matches Some(t) && count == t) <==> exists|i: int|
                0 <= i < found.target_shifts@.len() && (#[trigger] found.target_shifts@[i])@
                    == path
        }),
        found.shifts@.len() > 0,
        found.results == found.shifts@.len(),
        found.target_results == found.target_shifts@.len(),
        forall|i: int|
            0 <= i < found.shifts@.len() ==> (#[trigger] found.shifts@[i])@.len() == depth,
        forall|i: int, l: int|
            0 <= i < found.shifts@.len() && 0 <= l < depth ==> #[trigger] found.shifts@[i]@[l]
                < state.primes@[l],
        forall|i: int|
            0 <= i < found.target_shifts@.len() ==> (#[trigger] found.target_shifts@[i])@.len()
                == depth,
        forall|i: int, j: int|
            0 <= i < j < found.shifts@.len() ==> (#[trigger] found.shifts@[i])@ != (
            #[trigger] found.shifts@[j])@,
        forall|i: int, j: int|
            0 <= i < j < found.target_shifts@.len() ==> (#[trigger] found.target_shifts@[i])@ != (
            #[trigger] found.target_shifts@[j])@,
{
    let tree = state.tree(depth);
    let leaves = tree.leaves_of(Seq::empty());
    lemma_tree_of_table(state, depth, cols);
    law_search_covers_every_leaf(tree);
    lemma_best(tree, 0, leaves);
    lemma_listed_paths(found.shifts@);
    lemma_listed_paths(found.target_shifts@);
    if path.len() == depth && (forall|l: int|
        0 <= l < depth ==> #[trigger] path[l] < state.primes@[l]) {
        assert(tree.is_leaf(path));
        assert(leaves.contains(path));
        law_path_counts_uncovered_columns(state, depth, cols, path);
        assert(found@.shifts.contains(path) <==> tree.count(path) == found@.max);
        assert(found@.target_shifts.contains(path) <==> (state.target matches Some(t)
            && tree.count(path) == t));
    }
    let zeros = Seq::new(depth as nat, |l: int| 0usize);
    assert(tree.is_leaf(zeros));
    assert(leaves.contains(zeros));
    assert(exists|leaf: Seq<usize>| #[trigger]
        leaves.contains(leaf) && tree.count(leaf) == found@.max) by {
        if found@.max == 0 {
            assert(tree.count(zeros) == 0);
        }
    }
    let witness = choose|leaf: Seq<usize>| #[trigger]
        leaves.contains(leaf) && tree.count(leaf) == found@.max;
    assert(found@.shifts.contains(witness));
    assert(paths(found.shifts@).len() == found.shifts@.len());
    assert forall|i: int| 0 <= i < found.shifts@.len() implies tree.is_leaf(
        (#[trigger] found.shifts@[i])@,
    ) by {
        assert(found@.shifts[i] == found.shifts@[i]@);
        assert(found@.shifts.contains(found.shifts@[i]@));
        assert(leaves.contains(found.shifts@[i]@));
    }
    assert forall|i: int, l: int|
        0 <= i < found.shifts@.len() && 0 <= l < depth implies #[trigger] found.shifts@[i]@[l]
        < state.primes@[l] by {
        assert(tree.is_leaf(found.shifts@[i]@));
    }
    assert forall|i: int| 0 <= i < found.target_shifts@.len() implies tree.is_leaf(
        (#[trigger] found.target_shifts@[i])@,
    ) by {
        assert(found@.target_shifts[i] == found.target_shifts@[i]@);
        assert(found@.target_shifts.contains(found.target_shifts@[i]@));
        assert(leaves.contains(found.target_shifts@[i]@));
    }
    assert forall|i: int, j: int| 0 <= i < j < found.shifts@.len() implies (
    #[trigger] found.shifts@[i])@ != (#[trigger] found.shifts@[j])@ by {
        assert(found@.shifts[i] != found@.shifts[j]);
    }
    assert forall|i: int, j: int| 0 <= i < j < found.target_shifts@.len() implies (
    #[trigger] found.target_shifts@[i])@ != (#[trigger] found.target_shifts@[j])@ by {
        assert(found@.target_shifts[i] != found@.target_shifts[j]);
    }
}

/// The same holds of a parallel search that goes on from any checkpoint that one without a
/// checkpoint made on its way.
pub proof fn law_resumed_parallel_search_is_exhaustive(
    state: State,
    ctx: ParallelSearchCtx,
    shared: ParallelShared,
    checkpoint: Checkpoint,
    found: SharedResults,
    depth: usize,
    cols: usize,
    path: Seq<usize>,
)
    requires
        0 < depth <= state.primes@.len(),
        depth <= state.shift_table@.len(),
        cols <= state.zero_mask@.len(),
        forall|i: int|
            0 <= i < state.zero_mask@.len() ==> #[trigger] state.zero_mask@[i] == (i < cols),
        forall|l: int| 0 <= l < depth ==> #[trigger] state.primes@[l] >= 2,
        forall|l: int|
            0 <= l < depth ==> (#[trigger] state.shift_table@[l])@.len() == state.primes@[l],
        forall|l: int, k: int|
            0 <= l < depth && 0 <= k < state.primes@[l] ==> (
            #[trigger] state.shift_table@[l]@[k])@.len() == state.zero_mask@.len(),
        forall|l: int, k: int, c: int|
            0 <= l < depth && 0 <= k < state.primes@[l] && 0 <= c < state.zero_mask@.len()
                ==> #[trigger] state.shift_table@[l]@[k]@[c] == (c < cols && c
                % (state.primes@[l] as int) != k),
        state.ready(depth),
        ctx.depth == depth,
        ctx.serves(state),
        ctx.shared.pred().start == Tally::at_start(None),
        ctx.todo() == state.leaves_ahead(depth, ctx.split_depth, None),
        ctx.shared.inv(shared),
        state.shared_recorded_in(ctx, shared, checkpoint),
        found.wf(),
        finds_all(
            state.tree(depth),
            state.target,
            Tally::at_start(Some(checkpoint)),
            concat(state.leaves_ahead(depth, checkpoint.split_depth, Some(checkpoint))),
            found@,
        ),
    ensures
        state.refuses(depth, Some(checkpoint)) is None,
        state.can_plan(depth, Some(checkpoint)),
        path.len() == depth && (forall|l: int|
            0 <= l < depth ==> #[trigger] path[l] < state.primes@[l]) ==> ({
            let count = Seq::new(
                cols as nat,
                |c: int|
                    forall|l: int|
                        0 <= l < depth ==> c % (state.primes@[l] as int) != #[trigger] path[l],
            ).to_multiset().count(true);
            &&& count <= found.max_count
            &&& count == found.max_count <==> exists|i: int|
                0 <= i < found.shifts@.len() && (#[trigger] found.shifts@[i])@ == path
            &&& (state.target matches Some(t) && count == t) <==> exists|i: int|
                0 <= i < found.target_shifts@.len() && (#[trigger] found.target_shifts@[i])@
                    == path
        }),
        found.shifts@.len() > 0,
        found.results == found.shifts@.len(),
        found.target_results == found.target_shifts@.len(),
        forall|i: int|
            0 <= i < found.shifts@.len() ==> (#[trigger] found.shifts@[i])@.len() == depth,
        forall|i: int, l: int|
            0 <= i < found.shifts@.len() && 0 <= l < depth ==> #[trigger] found.shifts@[i]@[l]
                < state.primes@[l],
        forall|i: int|
            0 <= i < found.target_shifts@.len() ==> (#[trigger] found.target_shifts@[i])@.len()
                == depth,
        forall|i: int, j: int|
            0 <= i < j < found.shifts@.len() ==> (#[trigger] found.shifts@[i])@ != (
            #[trigger] found.shifts@[j])@,
        forall|i: int, j: int|
            0 <= i < j < found.target_shifts@.len() ==> (#[trigger] found.target_shifts@[i])@ != (
            #[trigger] found.target_shifts@[j])@,
{
    let tree = state.tree(depth);
    let leaves = tree.leaves_of(Seq::empty());
    let all = concat(ctx.todo());
    law_parallel_checkpoint_loses_nothing(state, ctx, shared, checkpoint);
    assert(finds_all(tree, state.target, ctx.shared.pred().start, all, found@));
    state.lemma_ready(depth, ctx.split_depth);
    assert(cut_at(tree, ctx.split_depth as nat) == state.tree(ctx.split_depth));
    law_split_covers_every_leaf(tree, ctx.split_depth as nat);
    law_search_covers_every_leaf(tree);
    assert forall|leaf: Seq<usize>| #[trigger] all.contains(leaf) <==> leaves.contains(leaf) by {
        assert(leaves.contains(leaf) <==> tree.is_leaf(leaf));
    }
    lemma_same_leaves(tree, state.target, Tally::empty(), all, leaves, found@);
    law_parallel_search_is_exhaustive(state, found, depth, cols, path);
}

/// The leaves that a position leads to are those that agree with the key up to the level of one of
/// the frames, and pick one of the frame's remaining children there.
pub proof fn law_frames_lead_to_their_remaining_children(
    tree: Tree,
    stack: Seq<Frame>,
    key: Seq<usize>,
    leaf: Seq<usize>,
)
    requires
        position_ok(tree, stack, key),
    ensures
        remaining(tree, stack, key).contains(leaf) <==> exists|j: int|
            {
                &&& 0 <= j < stack.len()
                &&& leaf.len() == tree.depth
                &&& leaf.take((#[trigger] stack[j]).level as int) == key.take(
                    stack[j].level as int,
                )
                &&& leaf[stack[j].level as int] < stack[j].next_idx
                &&& forall|i: int|
                    stack[j].level < i < leaf.len() ==> #[trigger] leaf[i] < tree.fans[i]
            },
    decreases stack.len(),
{
    lemma_remaining_contains(tree, stack, key, leaf);
}

proof fn lemma_remaining_contains(
    tree: Tree,
    stack: Seq<Frame>,
    key: Seq<usize>,
    leaf: Seq<usize>,
)
    requires
        forall|j: int|
            0 <= j < stack.len() ==> (#[trigger] stack[j]).level <= key.len() && stack[j].level
                < tree.depth,
    ensures
        remaining(tree, stack, key).contains(leaf) <==> exists|j: int|
            {
                &&& 0 <= j < stack.len()
                &&& leaf.len() == tree.depth
                &&& leaf.take((#[trigger] stack[j]).level as int) == key.take(
                    stack[j].level as int,
                )
                &&& leaf[stack[j].level as int] < stack[j].next_idx
                &&& forall|i: int|
                    stack[j].level < i < leaf.len() ==> #[trigger] leaf[i] < tree.fans[i]
            },
    decreases stack.len(),
{
    if stack.len() > 0 {
        let last = stack.len() - 1;
        let top = stack.last();
        let rest = stack.drop_last();
        let first = tree.leaves_below(key.take(top.level as int), top.next_idx as nat);
        let others = remaining(tree, rest, key);
        let all = remaining(tree, stack, key);
        assert(stack[last] == top);
        assert forall|j: int| 0 <= j < rest.len() implies (#[trigger] rest[j]).level <= key.len()
            && rest[j].level < tree.depth by {
            assert(rest[j] == stack[j]);
        }
        lemma_remaining_contains(tree, rest, key, leaf);
        lemma_leaves_below_contains(
            tree,
            key.take(top.level as int),
            top.next_idx as nat,
            leaf,
        );
        assert(all == first + others);
        if first.contains(leaf) {
            let i = choose|i: int| 0 <= i < first.len() && first[i] == leaf;
            assert(all[i] == leaf);
        }
        if others.contains(leaf) {
            let i = choose|i: int| 0 <= i < others.len() && others[i] == leaf;
            assert(all[first.len() + i] == leaf);
            let j = choose|j: int|
                {
                    &&& 0 <= j < rest.len()
                    &&& leaf.len() == tree.depth
                    &&& leaf.take((#[trigger] rest[j]).level as int) == key.take(
                        rest[j].level as int,
                    )
                    &&& leaf[rest[j].level as int] < rest[j].next_idx
                    &&& forall|i: int|
                        rest[j].level < i < leaf.len() ==> #[trigger] leaf[i] < tree.fans[i]
                };
            assert(stack[j] == rest[j]);
        }
        if all.contains(leaf) {
            let i = choose|i: int| 0 <= i < all.len() && all[i] == leaf;
            if i < first.len() {
                assert(first[i] == leaf);
            } else {
                assert(others[i - first.len()] == leaf);
            }
        }
        if exists|j: int|
            {
                &&& 0 <= j < stack.len()
                &&& leaf.len() == tree.depth
                &&& leaf.take((#[trigger] stack[j]).level as int) == key.take(
                    stack[j].level as int,
                )
                &&& leaf[stack[j].level as int] < stack[j].next_idx
                &&& forall|i: int|
                    stack[j].level < i < leaf.len() ==> #[trigger] leaf[i] < tree.fans[i]
            } {
            let j = choose|j: int|
                {
                    &&& 0 <= j < stack.len()
                    &&& leaf.len() == tree.depth
                    &&& leaf.take((#[trigger] stack[j]).level as int) == key.take(
                        stack[j].level as int,
                    )
                    &&& leaf[stack[j].level as int] < stack[j].next_idx
                    &&& forall|i: int|
                        stack[j].level < i < leaf.len() ==> #[trigger] leaf[i] < tree.fans[i]
                };
            if j < last {
                assert(rest[j] == stack[j]);
            }
        }
    }
}

/// What leaves add to earlier findings: the highest count rises to theirs, the earlier list stays in
/// front where the count does not rise, and behind it stand exactly the leaves that have the highest
/// count. Leaves that hit the target are always added.
pub proof fn law_summary_adds_the_best_leaves(
    tree: Tree,
    target: Option<usize>,
    from: Tally,
    leaves: Seq<Seq<usize>>,
    leaf: Seq<usize>,
)
    ensures
        ({
            let found = tree.summary(target, from, leaves);
            let kept = if found.max == from.max {
                from.shifts.len() as int
            } else {
                0
            };
            let hit = from.target_shifts.len() as int;
            &&& from.max <= found.max
            &&& leaves.contains(leaf) ==> tree.count(leaf) <= found.max
            &&& found.max > from.max ==> exists|i: int|
                0 <= i < leaves.len() && tree.count(#[trigger] leaves[i]) == found.max
            &&& kept <= found.shifts.len()
            &&& forall|i: int| 0 <= i < kept ==> #[trigger] found.shifts[i] == from.shifts[i]
            &&& found.shifts.skip(kept).contains(leaf) <==> leaves.contains(leaf) && tree.count(
                leaf,
            ) == found.max
            &&& hit <= found.target_shifts.len()
            &&& forall|i: int|
                0 <= i < hit ==> #[trigger] found.target_shifts[i] == from.target_shifts[i]
            &&& found.target_shifts.skip(hit).contains(leaf) <==> leaves.contains(leaf) && (
            target matches Some(t) && tree.count(leaf) == t)
        }),
{
    let found = tree.summary(target, from, leaves);
    lemma_best(tree, from.max, leaves);
    lemma_counting_to(tree, leaves, found.max);
    let kept = if found.max == from.max {
        from.shifts.len() as int
    } else {
        0
    };
    assert(found.shifts.skip(kept) =~= tree.counting_to(leaves, found.max));
    if found.max > from.max {
        let best = choose|best: Seq<usize>| #[trigger]
            leaves.contains(best) && tree.count(best) == found.max;
        let i = choose|i: int| 0 <= i < leaves.len() && leaves[i] == best;
        assert(tree.count(leaves[i]) == found.max);
    }
    match target {
        Some(t) => {
            lemma_counting_to(tree, leaves, t as nat);
            assert(found.target_shifts.skip(from.target_shifts.len() as int)
                =~= tree.counting_to(leaves, t as nat));
        },
        None => {
            assert(found.target_shifts.skip(from.target_shifts.len() as int) =~= Seq::<
                Seq<usize>,
            >::empty());
        },
    }
}

/// What a parallel search adds to earlier findings, in whatever order: the same as a sequential one,
/// but that nothing is listed twice.
pub proof fn law_parallel_findings_add_the_best_leaves(
    tree: Tree,
    target: Option<usize>,
    from: Tally,
    leaves: Seq<Seq<usize>>,
    found: Tally,
    leaf: Seq<usize>,
)
    requires
        finds_all(tree, target, from, leaves, found),
    ensures
        from.max <= found.max,
        leaves.contains(leaf) ==> tree.count(leaf) <= found.max,
        found.max > from.max ==> exists|i: int|
            0 <= i < leaves.len() && tree.count(#[trigger] leaves[i]) == found.max,
        found.shifts.contains(leaf) <==> {
            ||| found.max == from.max && from.shifts.contains(leaf)
            ||| leaves.contains(leaf) && tree.count(leaf) == found.max
        },
        found.target_shifts.contains(leaf) <==> {
            ||| from.target_shifts.contains(leaf)
            ||| leaves.contains(leaf) && (target matches Some(t) && tree.count(leaf) == t)
        },
        found.max == from.max ==> {
            &&& from.shifts.len() <= found.shifts.len()
            &&& forall|i: int|
                0 <= i < from.shifts.len() ==> #[trigger] found.shifts[i] == from.shifts[i]
            &&& forall|i: int, j: int|
                from.shifts.len() <= i < found.shifts.len() && 0 <= j < i
                    ==> #[trigger] found.shifts[i] != #[trigger] found.shifts[j]
        },
        from.target_shifts.len() <= found.target_shifts.len(),
        forall|i: int|
            0 <= i < from.target_shifts.len() ==> #[trigger] found.target_shifts[i]
                == from.target_shifts[i],
        forall|i: int, j: int|
            from.target_shifts.len() <= i < found.target_shifts.len() && 0 <= j < i
                ==> #[trigger] found.target_shifts[i] != #[trigger] found.target_shifts[j],
{
    lemma_best(tree, from.max, leaves);
    if found.max > from.max {
        let best = choose|best: Seq<usize>| #[trigger]
            leaves.contains(best) && tree.count(best) == found.max;
        let i = choose|i: int| 0 <= i < leaves.len() && leaves[i] == best;
        assert(tree.count(leaves[i]) == found.max);
    }
    if found.max == from.max {
        lemma_extension(from.shifts, found.shifts);
    }
    lemma_extension(from.target_shifts, found.target_shifts);
}

proof fn lemma_extension(list: Seq<Seq<usize>>, longer: Seq<Seq<usize>>)
    requires
        extends(list, longer),
    ensures
        list.len() <= longer.len(),
        forall|i: int| 0 <= i < list.len() ==> #[trigger] longer[i] == list[i],
        forall|i: int, j: int|
            list.len() <= i < longer.len() && 0 <= j < i ==> #[trigger] longer[i]
                != #[trigger] longer[j],
{
    assert forall|i: int| 0 <= i < list.len() implies #[trigger] longer[i] == list[i] by {
        assert(longer.take(list.len() as int)[i] == list[i]);
    }
    assert forall|i: int, j: int|
        list.len() <= i < longer.len() && 0 <= j < i implies #[trigger] longer[i]
        != #[trigger] longer[j] by {
        assert(longer.take(i)[j] == longer[j]);
    }
}

/// A parallel search that goes on from a checkpoint looks at a leaf exactly where the job that the
/// leaf belongs to is in progress and its position leads to the leaf, or is neither in progress nor
/// completed. The jobs are the nodes at the level of the split, in descending order.
pub proof fn law_jobs_ahead_of_a_checkpoint(
    state: State,
    depth: usize,
    checkpoint: Checkpoint,
    leaf: Seq<usize>,
    w: usize,
)
    requires
        checkpoint.split_depth <= depth,
    ensures
        ({
            let split = checkpoint.split_depth;
            let nodes = state.tree(split).leaves_of(Seq::empty());
            let ahead = state.leaves_ahead(depth, split, Some(checkpoint));
            &&& ahead.len() == nodes.len()
            &&& concat(ahead).contains(leaf) <==> exists|v: int|
                0 <= v < ahead.len() && (#[trigger] ahead[v]).contains(leaf)
            &&& w < nodes.len() ==> (ahead[w as int].contains(leaf) <==> match latest(
                checkpoint.in_progress@,
                w,
            ) {
                Some((stack, key)) => split < depth && remaining(
                    state.tree(depth),
                    stack,
                    key,
                ).contains(leaf),
                None => {
                    &&& !checkpoint.completed@.contains(w)
                    &&& leaf.len() == depth
                    &&& leaf.take(split as int) == nodes[w as int]
                    &&& forall|i: int|
                        split <= i < leaf.len() ==> #[trigger] leaf[i] < state.primes@[i]
                },
            })
        }),
{
    let split = checkpoint.split_depth;
    let tree = state.tree(depth);
    let nodes = state.tree(split).leaves_of(Seq::empty());
    let lists = state.leaves_ahead(depth, split, Some(checkpoint));
    assert(cut_at(tree, split as nat) == state.tree(split));
    lemma_concat_lists(lists, leaf);
    if w < nodes.len() {
        assert(nodes.contains(nodes[w as int]));
        lemma_leaf_lengths(state.tree(split), nodes[w as int]);
        lemma_leaves_of_contains(tree, nodes[w as int], leaf);
    }
}

proof fn lemma_leaf_lengths(tree: Tree, leaf: Seq<usize>)
    ensures
        tree.leaves_of(Seq::empty()).contains(leaf) ==> leaf.len() == tree.depth,
{
    lemma_leaves_of_contains(tree, Seq::empty(), leaf);
}

} // verus!
