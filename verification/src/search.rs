//! Sequential search of the tree of shift sequences.

use vstd::arithmetic::div_mod::{
    lemma_add_mod_noop_right, lemma_fundamental_div_mod, lemma_fundamental_div_mod_converse,
    lemma_mod_multiples_basic, lemma_mod_self_0, lemma_small_mod,
};
use vstd::prelude::*;

use crate::bitmask::{overlay, words_for, BitMask};
use crate::bits::both;
use crate::checkpoint::{copy_stack, Checkpoint, Frame, ParallelInProgress, SearchError, SearchMode};
use crate::results::{copy_path, copy_paths, lemma_paths_push, paths, same_path};
use crate::shift_table::table_rows;
use crate::tree::{lemma_record_all_summary, lemma_row_push, lemma_row_root, Progress, Tally, Tree};
use crate::walk::{
    lemma_unwind_tally, nodes_ahead, position_ok, remaining, root_key, table_fits, unwind, Walk,
};

verus! {

/// A node counter that started at `start` and has wrapped around where it had to, `visited` nodes
/// later.
pub open spec fn counted(start: u64, visited: nat) -> u64 {
    ((start + visited) % 0x1_0000_0000_0000_0000) as u64
}

/// A search: its levels, the masks of their shifts, and what has been found.
pub struct State {
    pub primes: Vec<usize>,
    pub key: Vec<usize>,
    pub zero_mask: BitMask,
    pub max_count: usize,
    pub results: usize,
    pub shifts: Vec<Vec<usize>>,
    /// The count whose leaves are recorded besides the best ones.
    pub target: Option<usize>,
    pub target_results: usize,
    pub target_shifts: Vec<Vec<usize>>,
    pub node_count: u64,
    pub checkpoint_interval: u64,
    pub parallel_tasks_per_thread: usize,
    pub shift_table: Vec<Vec<BitMask>>,
}

impl State {
    /// The tree that a search down to `depth` goes through.
    pub open spec fn tree(&self, depth: usize) -> Tree {
        Tree {
            depth: depth as nat,
            fans: self.primes@,
            rows: table_rows(self.shift_table@),
            base: self.zero_mask@,
        }
    }

    /// What has been found.
    pub open spec fn tally(&self) -> Tally {
        Tally {
            max: self.max_count as nat,
            shifts: paths(self.shifts@),
            target_shifts: paths(self.target_shifts@),
        }
    }

    /// Both counters say how long their lists are.
    pub open spec fn counters_fit(&self) -> bool {
        &&& self.results == self.shifts@.len()
        &&& self.target_results == self.target_shifts@.len()
    }

    /// There is a mask for each shift of each level above `depth`, and all masks are equally long.
    pub open spec fn ready(&self, depth: usize) -> bool {
        &&& depth < usize::MAX
        &&& self.tree(depth).wf()
        &&& table_fits(self.tree(depth), self.shift_table@)
        &&& self.zero_mask.wf()
    }

    /// The levels, masks and settings are those of `other`.
    pub open spec fn same_setup(&self, other: State) -> bool {
        &&& self.primes == other.primes
        &&& self.zero_mask == other.zero_mask
        &&& self.shift_table == other.shift_table
        &&& self.target == other.target
        &&& self.checkpoint_interval == other.checkpoint_interval
        &&& self.parallel_tasks_per_thread == other.parallel_tasks_per_thread
    }

    /// The checkpoint was made by a search of this tree to this depth.
    pub open spec fn fits_config(&self, checkpoint: Checkpoint, depth: usize) -> bool {
        &&& checkpoint.depth == depth
        &&& checkpoint.primes@ == self.primes@
        &&& checkpoint.cols == self.zero_mask.size()
    }

    /// All frames lie on levels that have a prime.
    pub open spec fn levels_exist(&self, stack: Seq<Frame>) -> bool {
        forall|j: int| 0 <= j < stack.len() ==> (#[trigger] stack[j]).level < self.primes@.len()
    }

    /// A search state with nothing found. All `cols` columns are open at the root.
    pub fn new(primes: Vec<usize>, cols: usize, shift_table: Vec<Vec<BitMask>>) -> (state: Self)
        requires
            cols <= usize::MAX - 63,
        ensures
            state.primes == primes,
            state.shift_table == shift_table,
            state.zero_mask.wf(),
            state.zero_mask.size() == cols,
            state.zero_mask@ == Seq::new(64 * words_for(cols as nat), |i: int| i < cols),
            state.key@ == Seq::<usize>::empty(),
            state.tally() == Tally::empty(),
            state.counters_fit(),
            state.target is None,
            state.node_count == 0,
            state.checkpoint_interval == 100_000,
            state.parallel_tasks_per_thread == 4,
            cols <= state.zero_mask@.len() < cols + 64,
            forall|i: int|
                0 <= i < state.zero_mask@.len() ==> #[trigger] state.zero_mask@[i] == (i < cols),
            state.max_count == 0,
            state.results == 0,
            state.shifts@.len() == 0,
            state.target_results == 0,
            state.target_shifts@.len() == 0,
    {
        let state = State {
            primes,
            key: Vec::new(),
            zero_mask: BitMask::new_ones(cols),
            max_count: 0,
            results: 0,
            shifts: Vec::new(),
            target: None,
            target_results: 0,
            target_shifts: Vec::new(),
            node_count: 0,
            checkpoint_interval: 100_000,
            parallel_tasks_per_thread: 4,
            shift_table,
        };
        assert(state.tally().shifts =~= Tally::empty().shifts);
        assert(state.tally().target_shifts =~= Tally::empty().target_shifts);
        state
    }

    /// Takes up a leaf with the given count.
    pub fn aggregate_leaf_result(&mut self, count: usize, key: &Vec<usize>)
        requires
            old(self).counters_fit(),
        ensures
            final(self).counters_fit(),
            final(self).tally() == old(self).tally().record(
                old(self).target,
                count as nat,
                key@,
            ),
            final(self).same_setup(*old(self)),
            final(self).primes == old(self).primes,
            final(self).zero_mask == old(self).zero_mask,
            final(self).shift_table == old(self).shift_table,
            final(self).target == old(self).target,
            final(self).checkpoint_interval == old(self).checkpoint_interval,
            final(self).parallel_tasks_per_thread == old(self).parallel_tasks_per_thread,
            final(self).key == old(self).key,
            final(self).node_count == old(self).node_count,
            final(self).max_count == (if count > old(self).max_count {
                count
            } else {
                old(self).max_count
            }),
            final(self).results == final(self).shifts@.len(),
            count > old(self).max_count ==> {
                &&& final(self).shifts@.len() == 1
                &&& final(self).shifts@[0]@ == key@
            },
            count <= old(self).max_count ==> {
                &&& final(self).shifts@.len() == old(self).shifts@.len() + (if count
                    == old(self).max_count {
                    1int
                } else {
                    0
                })
                &&& forall|i: int|
                    0 <= i < old(self).shifts@.len() ==> (#[trigger] final(self).shifts@[i])@
                        == old(self).shifts@[i]@
                &&& final(self).shifts@.len() > old(self).shifts@.len()
                    ==> final(self).shifts@.last()@ == key@
            },
            final(self).target_results == final(self).target_shifts@.len(),
            final(self).target_shifts@.len() == old(self).target_shifts@.len() + (if old(self).target
                == Some(count) {
                1int
            } else {
                0
            }),
            forall|i: int|
                0 <= i < old(self).target_shifts@.len() ==> (
                #[trigger] final(self).target_shifts@[i])@ == old(self).target_shifts@[i]@,
            final(self).target_shifts@.len() > old(self).target_shifts@.len()
                ==> final(self).target_shifts@.last()@ == key@,
    {
        if let Some(target) = self.target {
            if count == target {
                let copy = copy_path(key);
                proof {
                    lemma_paths_push(self.target_shifts@, copy);
                }
                self.target_shifts.push(copy);
                self.target_results = self.target_shifts.len();
            }
        }
        if count > self.max_count {
            self.max_count = count;
            self.results = 1;
            let copy = copy_path(key);
            self.shifts = Vec::new();
            proof {
                lemma_paths_push(self.shifts@, copy);
                assert(paths(self.shifts@) =~= seq![]);
            }
            self.shifts.push(copy);
            assert(paths(self.shifts@) =~= seq![key@]);
        } else if count == self.max_count {
            let copy = copy_path(key);
            proof {
                lemma_paths_push(self.shifts@, copy);
            }
            self.shifts.push(copy);
            self.results = self.shifts.len();
        }
    }

    /// The masks of the nodes on the way to `key`, one for each level; below `key`, masks with all
    /// columns open.
    pub fn rebuild_masks(&self, depth: usize, key: &Vec<usize>) -> (masks: Vec<BitMask>)
        requires
            self.ready(depth),
            self.tree(depth).has_path(key@),
        ensures
            masks@.len() == depth + 1,
            forall|i: int|
                0 <= i <= depth ==> {
                    &&& (#[trigger] masks@[i]).wf()
                    &&& masks@[i]@ == if i <= key@.len() {
                        self.tree(depth).row(key@.take(i))
                    } else {
                        self.zero_mask@
                    }
                },
            forall|i: int, c: int|
                0 <= i <= depth && 0 <= c < self.zero_mask@.len() ==> #[trigger] masks@[i]@[c] == (
                self.zero_mask@[c] && (i <= key@.len() ==> forall|l: int|
                    0 <= l < i ==> self.shift_table@[l]@[#[trigger] key@[l] as int]@[c])),
    {
        let ghost tree = self.tree(depth);
        let mut masks = vec![self.zero_mask.clone();depth + 1];
        let mut level: usize = 0;
        proof {
            lemma_row_root(tree);
            assert(key@.take(0) =~= Seq::<usize>::empty());
        }
        while level < key.len()
            invariant
                self.ready(depth),
                tree == self.tree(depth),
                tree.has_path(key@),
                0 <= level <= key@.len(),
                masks@.len() == depth + 1,
                forall|i: int|
                    0 <= i <= depth ==> {
                        &&& (#[trigger] masks@[i]).wf()
                        &&& masks@[i]@ == if i <= level {
                            tree.row(key@.take(i))
                        } else {
                            self.zero_mask@
                        }
                    },
            decreases key@.len() - level,
        {
            let shift: usize = key[level];
            let ghost before = masks@;
            assert(before[level as int]@ == tree.row(key@.take(level as int)));
            assert(before[level as int + 1]@ == self.zero_mask@);
            assert(tree.rows[level as int].len() == self.shift_table@[level as int]@.len());
            assert(tree.rows[level as int][shift as int]
                == self.shift_table@[level as int]@[shift as int]@);
            assert(tree.rows[level as int][shift as int].len() == tree.base.len());
            let (base_masks, node_masks) = masks.as_mut_slice().split_at_mut(level + 1);
            node_masks[0].bitand_into_count(&base_masks[level], &self.shift_table[level][shift]);
            proof {
                let mask = masks@[level as int + 1];
                let path = key@.take(level as int);
                let meet = both(tree.row(path), tree.rows[level as int][shift as int]);
                assert(masks@ =~= before.update(level as int + 1, mask));
                lemma_row_push(tree, path, shift);
                assert(path.push(shift) =~= key@.take(level as int + 1));
                assert(overlay(self.zero_mask@, meet) =~= meet);
            }
            level = level + 1;
        }
        proof {
            assert forall|i: int, c: int|
                0 <= i <= depth && 0 <= c < self.zero_mask@.len() implies #[trigger] masks@[i]@[c]
                == (self.zero_mask@[c] && (i <= key@.len() ==> forall|l: int|
                0 <= l < i ==> self.shift_table@[l]@[#[trigger] key@[l] as int]@[c])) by {
                if i <= key@.len() {
                    self.lemma_row_of(depth, key@.take(i), c);
                    assert forall|l: int| 0 <= l < i implies key@.take(i)[l] == key@[l] by {}
                    if masks@[i]@[c] {
                        assert forall|l: int| 0 <= l < i implies self.shift_table@[l]@[
                            #[trigger] key@[l] as int
                        ]@[c] by {
                            assert(key@.take(i)[l] == key@[l]);
                        }
                    }
                    if self.zero_mask@[c] && forall|l: int|
                        0 <= l < i ==> self.shift_table@[l]@[#[trigger] key@[l] as int]@[c] {
                        assert forall|l: int| 0 <= l < i implies self.shift_table@[l]@[
                            #[trigger] key@.take(i)[l] as int
                        ]@[c] by {
                            assert(key@.take(i)[l] == key@[l]);
                        }
                    }
                }
            }
        }
        masks
    }

    /// A column is open at a node exactly where the root and the mask of each shift on the way to
    /// the node leave it open.
    pub proof fn lemma_row_of(&self, depth: usize, path: Seq<usize>, c: int)
        requires
            path.len() <= self.shift_table@.len(),
            forall|l: int|
                0 <= l < path.len() ==> #[trigger] path[l] < self.shift_table@[l]@.len(),
            0 <= c < self.zero_mask@.len(),
        ensures
            self.tree(depth).row(path)[c] == (self.zero_mask@[c] && forall|l: int|
                0 <= l < path.len() ==> self.shift_table@[l]@[#[trigger] path[l] as int]@[c]),
    {
        let tree = self.tree(depth);
        assert forall|l: int| 0 <= l < path.len() implies #[trigger] tree.rows[l][path[l] as int]
            == self.shift_table@[l]@[path[l] as int]@ by {}
        if tree.row(path)[c] {
            assert forall|l: int| 0 <= l < path.len() implies self.shift_table@[l]@[
                #[trigger] path[l] as int
            ]@[c] by {
                assert(tree.rows[l][path[l] as int][c]);
            }
        }
    }

    /// A saved stack, if all its frames lie on levels that have a prime.
    pub fn restore_stack(&self, saved_stack: &Vec<Frame>) -> (stack: Result<
        Vec<Frame>,
        SearchError,
    >)
        ensures
            match stack {
                Ok(stack) => self.levels_exist(saved_stack@) && stack@ == saved_stack@,
                Err(error) => !self.levels_exist(saved_stack@) && error
                    == SearchError::InvalidFrameLevel,
            },
            stack is Ok <==> forall|j: int|
                0 <= j < saved_stack@.len() ==> (#[trigger] saved_stack@[j]).level
                    < self.primes@.len(),
    {
        let mut stack: Vec<Frame> = Vec::new();
        let mut i: usize = 0;
        while i < saved_stack.len()
            invariant
                0 <= i <= saved_stack@.len(),
                stack@ == saved_stack@.take(i as int),
                forall|j: int|
                    0 <= j < i ==> (#[trigger] saved_stack@[j]).level < self.primes@.len(),
            decreases saved_stack@.len() - i,
        {
            if saved_stack[i].level >= self.primes.len() {
                return Err(SearchError::InvalidFrameLevel);
            }
            stack.push(saved_stack[i]);
            i = i + 1;
        }
        assert(saved_stack@.take(i as int) =~= saved_stack@);
        Ok(stack)
    }

    /// Refuses a checkpoint of a search with other settings.
    pub fn apply_checkpoint_config(&self, checkpoint: &Checkpoint, depth: usize) -> (fits: Result<
        (),
        SearchError,
    >)
        ensures
            match fits {
                Ok(_) => self.fits_config(*checkpoint, depth),
                Err(error) => !self.fits_config(*checkpoint, depth) && error
                    == (SearchError::ConfigMismatch {
                    depth: checkpoint.depth,
                    cols: checkpoint.cols,
                }),
            },
            fits is Ok <==> checkpoint.depth == depth && checkpoint.primes@ == self.primes@
                && checkpoint.cols == self.zero_mask.size(),
    {
        if checkpoint.depth != depth || !same_path(&checkpoint.primes, &self.primes)
            || checkpoint.cols != self.zero_mask.size() {
            return Err(
                SearchError::ConfigMismatch { depth: checkpoint.depth, cols: checkpoint.cols },
            );
        }
        Ok(())
    }

    /// A sequential search from the root, or from a checkpoint, stands at its first position.
    pub open spec fn begun(
        before: State,
        after: State,
        depth: usize,
        resume: Option<Checkpoint>,
        begun: Result<Walk, SearchError>,
    ) -> bool {
        match resume {
            None => {
                &&& after == before
                &&& begun matches Ok(walk) && walk.stack@ == seq![
                    Frame { level: 0, next_idx: before.primes@[0] },
                ]
            },
            Some(c) => if c.mode != SearchMode::Sequential {
                begun == Err::<Walk, SearchError>(SearchError::ParallelCheckpoint) && after
                    == before
            } else if !before.fits_config(c, depth) {
                begun == Err::<Walk, SearchError>(
                    SearchError::ConfigMismatch { depth: c.depth, cols: c.cols },
                ) && after == before
            } else {
                &&& after.tally() == c.tally()
                &&& after.results == c.results
                &&& after.target_results == c.target_results
                &&& after.node_count == c.node_count
                &&& after.key@ == c.key@
                &&& if before.levels_exist(c.stack@) {
                    begun matches Ok(walk) && walk.stack@ == c.stack@
                } else {
                    begun == Err::<Walk, SearchError>(SearchError::InvalidFrameLevel)
                }
            },
        }
    }

    /// A search can start at the root, or from the checkpoint if it is one that the search takes:
    /// then the checkpoint's frames and key have to be a position in the tree.
    pub open spec fn can_begin(&self, depth: usize, resume: Option<Checkpoint>) -> bool {
        match resume {
            None => depth > 0 && self.key@.len() == 0 && self.counters_fit(),
            Some(c) => {
                c.mode == SearchMode::Sequential && self.fits_config(c, depth)
                    && self.levels_exist(c.stack@) ==> position_ok(
                    self.tree(depth),
                    c.stack@,
                    c.key@,
                ) && c.counters_fit()
            },
        }
    }

    /// Goes to the start of a sequential search, or to where the checkpoint was made.
    pub fn begin_search(&mut self, depth: usize, resume: Option<Checkpoint>) -> (begun: Result<
        Walk,
        SearchError,
    >)
        requires
            old(self).ready(depth),
            old(self).can_begin(depth, resume),
        ensures
            final(self).same_setup(*old(self)),
            final(self).primes == old(self).primes,
            final(self).zero_mask == old(self).zero_mask,
            final(self).shift_table == old(self).shift_table,
            final(self).target == old(self).target,
            final(self).checkpoint_interval == old(self).checkpoint_interval,
            final(self).parallel_tasks_per_thread == old(self).parallel_tasks_per_thread,
            Self::begun(*old(self), *final(self), depth, resume, begun),
            begun is Ok <==> (resume matches Some(c) ==> {
                &&& c.mode == SearchMode::Sequential
                &&& c.depth == depth
                &&& c.primes@ == old(self).primes@
                &&& c.cols == old(self).zero_mask.size()
                &&& forall|j: int|
                    0 <= j < c.stack@.len() ==> (#[trigger] c.stack@[j]).level
                        < old(self).primes@.len()
            }),
            begun matches Ok(walk) ==> match resume {
                Some(c) => {
                    &&& walk.stack@ == c.stack@
                    &&& walk.key@ == c.key@
                    &&& final(self).key@ == c.key@
                    &&& final(self).node_count == c.node_count
                    &&& final(self).max_count == c.max_count
                    &&& final(self).shifts@.len() == c.shifts@.len()
                    &&& forall|i: int|
                        0 <= i < c.shifts@.len() ==> (#[trigger] final(self).shifts@[i])@
                            == c.shifts@[i]@
                    &&& final(self).target_shifts@.len() == c.target_shifts@.len()
                    &&& forall|i: int|
                        0 <= i < c.target_shifts@.len() ==> (
                        #[trigger] final(self).target_shifts@[i])@ == c.target_shifts@[i]@
                },
                None => {
                    &&& walk.stack@.len() == 1
                    &&& walk.stack@[0].level == 0
                    &&& walk.stack@[0].next_idx == old(self).primes@[0]
                    &&& walk.key@.len() == 0
                    &&& *final(self) == *old(self)
                },
            },
            begun matches Ok(walk) ==> {
                &&& walk.wf(final(self).tree(depth))
                &&& walk.key@ == final(self).key@
                &&& final(self).counters_fit()
            },
    {
        let ghost tree = self.tree(depth);
        let stack: Vec<Frame> = match resume {
            Some(checkpoint) => {
                if checkpoint.mode != SearchMode::Sequential {
                    return Err(SearchError::ParallelCheckpoint);
                }
                match self.apply_checkpoint_config(&checkpoint, depth) {
                    Ok(_) => {},
                    Err(error) => {
                        return Err(error);
                    },
                }
                self.key = copy_path(&checkpoint.key);
                self.max_count = checkpoint.max_count;
                self.results = checkpoint.results;
                self.shifts = copy_paths(&checkpoint.shifts);
                self.target_results = checkpoint.target_results;
                self.target_shifts = copy_paths(&checkpoint.target_shifts);
                self.node_count = checkpoint.node_count;
                match self.restore_stack(&checkpoint.stack) {
                    Ok(stack) => stack,
                    Err(error) => {
                        return Err(error);
                    },
                }
            },
            None => {
                let mut stack: Vec<Frame> = Vec::new();
                stack.push(Frame { level: 0, next_idx: self.primes[0] });
                assert(stack@ =~= seq![Frame { level: 0, next_idx: self.primes@[0] }]);
                assert(tree.fans[0] <= tree.rows[0].len());
                assert(position_ok(tree, stack@, self.key@));
                stack
            },
        };
        let masks = self.rebuild_masks(depth, &self.key);
        let key = copy_path(&self.key);
        assert(self.tree(depth) == tree);
        assert forall|i: int| 0 <= i <= depth implies (#[trigger] masks@[i])@.len()
            == tree.base.len() by {}
        Ok(Walk::new(stack, key, masks, Ghost(tree)))
    }

    /// What a run of `visited` nodes does: the end of the search stays the same, and the run stops
    /// behind the first node whose number is a multiple of the interval, or when no node is left.
    pub open spec fn advanced(
        before: State,
        walk_before: Walk,
        after: State,
        walk_after: Walk,
        depth: usize,
        visited: nat,
        done: bool,
    ) -> bool {
        let tree = before.tree(depth);
        let start = before.node_count;
        let interval = before.checkpoint_interval;
        &&& after.node_count == counted(start, visited)
        &&& unwind(
            tree,
            before.target,
            Progress { tally: before.tally(), nodes: 0 },
            walk_before.stack@,
            walk_before.key@,
        ) == unwind(
            tree,
            before.target,
            Progress { tally: after.tally(), nodes: visited },
            walk_after.stack@,
            walk_after.key@,
        )
        &&& forall|i: nat|
            1 <= i < visited ==> !(#[trigger] counted(start, i)).is_multiple_of(interval)
        &&& done ==> walk_after.stack@.len() == 0 && (visited > 0 ==> !counted(
            start,
            visited,
        ).is_multiple_of(interval))
        &&& !done ==> walk_after.stack@.len() > 0 && visited > 0 && counted(
            start,
            visited,
        ).is_multiple_of(interval)
    }

    /// Searches on until a checkpoint is due (`false`) or the search is complete (`true`).
    pub fn advance(&mut self, depth: usize, walk: &mut Walk) -> (done: bool)
        requires
            old(self).ready(depth),
            old(self).counters_fit(),
            old(walk).wf(old(self).tree(depth)),
        ensures
            final(self).same_setup(*old(self)),
            final(self).primes == old(self).primes,
            final(self).zero_mask == old(self).zero_mask,
            final(self).shift_table == old(self).shift_table,
            final(self).target == old(self).target,
            final(self).checkpoint_interval == old(self).checkpoint_interval,
            final(self).parallel_tasks_per_thread == old(self).parallel_tasks_per_thread,
            final(self).counters_fit(),
            final(self).results == final(self).shifts@.len(),
            final(self).target_results == final(self).target_shifts@.len(),
            final(walk).wf(final(self).tree(depth)),
            final(self).key@ == final(walk).key@,
            root_key(final(walk).stack@, final(walk).key@) == root_key(
                old(walk).stack@,
                old(walk).key@,
            ),
            exists|visited: nat| #[trigger]
                Self::advanced(
                    *old(self),
                    *old(walk),
                    *final(self),
                    *final(walk),
                    depth,
                    visited,
                    done,
                ),
            nodes_ahead(final(self).tree(depth), final(walk).stack@) <= nodes_ahead(
                final(self).tree(depth),
                old(walk).stack@,
            ),
            !done ==> nodes_ahead(final(self).tree(depth), final(walk).stack@) < nodes_ahead(
                final(self).tree(depth),
                old(walk).stack@,
            ),
            done == (final(walk).stack@.len() == 0),
            old(self).checkpoint_interval > 0 && old(self).node_count + old(
                self,
            ).checkpoint_interval <= u64::MAX ==> {
                let interval = old(self).checkpoint_interval as int;
                let next = (old(self).node_count as int / interval + 1) * interval;
                &&& !done ==> final(self).node_count == next
                &&& done ==> old(self).node_count <= final(self).node_count < next
            },
    {
        let ghost tree = self.tree(depth);
        let ghost start = *self;
        let ghost walk_start = *walk;
        let ghost mut visited: nat = 0;
        proof {
            assert(counted(start.node_count, 0) == start.node_count);
        }
        loop
            invariant
                start == *old(self),
                walk_start == *old(walk),
                tree == start.tree(depth),
                start.ready(depth),
                self.same_setup(start),
                self.counters_fit(),
                walk.wf(tree),
                root_key(walk.stack@, walk.key@) == root_key(walk_start.stack@, walk_start.key@),
                nodes_ahead(tree, walk.stack@) <= nodes_ahead(tree, walk_start.stack@),
                visited > 0 ==> nodes_ahead(tree, walk.stack@) < nodes_ahead(
                    tree,
                    walk_start.stack@,
                ),
                self.node_count == counted(start.node_count, visited),
                unwind(
                    tree,
                    start.target,
                    Progress { tally: start.tally(), nodes: 0 },
                    walk_start.stack@,
                    walk_start.key@,
                ) == unwind(
                    tree,
                    start.target,
                    Progress { tally: self.tally(), nodes: visited },
                    walk.stack@,
                    walk.key@,
                ),
                forall|i: nat|
                    1 <= i <= visited ==> !(#[trigger] counted(
                        start.node_count,
                        i,
                    )).is_multiple_of(start.checkpoint_interval),
            decreases nodes_ahead(tree, walk.stack@),
        {
            let ghost from = Progress { tally: self.tally(), nodes: visited };
            let ghost walk_before = *walk;
            let count: usize = match walk.next_node(&self.shift_table, Ghost(tree)) {
                None => {
                    self.key = copy_path(&walk.key);
                    assert(Self::advanced(
                        *old(self),
                        *old(walk),
                        *self,
                        *walk,
                        depth,
                        visited,
                        true,
                    ));
                    proof {
                        if start.checkpoint_interval > 0 && start.node_count + start.checkpoint_interval
                            <= u64::MAX {
                            law_pauses_are_an_interval_apart(
                                *old(self),
                                *old(walk),
                                *self,
                                *walk,
                                depth,
                                visited,
                                true,
                            );
                        }
                    }
                    return true;
                },
                Some(count) => count,
            };
            let ghost node = walk.key@;
            let ghost seen = Progress { tally: self.tally(), nodes: visited + 1 };
            self.node_count = self.node_count.wrapping_add(1);
            proof {
                assert(self.node_count == counted(start.node_count, visited + 1)) by {
                    lemma_counted_next(start.node_count, visited);
                }
                visited = visited + 1;
            }
            let due: bool = self.node_count.is_multiple_of(self.checkpoint_interval);
            let hopeless: bool = count < self.max_count && match self.target {
                Some(target) => count < target,
                None => true,
            };
            if hopeless {
                assert(tree.visit(start.target, from, node) == seen);
                walk.leave(Ghost(tree));
            } else if walk.key.len() >= depth {
                self.aggregate_leaf_result(count, &walk.key);
                assert(tree.visit(start.target, from, node) == (Progress {
                    tally: self.tally(),
                    nodes: visited,
                }));
                walk.leave(Ghost(tree));
            } else {
                let level: usize = walk.key.len();
                assert(tree.fans[level as int] <= tree.rows[level as int].len());
                walk.enter(self.primes[level], Ghost(tree));
                assert(tree.visit(start.target, from, node) == tree.explore(
                    start.target,
                    seen,
                    node,
                    tree.fans[level as int] as nat,
                ));
            }
            if due {
                self.key = copy_path(&walk.key);
                assert(Self::advanced(
                    *old(self),
                    *old(walk),
                    *self,
                    *walk,
                    depth,
                    visited,
                    false,
                ));
                proof {
                    if start.checkpoint_interval > 0 && start.node_count + start.checkpoint_interval
                        <= u64::MAX {
                        law_pauses_are_an_interval_apart(
                            *old(self),
                            *old(walk),
                            *self,
                            *walk,
                            depth,
                            visited,
                            false,
                        );
                    }
                }
                return false;
            }
        }
    }

    /// The end of a sequential search that starts with the given tally, node number and position:
    /// the tally of all leaves ahead, the nodes that the search takes, and the key that is left.
    pub open spec fn searched(
        &self,
        after: State,
        depth: usize,
        tally: Tally,
        node_count: u64,
        stack: Seq<Frame>,
        key: Seq<usize>,
    ) -> bool {
        let tree = self.tree(depth);
        &&& after.tally() == tree.summary(self.target, tally, remaining(tree, stack, key))
        &&& after.node_count == counted(
            node_count,
            unwind(tree, self.target, Progress { tally, nodes: 0 }, stack, key).nodes,
        )
        &&& after.key@ == root_key(stack, key)
    }

    /// Searches the tree down to `depth` on the calling thread, from the root or from a checkpoint.
    pub fn search_with_checkpoint(&mut self, depth: usize, resume: Option<Checkpoint>) -> (
        outcome: Result<(), SearchError>)
        requires
            old(self).ready(depth),
            old(self).can_begin(depth, resume),
        ensures
            final(self).same_setup(*old(self)),
            final(self).primes == old(self).primes,
            final(self).zero_mask == old(self).zero_mask,
            final(self).shift_table == old(self).shift_table,
            final(self).target == old(self).target,
            final(self).checkpoint_interval == old(self).checkpoint_interval,
            final(self).parallel_tasks_per_thread == old(self).parallel_tasks_per_thread,
            outcome is Ok <==> (resume matches Some(c) ==> {
                &&& c.mode == SearchMode::Sequential
                &&& c.depth == depth
                &&& c.primes@ == old(self).primes@
                &&& c.cols == old(self).zero_mask.size()
                &&& forall|j: int|
                    0 <= j < c.stack@.len() ==> (#[trigger] c.stack@[j]).level
                        < old(self).primes@.len()
            }),
            outcome is Ok ==> {
                &&& final(self).results == final(self).shifts@.len()
                &&& final(self).target_results == final(self).target_shifts@.len()
                &&& final(self).key@ == match resume {
                    Some(c) => if c.stack@.len() > 0 {
                        c.key@.take(c.stack@[0].level as int)
                    } else {
                        c.key@
                    },
                    None => Seq::<usize>::empty(),
                }
            },
            outcome matches Err(error) ==> resume is Some && error == (if resume.unwrap().mode
                != SearchMode::Sequential {
                SearchError::ParallelCheckpoint
            } else if resume.unwrap().depth != depth || resume.unwrap().primes@ != old(
                self,
            ).primes@ || resume.unwrap().cols != old(self).zero_mask.size() {
                SearchError::ConfigMismatch {
                    depth: resume.unwrap().depth,
                    cols: resume.unwrap().cols,
                }
            } else {
                SearchError::InvalidFrameLevel
            }),
            match resume {
                None => {
                    &&& outcome is Ok
                    &&& final(self).counters_fit()
                    &&& final(self).tally() == old(self).tree(depth).summary(
                        old(self).target,
                        old(self).tally(),
                        old(self).tree(depth).leaves_of(Seq::empty()),
                    )
                    &&& final(self).node_count == counted(
                        old(self).node_count,
                        old(self).tree(depth).explore(
                            old(self).target,
                            Progress { tally: old(self).tally(), nodes: 0 },
                            Seq::empty(),
                            old(self).primes@[0] as nat,
                        ).nodes,
                    )
                    &&& final(self).key@ == Seq::<usize>::empty()
                },
                Some(c) => if c.mode != SearchMode::Sequential {
                    outcome == Err::<(), SearchError>(SearchError::ParallelCheckpoint)
                        && *final(self) == *old(self)
                } else if !old(self).fits_config(c, depth) {
                    outcome == Err::<(), SearchError>(
                        SearchError::ConfigMismatch { depth: c.depth, cols: c.cols },
                    ) && *final(self) == *old(self)
                } else if !old(self).levels_exist(c.stack@) {
                    &&& outcome == Err::<(), SearchError>(SearchError::InvalidFrameLevel)
                    &&& final(self).tally() == c.tally()
                    &&& final(self).results == c.results
                    &&& final(self).target_results == c.target_results
                    &&& final(self).node_count == c.node_count
                    &&& final(self).key@ == c.key@
                } else {
                    &&& outcome is Ok
                    &&& final(self).counters_fit()
                    &&& old(self).searched(
                        *final(self),
                        depth,
                        c.tally(),
                        c.node_count,
                        c.stack@,
                        c.key@,
                    )
                },
            },
    {
        let ghost tree = self.tree(depth);
        let ghost start = *self;
        let mut walk = match self.begin_search(depth, resume) {
            Ok(walk) => walk,
            Err(error) => {
                return Err(error);
            },
        };
        let ghost first = *self;
        let ghost walk_first = walk;
        let ghost end = unwind(
            tree,
            start.target,
            Progress { tally: first.tally(), nodes: 0 },
            walk.stack@,
            walk.key@,
        );
        let ghost mut visited: nat = 0;
        let mut done: bool = false;
        proof {
            assert(counted(first.node_count, 0) == first.node_count);
        }
        while !done
            invariant
                self.same_setup(start),
                tree == start.tree(depth),
                start.ready(depth),
                self.counters_fit(),
                walk.wf(tree),
                self.key@ == walk.key@,
                root_key(walk.stack@, walk.key@) == root_key(walk_first.stack@, walk_first.key@),
                done ==> walk.stack@.len() == 0,
                self.node_count == counted(first.node_count, visited),
                end == unwind(
                    tree,
                    start.target,
                    Progress { tally: self.tally(), nodes: visited },
                    walk.stack@,
                    walk.key@,
                ),
            decreases nodes_ahead(tree, walk.stack@), (if done { 0nat } else { 1nat }),
        {
            let ghost before = *self;
            let ghost walk_before = walk;
            done = self.advance(depth, &mut walk);
            proof {
                let more = choose|more: nat| #[trigger]
                    Self::advanced(before, walk_before, *self, walk, depth, more, done);
                assert(Self::advanced(before, walk_before, *self, walk, depth, more, done));
                lemma_counted_add(first.node_count, visited, more);
                lemma_unwind_nodes(
                    tree,
                    start.target,
                    before.tally(),
                    0,
                    visited,
                    walk_before.stack@,
                    walk_before.key@,
                );
                lemma_unwind_nodes(
                    tree,
                    start.target,
                    self.tally(),
                    more,
                    visited,
                    walk.stack@,
                    walk.key@,
                );
                visited = visited + more;
            }
        }
        proof {
            lemma_unwind_tally(
                tree,
                start.target,
                Progress { tally: first.tally(), nodes: 0 },
                walk_first.stack@,
                walk_first.key@,
            );
            lemma_record_all_summary(
                tree,
                start.target,
                first.tally(),
                remaining(tree, walk_first.stack@, walk_first.key@),
            );
            if resume is None {
                let root = Seq::<usize>::empty();
                assert(walk_first.key@ =~= root);
                assert(walk_first.key@.take(0) =~= root);
                assert(walk_first.stack@.drop_last() =~= Seq::<Frame>::empty());
                assert(remaining(tree, walk_first.stack@.drop_last(), walk_first.key@) =~= Seq::<
                    Seq<usize>,
                >::empty());
                assert(remaining(tree, walk_first.stack@, walk_first.key@) =~= tree.leaves_of(
                    root,
                ));
                reveal_with_fuel(unwind, 2);
                assert(end == tree.explore(
                    start.target,
                    Progress { tally: first.tally(), nodes: 0 },
                    root,
                    start.primes@[0] as nat,
                ));
            }
        }
        Ok(())
    }

    /// The checkpoint holds all of a sequential search that stands at its key with the given stack.
    pub open spec fn recorded_in(
        &self,
        checkpoint: Checkpoint,
        depth: usize,
        stack: Seq<Frame>,
    ) -> bool {
        &&& checkpoint.mode == SearchMode::Sequential
        &&& self.fits_config(checkpoint, depth)
        &&& checkpoint.stack@ == stack
        &&& checkpoint.key@ == self.key@
        &&& checkpoint.tally() == self.tally()
        &&& checkpoint.results == self.results
        &&& checkpoint.target_results == self.target_results
        &&& checkpoint.node_count == self.node_count
        &&& checkpoint.split_depth == 0
        &&& checkpoint.completed@ == Seq::<usize>::empty()
        &&& checkpoint.in_progress@ == Seq::<ParallelInProgress>::empty()
    }

    /// The checkpoint of a sequential search that stands at its key with the given stack.
    pub fn make_checkpoint(&self, depth: usize, stack: &Vec<Frame>) -> (checkpoint: Checkpoint)
        ensures
            self.recorded_in(checkpoint, depth, stack@),
            checkpoint.mode == SearchMode::Sequential,
            checkpoint.depth == depth,
            checkpoint.primes@ == self.primes@,
            checkpoint.cols == self.zero_mask.size(),
            checkpoint.stack@ == stack@,
            checkpoint.key@ == self.key@,
            checkpoint.max_count == self.max_count,
            checkpoint.results == self.results,
            checkpoint.shifts@.len() == self.shifts@.len(),
            forall|i: int|
                0 <= i < self.shifts@.len() ==> (#[trigger] checkpoint.shifts@[i])@
                    == self.shifts@[i]@,
            checkpoint.target_results == self.target_results,
            checkpoint.target_shifts@.len() == self.target_shifts@.len(),
            forall|i: int|
                0 <= i < self.target_shifts@.len() ==> (#[trigger] checkpoint.target_shifts@[i])@
                    == self.target_shifts@[i]@,
            checkpoint.node_count == self.node_count,
            checkpoint.split_depth == 0,
            checkpoint.completed@.len() == 0,
            checkpoint.in_progress@.len() == 0,
    {
        Checkpoint {
            mode: SearchMode::Sequential,
            depth,
            primes: copy_path(&self.primes),
            cols: self.zero_mask.size(),
            stack: copy_stack(stack),
            key: copy_path(&self.key),
            max_count: self.max_count,
            results: self.results,
            shifts: copy_paths(&self.shifts),
            target_results: self.target_results,
            target_shifts: copy_paths(&self.target_shifts),
            node_count: self.node_count,
            split_depth: 0,
            completed: Vec::new(),
            in_progress: Vec::new(),
        }
    }
}

/// A search pauses at the next multiple of the interval, and ends before it otherwise.
pub proof fn law_pauses_are_an_interval_apart(
    before: State,
    walk_before: Walk,
    after: State,
    walk_after: Walk,
    depth: usize,
    visited: nat,
    done: bool,
)
    requires
        State::advanced(before, walk_before, after, walk_after, depth, visited, done),
        before.checkpoint_interval > 0,
        before.node_count + before.checkpoint_interval <= u64::MAX,
    ensures
        !done ==> after.node_count == (before.node_count as int / before.checkpoint_interval as int
            + 1) * before.checkpoint_interval,
        done ==> before.node_count <= after.node_count < (before.node_count as int
            / before.checkpoint_interval as int + 1) * before.checkpoint_interval,
        after.node_count == before.node_count + visited,
{
    let start = before.node_count as int;
    let interval = before.checkpoint_interval as int;
    let q = start / interval;
    let next = (q + 1) * interval;
    let range = 0x1_0000_0000_0000_0000int;
    lemma_fundamental_div_mod(start, interval);
    assert(next == interval * q + interval) by (nonlinear_arith)
        requires
            next == (q + 1) * interval,
    ;
    lemma_mod_multiples_basic(q + 1, interval);
    let gap = (next - start) as nat;
    lemma_small_mod(next as nat, range as nat);
    assert(counted(before.node_count, gap) == next);
    assert(counted(before.node_count, gap).is_multiple_of(before.checkpoint_interval));
    assert(visited <= gap);
    lemma_small_mod((start + visited) as nat, range as nat);
    assert(counted(before.node_count, visited) == start + visited);
    if visited > 0 && visited < gap {
        lemma_fundamental_div_mod(start + visited, interval);
        let r = start % interval + visited;
        assert(start + visited == q * interval + r) by (nonlinear_arith)
            requires
                start == interval * q + start % interval,
                r == start % interval + visited,
        ;
        lemma_fundamental_div_mod_converse(start + visited, interval, q, r);
    }
}

/// A node number is the sum of where it started and the nodes since, wrapped around to 64 bits.
pub proof fn law_node_numbers_wrap_around(start: u64, visited: nat)
    ensures
        counted(start, visited) as int == (start + visited) % 0x1_0000_0000_0000_0000,
        start + visited <= u64::MAX ==> counted(start, visited) == start + visited,
{
    if start + visited <= u64::MAX {
        lemma_small_mod((start + visited) as nat, 0x1_0000_0000_0000_0000);
    }
}

/// One node more.
pub proof fn lemma_counted_next(start: u64, visited: nat)
    ensures
        counted(start, visited + 1) == counted(start, visited).wrapping_add(1),
{
    let range = 0x1_0000_0000_0000_0000int;
    let next = (start + visited) % range + 1;
    lemma_add_mod_noop_right(1, start + visited, range);
    if next < range {
        lemma_small_mod(next as nat, range as nat);
    } else {
        lemma_mod_self_0(range);
    }
}

proof fn lemma_counted_add(start: u64, a: nat, b: nat)
    ensures
        counted(counted(start, a), b) == counted(start, a + b),
{
    lemma_add_mod_noop_right(b as int, start + a, 0x1_0000_0000_0000_0000);
}

/// The node number only adds up: it has no influence on the search.
pub proof fn lemma_explore_nodes(
    tree: Tree,
    target: Option<usize>,
    tally: Tally,
    a: nat,
    b: nat,
    path: Seq<usize>,
    n: nat,
)
    ensures
        tree.explore(target, Progress { tally, nodes: a + b }, path, n).tally == tree.explore(
            target,
            Progress { tally, nodes: a },
            path,
            n,
        ).tally,
        tree.explore(target, Progress { tally, nodes: a + b }, path, n).nodes == tree.explore(
            target,
            Progress { tally, nodes: a },
            path,
            n,
        ).nodes + b,
    decreases tree.depth - path.len(), n,
{
    if path.len() < tree.depth && n > 0 {
        let child = path.push((n - 1) as usize);
        let low = tree.visit(target, Progress { tally, nodes: a }, child);
        let high = tree.visit(target, Progress { tally, nodes: a + b }, child);
        assert(high.tally == low.tally && high.nodes == low.nodes + b) by {
            if child.len() < tree.depth && !tally.prunes(target, tree.count(child)) {
                lemma_explore_nodes(
                    tree,
                    target,
                    tally,
                    a + 1,
                    b,
                    child,
                    tree.fans[child.len() as int] as nat,
                );
            }
        }
        lemma_explore_nodes(tree, target, low.tally, low.nodes, b, path, (n - 1) as nat);
    }
}

/// The node number only adds up: it has no influence on the search.
pub proof fn lemma_unwind_nodes(
    tree: Tree,
    target: Option<usize>,
    tally: Tally,
    a: nat,
    b: nat,
    stack: Seq<Frame>,
    key: Seq<usize>,
)
    ensures
        unwind(tree, target, Progress { tally, nodes: a + b }, stack, key) == (Progress {
            tally: unwind(tree, target, Progress { tally, nodes: a }, stack, key).tally,
            nodes: unwind(tree, target, Progress { tally, nodes: a }, stack, key).nodes + b,
        }),
    decreases stack.len(),
{
    if stack.len() > 0 {
        let top = stack.last();
        let path = key.take(top.level as int);
        lemma_explore_nodes(tree, target, tally, a, b, path, top.next_idx as nat);
        let low = tree.explore(target, Progress { tally, nodes: a }, path, top.next_idx as nat);
        lemma_unwind_nodes(tree, target, low.tally, low.nodes, b, stack.drop_last(), key);
    }
}

/// A checkpoint that a sequential search made on its way leads to the same end as the search itself:
/// the same findings, node number and key, whichever state takes the search up again.
pub proof fn law_resume_reaches_the_same_end(
    before: State,
    walk_before: Walk,
    paused: State,
    walk_paused: Walk,
    depth: usize,
    visited: nat,
    done: bool,
    checkpoint: Checkpoint,
    resumed: State,
    end: State,
    resumed_end: State,
)
    requires
        before.tree(depth).wf(),
        walk_before.wf(before.tree(depth)),
        State::advanced(before, walk_before, paused, walk_paused, depth, visited, done),
        paused.key@ == walk_paused.key@,
        walk_paused.wf(before.tree(depth)),
        root_key(walk_paused.stack@, walk_paused.key@) == root_key(
            walk_before.stack@,
            walk_before.key@,
        ),
        paused.recorded_in(checkpoint, depth, walk_paused.stack@),
        resumed.tree(depth) == before.tree(depth),
        resumed.target == before.target,
        before.searched(
            end,
            depth,
            before.tally(),
            before.node_count,
            walk_before.stack@,
            walk_before.key@,
        ),
        resumed.searched(
            resumed_end,
            depth,
            checkpoint.tally(),
            checkpoint.node_count,
            checkpoint.stack@,
            checkpoint.key@,
        ),
    ensures
        resumed_end.tally() == end.tally(),
        resumed_end.node_count == end.node_count,
        resumed_end.key@ == end.key@,
        resumed_end.max_count == end.max_count,
        resumed_end.shifts@.len() == end.shifts@.len(),
        forall|i: int|
            0 <= i < end.shifts@.len() ==> (#[trigger] resumed_end.shifts@[i])@
                == end.shifts@[i]@,
        resumed_end.target_shifts@.len() == end.target_shifts@.len(),
        forall|i: int|
            0 <= i < end.target_shifts@.len() ==> (#[trigger] resumed_end.target_shifts@[i])@
                == end.target_shifts@[i]@,
        paused.tree(depth) == before.tree(depth) && paused.target == before.target
            ==> paused.searched(
            end,
            depth,
            paused.tally(),
            paused.node_count,
            walk_paused.stack@,
            walk_paused.key@,
        ),
{
    let tree = before.tree(depth);
    let target = before.target;
    let stack = walk_paused.stack@;
    let key = walk_paused.key@;
    lemma_unwind_nodes(tree, target, paused.tally(), 0, visited, stack, key);
    lemma_unwind_tally(
        tree,
        target,
        Progress { tally: before.tally(), nodes: 0 },
        walk_before.stack@,
        walk_before.key@,
    );
    lemma_record_all_summary(
        tree,
        target,
        before.tally(),
        remaining(tree, walk_before.stack@, walk_before.key@),
    );
    lemma_unwind_tally(tree, target, Progress { tally: paused.tally(), nodes: 0 }, stack, key);
    lemma_record_all_summary(tree, target, paused.tally(), remaining(tree, stack, key));
    lemma_counted_add(
        before.node_count,
        visited,
        unwind(tree, target, Progress { tally: paused.tally(), nodes: 0 }, stack, key).nodes,
    );
    lemma_same_paths(resumed_end.shifts@, end.shifts@);
    lemma_same_paths(resumed_end.target_shifts@, end.target_shifts@);
}

/// Lists with the same shift sequences agree entry by entry.
pub proof fn lemma_same_paths(a: Seq<Vec<usize>>, b: Seq<Vec<usize>>)
    ensures
        paths(a) == paths(b) ==> {
            &&& a.len() == b.len()
            &&& forall|i: int| 0 <= i < b.len() ==> (#[trigger] a[i])@ == b[i]@
        },
{
    if paths(a) == paths(b) {
        assert(paths(a).len() == paths(b).len());
        assert forall|i: int| 0 <= i < b.len() implies (#[trigger] a[i])@ == b[i]@ by {
            assert(paths(a)[i] == paths(b)[i]);
        }
    }
}

/// A checkpoint that a sequential search makes is taken by every state with the same settings: its
/// mode is sequential, its depth, primes and columns are those of the state, and its frames and key
/// are a position in the state's tree.
pub proof fn law_own_checkpoints_are_taken(
    paused: State,
    walk: Walk,
    depth: usize,
    checkpoint: Checkpoint,
    resumed: State,
)
    requires
        paused.ready(depth),
        paused.counters_fit(),
        walk.wf(paused.tree(depth)),
        paused.key@ == walk.key@,
        paused.recorded_in(checkpoint, depth, walk.stack@),
        resumed.primes@ == paused.primes@,
        resumed.shift_table@ == paused.shift_table@,
        resumed.zero_mask@ == paused.zero_mask@,
        resumed.zero_mask.size() == paused.zero_mask.size(),
    ensures
        resumed.can_begin(depth, Some(checkpoint)),
        checkpoint.mode == SearchMode::Sequential,
        checkpoint.depth == depth,
        checkpoint.primes@ == resumed.primes@,
        checkpoint.cols == resumed.zero_mask.size(),
        forall|j: int|
            0 <= j < checkpoint.stack@.len() ==> (#[trigger] checkpoint.stack@[j]).level
                < resumed.primes@.len(),
        checkpoint.stack@ == walk.stack@,
        checkpoint.key@ == paused.key@,
        checkpoint.node_count == paused.node_count,
        checkpoint.max_count == paused.max_count,
        checkpoint.shifts@.len() == paused.shifts@.len(),
        forall|i: int|
            0 <= i < paused.shifts@.len() ==> (#[trigger] checkpoint.shifts@[i])@
                == paused.shifts@[i]@,
{
    assert(resumed.tree(depth) == paused.tree(depth));
    lemma_same_paths(checkpoint.shifts@, paused.shifts@);
    lemma_same_paths(checkpoint.target_shifts@, paused.target_shifts@);
}

} // verus!
