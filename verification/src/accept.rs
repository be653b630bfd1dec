//! Tests of whether a search can go on from a checkpoint.

use vstd::prelude::*;

use crate::checkpoint::{Checkpoint, Frame, ParallelInProgress, SearchMode};
use crate::plan::lemma_same_lists;
use crate::progress::{latest, lemma_latest_none, lemma_latest_some, work_indices, ParallelProgress};
use crate::search::State;
use crate::split::item_paths;
use crate::tree::Tree;
use crate::walk::position_ok;

verus! {

impl Checkpoint {
    /// Whether both counters say how long their lists are.
    pub fn has_fitting_counters(&self) -> (fit: bool)
        ensures
            fit == self.counters_fit(),
    {
        self.results == self.shifts.len() && self.target_results == self.target_shifts.len()
    }
}

impl State {
    /// A stack and a key are a position exactly where the key picks existing shifts, the frames lie
    /// on consecutive levels down to the one that the key leads to, and no frame has more children
    /// left than its level has shifts.
    pub proof fn law_positions_follow_the_key(
        &self,
        depth: usize,
        stack: Seq<Frame>,
        key: Seq<usize>,
    )
        requires
            depth <= self.shift_table@.len(),
        ensures
            position_ok(self.tree(depth), stack, key) <==> {
                &&& key.len() <= depth
                &&& stack.len() > 0 ==> key.len() < depth
                &&& forall|i: int|
                    0 <= i < key.len() ==> #[trigger] key[i] < self.shift_table@[i]@.len()
                &&& forall|j: int|
                    0 <= j < stack.len() ==> {
                        &&& (#[trigger] stack[j]).level == key.len() - (stack.len() - 1 - j)
                        &&& stack[j].next_idx <= self.shift_table@[stack[j].level as int]@.len()
                    }
            },
    {
        let tree = self.tree(depth);
        assert forall|l: int| 0 <= l < depth implies (#[trigger] tree.rows[l]).len()
            == self.shift_table@[l]@.len() by {}
        if position_ok(tree, stack, key) {
            assert forall|j: int| 0 <= j < stack.len() implies {
                &&& (#[trigger] stack[j]).level == key.len() - (stack.len() - 1 - j)
                &&& stack[j].next_idx <= self.shift_table@[stack[j].level as int]@.len()
            } by {
                assert(tree.rows[stack[j].level as int].len()
                    == self.shift_table@[stack[j].level as int]@.len());
            }
        }
    }

    /// Whether a stack and a key are a position in the tree.
    pub fn is_position(&self, depth: usize, stack: &Vec<Frame>, key: &Vec<usize>) -> (ok: bool)
        requires
            self.ready(depth),
        ensures
            ok == position_ok(self.tree(depth), stack@, key@),
            ok <==> {
                &&& key@.len() <= depth
                &&& stack@.len() > 0 ==> key@.len() < depth
                &&& forall|i: int|
                    0 <= i < key@.len() ==> #[trigger] key@[i] < self.shift_table@[i]@.len()
                &&& forall|j: int|
                    0 <= j < stack@.len() ==> {
                        &&& (#[trigger] stack@[j]).level == key@.len() - (stack@.len() - 1 - j)
                        &&& stack@[j].next_idx <= self.shift_table@[stack@[j].level as int]@.len()
                    }
            },
    {
        proof {
            self.law_positions_follow_the_key(depth, stack@, key@);
        }
        let ghost tree = self.tree(depth);
        if key.len() > depth || (stack.len() > 0 && key.len() >= depth) {
            return false;
        }
        let mut i: usize = 0;
        while i < key.len()
            invariant
                self.ready(depth),
                tree == self.tree(depth),
                0 <= i <= key@.len() <= depth,
                forall|k: int| 0 <= k < i ==> #[trigger] key@[k] < tree.rows[k].len(),
            decreases key@.len() - i,
        {
            assert(tree.rows[i as int].len() == self.shift_table@[i as int]@.len());
            if key[i] >= self.shift_table[i].len() {
                assert(!(key@[i as int] < tree.rows[i as int].len()));
                return false;
            }
            i = i + 1;
        }
        let mut j: usize = 0;
        while j < stack.len()
            invariant
                self.ready(depth),
                tree == self.tree(depth),
                0 <= j <= stack@.len(),
                key@.len() <= depth,
                stack@.len() > 0 ==> key@.len() < depth,
                tree.has_path(key@),
                forall|k: int|
                    0 <= k < j ==> {
                        &&& (#[trigger] stack@[k]).level == key@.len() - (stack@.len() - 1 - k)
                        &&& stack@[k].next_idx <= tree.rows[stack@[k].level as int].len()
                    },
            decreases stack@.len() - j,
        {
            let frame: Frame = stack[j];
            let above: usize = stack.len() - 1 - j;
            if key.len() < above || frame.level != key.len() - above {
                assert(stack@[j as int].level != key@.len() - (stack@.len() - 1 - j));
                return false;
            }
            assert(tree.rows[frame.level as int].len()
                == self.shift_table@[frame.level as int]@.len());
            if frame.next_idx > self.shift_table[frame.level].len() {
                assert(!(stack@[j as int].next_idx <= tree.rows[frame.level as int].len()));
                return false;
            }
            j = j + 1;
        }
        true
    }

    /// Whether a sequential search can start at the root, or from the checkpoint.
    pub fn accepts(&self, depth: usize, resume: &Option<Checkpoint>) -> (ok: bool)
        requires
            self.ready(depth),
        ensures
            ok == self.can_begin(depth, *resume),
            ok <==> match *resume {
                None => depth > 0 && self.key@.len() == 0 && self.results == self.shifts@.len()
                    && self.target_results == self.target_shifts@.len(),
                Some(c) => c.mode == SearchMode::Sequential && c.depth == depth && c.primes@
                    == self.primes@ && c.cols == self.zero_mask.size() && (forall|j: int|
                    0 <= j < c.stack@.len() ==> (#[trigger] c.stack@[j]).level
                        < self.primes@.len()) ==> position_ok(
                    self.tree(depth),
                    c.stack@,
                    c.key@,
                ) && c.results == c.shifts@.len() && c.target_results == c.target_shifts@.len(),
            },
    {
        match resume {
            None => depth > 0 && self.key.len() == 0 && self.results == self.shifts.len()
                && self.target_results == self.target_shifts.len(),
            Some(c) => {
                if c.mode != SearchMode::Sequential {
                    return true;
                }
                if self.apply_checkpoint_config(c, depth).is_err() {
                    return true;
                }
                if self.restore_stack(&c.stack).is_err() {
                    return true;
                }
                self.is_position(depth, &c.stack, &c.key) && c.has_fitting_counters()
            },
        }
    }

    /// Whether a parallel search can start at the root, or from the checkpoint.
    pub fn accepts_parallel(&self, depth: usize, resume: &Option<Checkpoint>) -> (ok: bool)
        requires
            self.ready(depth),
        ensures
            ok == self.can_plan(depth, *resume),
            (resume matches Some(c) ==> {
                &&& c.results == c.shifts@.len()
                &&& c.target_results == c.target_shifts@.len()
                &&& forall|i: int|
                    0 <= i < c.in_progress@.len() ==> position_ok(
                        self.tree(depth),
                        (#[trigger] c.in_progress@[i]).stack@,
                        c.in_progress@[i].key@,
                    )
            }) ==> ok,
    {
        proof {
            if let Some(c) = resume {
                lemma_positions_of_entries(self.tree(depth), c.in_progress@);
            }
        }
        let c = match resume {
            None => {
                return true;
            },
            Some(c) => c,
        };
        if c.mode != SearchMode::Parallel || self.apply_checkpoint_config(c, depth).is_err()
            || c.split_depth > depth {
            return true;
        }
        let ghost tree = self.tree(depth);
        let progress = ParallelProgress::from_lists(&c.completed, &c.in_progress);
        proof {
            self.lemma_ready(depth, c.split_depth);
            lemma_same_lists(
                tree,
                c.split_depth as nat,
                self.job_count(c.split_depth),
                progress.completed@,
                progress.in_progress@,
                c.completed@,
                c.in_progress@,
            );
        }
        let work_items = self.parallel_work_items(c.split_depth);
        assert(item_paths(work_items@).len() == work_items.len());
        if self.parallel_jobs(&work_items, &progress).is_err() {
            return true;
        }
        if !c.has_fitting_counters() {
            return false;
        }
        let ghost list = progress.in_progress@;
        let mut i: usize = 0;
        while i < progress.in_progress.len()
            invariant
                self.ready(depth),
                tree == self.tree(depth),
                progress.wf(),
                list == progress.in_progress@,
                *resume == Some(*c),
                self.refuses(depth, *resume) is None,
                c.counters_fit(),
                forall|w: usize| #[trigger] latest(list, w) == latest(c.in_progress@, w),
                0 <= i <= list.len(),
                forall|k: int|
                    0 <= k < i ==> position_ok(
                        tree,
                        (#[trigger] list[k]).stack@,
                        list[k].key@,
                    ),
            decreases list.len() - i,
        {
            let item = &progress.in_progress[i];
            if !self.is_position(depth, &item.stack, &item.key) {
                proof {
                    lemma_latest_some(list, i as int);
                    let w = list[i as int].work_index;
                    assert(latest(list, w) == latest(c.in_progress@, w));
                    assert(latest(c.in_progress@, w) is Some);
                    lemma_positions_of_entries(tree, c.in_progress@);
                }
                return false;
            }
            i = i + 1;
        }
        proof {
            assert forall|w: usize|
                #![trigger latest(c.in_progress@, w)]
                latest(c.in_progress@, w) matches Some((stack, key)) ==> position_ok(
                    tree,
                    stack,
                    key,
                ) by {
                assert(latest(list, w) == latest(c.in_progress@, w));
                if latest(list, w) is Some {
                    lemma_latest_none(list, w);
                    let all = work_indices(list);
                    let k = choose|k: int| 0 <= k < all.len() && all[k] == w;
                    assert(list[k].work_index == w);
                    lemma_latest_some(list, k);
                }
            }
        }
        true
    }
}

/// Where all entries are positions, so is the last one for each job.
proof fn lemma_positions_of_entries(tree: Tree, list: Seq<ParallelInProgress>)
    ensures
        (forall|i: int|
            0 <= i < list.len() ==> position_ok(
                tree,
                (#[trigger] list[i]).stack@,
                list[i].key@,
            )) ==> forall|w: usize|
            #![trigger latest(list, w)]
            latest(list, w) matches Some((stack, key)) ==> position_ok(tree, stack, key),
    decreases list.len(),
{
    if list.len() > 0 && (forall|i: int|
        0 <= i < list.len() ==> position_ok(tree, (#[trigger] list[i]).stack@, list[i].key@)) {
        let rest = list.drop_last();
        lemma_positions_of_entries(tree, rest);
        assert(list[list.len() - 1] == list.last());
        assert forall|i: int| 0 <= i < rest.len() implies position_ok(
            tree,
            (#[trigger] rest[i]).stack@,
            rest[i].key@,
        ) by {
            assert(rest[i] == list[i]);
        }
        assert forall|w: usize|
            #![trigger latest(list, w)]
            latest(list, w) matches Some((stack, key)) ==> position_ok(tree, stack, key) by {
            assert(latest(list, w) == latest(rest, w) || list.last().work_index == w);
        }
    }
}

} // verus!
