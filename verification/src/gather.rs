//! What several jobs find together.

use vstd::prelude::*;

use crate::checkpoint::ParallelInProgress;
use crate::progress::latest;
use crate::results::lemma_push_contains;
use crate::split::cut_at;
use crate::tree::{
    hits, law_search_covers_every_leaf, law_search_finds_every_best_leaf, lemma_best,
    lemma_leaves_below_contains, Tally, Tree,
};
use crate::walk::remaining;

verus! {

/// The leaves that the job for the node `node` still has to look at.
pub open spec fn job_ahead(
    tree: Tree,
    split: nat,
    node: Seq<usize>,
    work_index: usize,
    completed: Seq<usize>,
    in_progress: Seq<ParallelInProgress>,
) -> Seq<Seq<usize>> {
    match latest(in_progress, work_index) {
        Some((stack, key)) => if split < tree.depth {
            remaining(tree, stack, key)
        } else {
            seq![]
        },
        None => if completed.contains(work_index) {
            seq![]
        } else {
            tree.leaves_of(node)
        },
    }
}

/// The leaves that each job still has to look at, for a tree that is split at the level `split`.
pub open spec fn jobs_ahead(
    tree: Tree,
    split: nat,
    completed: Seq<usize>,
    in_progress: Seq<ParallelInProgress>,
) -> Seq<Seq<Seq<usize>>> {
    let nodes = cut_at(tree, split).leaves_of(Seq::empty());
    Seq::new(
        nodes.len(),
        |w: int| job_ahead(tree, split, nodes[w], w as usize, completed, in_progress),
    )
}

/// One of the lists has the leaf.
pub open spec fn listed(lists: Seq<Seq<Seq<usize>>>, leaf: Seq<usize>) -> bool {
    exists|w: int| 0 <= w < lists.len() && (#[trigger] lists[w]).contains(leaf)
}

/// All leaves of all lists.
pub open spec fn concat(lists: Seq<Seq<Seq<usize>>>) -> Seq<Seq<usize>>
    decreases lists.len(),
{
    if lists.len() == 0 {
        seq![]
    } else {
        concat(lists.drop_last()) + lists.last()
    }
}

pub proof fn lemma_concat_lists(lists: Seq<Seq<Seq<usize>>>, leaf: Seq<usize>)
    ensures
        concat(lists).contains(leaf) <==> listed(lists, leaf),
    decreases lists.len(),
{
    if lists.len() > 0 {
        let rest = lists.drop_last();
        let last = lists.last();
        let all = concat(lists);
        lemma_concat_lists(rest, leaf);
        if all.contains(leaf) {
            let i = choose|i: int| 0 <= i < all.len() && all[i] == leaf;
            if i < concat(rest).len() {
                assert(concat(rest)[i] == leaf);
                assert(concat(rest).contains(leaf));
                let w = choose|w: int| 0 <= w < rest.len() && (#[trigger] rest[w]).contains(leaf);
                assert(lists[w].contains(leaf));
            } else {
                assert(last[i - concat(rest).len()] == leaf);
                assert(lists[lists.len() - 1].contains(leaf));
            }
        }
        if listed(lists, leaf) {
            let w = choose|w: int| 0 <= w < lists.len() && (#[trigger] lists[w]).contains(leaf);
            if w < rest.len() {
                assert(rest[w].contains(leaf));
                let i = choose|i: int| 0 <= i < concat(rest).len() && concat(rest)[i] == leaf;
                assert(all[i] == leaf);
            } else {
                let i = choose|i: int| 0 <= i < last.len() && last[i] == leaf;
                assert(all[concat(rest).len() + i] == leaf);
            }
        }
    }
}

/// `longer` is `list` with leaves behind it, none of which stands before it already.
pub open spec fn extends(list: Seq<Seq<usize>>, longer: Seq<Seq<usize>>) -> bool {
    &&& list.len() <= longer.len()
    &&& longer.take(list.len() as int) == list
    &&& forall|i: int|
        list.len() <= i < longer.len() ==> !longer.take(i).contains(#[trigger] longer[i])
}

pub proof fn lemma_extends_itself(list: Seq<Seq<usize>>)
    ensures
        extends(list, list),
{
    assert(list.take(list.len() as int) =~= list);
}

proof fn lemma_extends_push(list: Seq<Seq<usize>>, longer: Seq<Seq<usize>>, leaf: Seq<usize>)
    requires
        extends(list, longer),
        !longer.contains(leaf),
    ensures
        extends(list, longer.push(leaf)),
{
    let all = longer.push(leaf);
    assert(all.take(list.len() as int) =~= longer.take(list.len() as int));
    assert forall|i: int| list.len() <= i < all.len() implies !all.take(i).contains(
        #[trigger] all[i],
    ) by {
        assert(all.take(i) =~= longer.take(i));
        if i == longer.len() {
            assert(longer.take(i) =~= longer);
        } else {
            assert(all[i] == longer[i]);
        }
    }
}

pub proof fn lemma_extends_further(
    a: Seq<Seq<usize>>,
    b: Seq<Seq<usize>>,
    c: Seq<Seq<usize>>,
)
    requires
        extends(a, b),
        extends(b, c),
    ensures
        extends(a, c),
{
    assert(c.take(a.len() as int) =~= b.take(a.len() as int)) by {
        assert forall|i: int| 0 <= i < a.len() implies c[i] == b[i] by {
            assert(c.take(b.len() as int)[i] == b[i]);
        }
    }
    assert forall|i: int| a.len() <= i < c.len() implies !c.take(i).contains(#[trigger] c[i]) by {
        if i < b.len() {
            assert(c.take(b.len() as int)[i] == b[i]);
            assert(c.take(i) =~= b.take(i)) by {
                assert forall|k: int| 0 <= k < i implies c[k] == b[k] by {
                    assert(c.take(b.len() as int)[k] == b[k]);
                }
            }
        }
    }
}

/// `found` is what the given leaves add to `from`, in whatever order they were looked at: the
/// highest count, the leaves that have it, and the leaves that hit the target. What stays of the
/// lists of `from` keeps its place.
pub open spec fn finds_all(
    tree: Tree,
    target: Option<usize>,
    from: Tally,
    leaves: Seq<Seq<usize>>,
    found: Tally,
) -> bool {
    &&& found.max == tree.best(from.max, leaves)
    &&& forall|leaf: Seq<usize>| #[trigger]
        found.shifts.contains(leaf) <==> {
            ||| from.max == found.max && from.shifts.contains(leaf)
            ||| leaves.contains(leaf) && tree.count(leaf) == found.max
        }
    &&& forall|leaf: Seq<usize>| #[trigger]
        found.target_shifts.contains(leaf) <==> {
            ||| from.target_shifts.contains(leaf)
            ||| leaves.contains(leaf) && hits(target, tree.count(leaf))
        }
    &&& found.max == from.max ==> extends(from.shifts, found.shifts)
    &&& extends(from.target_shifts, found.target_shifts)
    &&& from.shifts.no_duplicates() ==> found.shifts.no_duplicates()
    &&& from.target_shifts.no_duplicates() ==> found.target_shifts.no_duplicates()
}

/// What the threads of a parallel search rely on: the tree, where the search started, and which
/// leaves each job has to look at.
pub struct SearchPred {
    pub tree: Tree,
    pub target: Option<usize>,
    pub split: nat,
    pub start: Tally,
    pub todo: Seq<Seq<Seq<usize>>>,
}

impl SearchPred {
    /// The count that the search will end with.
    pub open spec fn goal(self) -> nat {
        self.tree.best(self.start.max, concat(self.todo))
    }

    /// The leaf cannot be missed any more: it counts to less than the search will end with, or it
    /// is listed; and it is listed among those that hit the target if it does.
    pub open spec fn accounted(self, tally: Tally, leaf: Seq<usize>) -> bool {
        &&& self.tree.count(leaf) < self.goal() || (tally.max == self.tree.count(leaf)
            && tally.shifts.contains(leaf))
        &&& hits(self.target, self.tree.count(leaf)) ==> tally.target_shifts.contains(leaf)
    }

    /// The tally has what the search started with, and nothing but that and leaves of the jobs.
    pub open spec fn sound(self, tally: Tally) -> bool {
        &&& self.start.max <= tally.max <= self.goal()
        &&& forall|leaf: Seq<usize>| #[trigger]
            tally.shifts.contains(leaf) ==> {
                ||| tally.max == self.start.max && self.start.shifts.contains(leaf)
                ||| listed(self.todo, leaf) && self.tree.count(leaf) == tally.max
            }
        &&& tally.max == self.start.max ==> forall|leaf: Seq<usize>| #[trigger]
            self.start.shifts.contains(leaf) ==> tally.shifts.contains(leaf)
        &&& forall|leaf: Seq<usize>| #[trigger]
            tally.target_shifts.contains(leaf) ==> {
                ||| self.start.target_shifts.contains(leaf)
                ||| listed(self.todo, leaf) && hits(self.target, self.tree.count(leaf))
            }
        &&& forall|leaf: Seq<usize>| #[trigger]
            self.start.target_shifts.contains(leaf) ==> tally.target_shifts.contains(leaf)
        &&& tally.max == self.start.max ==> extends(self.start.shifts, tally.shifts)
        &&& extends(self.start.target_shifts, tally.target_shifts)
        &&& self.start.shifts.no_duplicates() ==> tally.shifts.no_duplicates()
        &&& self.start.target_shifts.no_duplicates() ==> tally.target_shifts.no_duplicates()
    }

    /// The tally of one job has nothing but leaves of this job.
    pub open spec fn own_sound(self, own: Tally, w: int) -> bool {
        &&& own.max <= self.goal()
        &&& forall|leaf: Seq<usize>| #[trigger]
            own.shifts.contains(leaf) ==> self.todo[w].contains(leaf) && self.tree.count(leaf)
                == own.max
        &&& forall|leaf: Seq<usize>| #[trigger]
            own.target_shifts.contains(leaf) ==> self.todo[w].contains(leaf) && hits(
                self.target,
                self.tree.count(leaf),
            )
    }
}

/// No leaf of a job counts to more than the goal.
pub proof fn lemma_goal(pred: SearchPred, leaf: Seq<usize>)
    ensures
        pred.start.max <= pred.goal(),
        listed(pred.todo, leaf) ==> pred.tree.count(leaf) <= pred.goal(),
{
    lemma_best(pred.tree, pred.start.max, concat(pred.todo));
    lemma_concat_lists(pred.todo, leaf);
}

/// Recording a leaf of a job keeps a tally sound and accounts for the leaf; what was accounted for
/// still is.
pub proof fn lemma_record_sound(pred: SearchPred, tally: Tally, leaf: Seq<usize>)
    requires
        pred.sound(tally),
        listed(pred.todo, leaf),
    ensures
        ({
            let after = tally.record_once(pred.target, pred.tree.count(leaf), leaf);
            &&& pred.sound(after)
            &&& pred.accounted(after, leaf)
            &&& forall|other: Seq<usize>| #[trigger]
                pred.accounted(tally, other) ==> pred.accounted(after, other)
        }),
{
    let count = pred.tree.count(leaf);
    let after = tally.record_once(pred.target, count, leaf);
    lemma_goal(pred, leaf);
    lemma_push_contains(tally.shifts, leaf);
    lemma_push_contains(tally.target_shifts, leaf);
    lemma_push_contains(Seq::empty(), leaf);
    assert(Seq::<Seq<usize>>::empty().push(leaf) =~= seq![leaf]);
    if tally.max == pred.start.max && !tally.shifts.contains(leaf) {
        lemma_extends_push(pred.start.shifts, tally.shifts, leaf);
    }
    if !tally.target_shifts.contains(leaf) {
        lemma_extends_push(pred.start.target_shifts, tally.target_shifts, leaf);
    }
    assert forall|other: Seq<usize>| #[trigger]
        pred.accounted(tally, other) implies pred.accounted(after, other) by {}
}

/// The same for the tally of one job.
pub proof fn lemma_record_own(pred: SearchPred, own: Tally, w: int, leaf: Seq<usize>)
    requires
        pred.own_sound(own, w),
        0 <= w < pred.todo.len(),
        pred.todo[w].contains(leaf),
    ensures
        ({
            let after = own.record_once(pred.target, pred.tree.count(leaf), leaf);
            &&& pred.own_sound(after, w)
            &&& pred.accounted(after, leaf)
            &&& forall|other: Seq<usize>| #[trigger]
                pred.accounted(own, other) ==> pred.accounted(after, other)
        }),
{
    let count = pred.tree.count(leaf);
    let after = own.record_once(pred.target, count, leaf);
    assert(listed(pred.todo, leaf));
    lemma_goal(pred, leaf);
    lemma_push_contains(own.shifts, leaf);
    lemma_push_contains(own.target_shifts, leaf);
    lemma_push_contains(Seq::empty(), leaf);
    assert(Seq::<Seq<usize>>::empty().push(leaf) =~= seq![leaf]);
    assert forall|other: Seq<usize>| #[trigger]
        pred.accounted(own, other) implies pred.accounted(after, other) by {}
}

proof fn lemma_record_each_sound(
    pred: SearchPred,
    tally: Tally,
    count: nat,
    leaves: Seq<Seq<usize>>,
)
    requires
        pred.sound(tally),
        forall|leaf: Seq<usize>| #[trigger]
            leaves.contains(leaf) ==> listed(pred.todo, leaf) && pred.tree.count(leaf) == count,
    ensures
        ({
            let after = tally.record_each(pred.target, count, leaves);
            &&& pred.sound(after)
            &&& forall|leaf: Seq<usize>| #[trigger]
                leaves.contains(leaf) ==> pred.accounted(after, leaf)
            &&& forall|other: Seq<usize>| #[trigger]
                pred.accounted(tally, other) ==> pred.accounted(after, other)
        }),
    decreases leaves.len(),
{
    if leaves.len() > 0 {
        let rest = leaves.drop_last();
        let last = leaves.last();
        assert(leaves[leaves.len() - 1] == last);
        assert(leaves.contains(last));
        assert forall|leaf: Seq<usize>| #[trigger] rest.contains(leaf) implies listed(
            pred.todo,
            leaf,
        ) && pred.tree.count(leaf) == count by {
            let i = choose|i: int| 0 <= i < rest.len() && rest[i] == leaf;
            assert(leaves[i] == leaf);
            assert(leaves.contains(leaf));
        }
        lemma_record_each_sound(pred, tally, count, rest);
        let middle = tally.record_each(pred.target, count, rest);
        let after = tally.record_each(pred.target, count, leaves);
        lemma_record_sound(pred, middle, last);
        assert forall|leaf: Seq<usize>| #[trigger] leaves.contains(leaf) implies pred.accounted(
            after,
            leaf,
        ) by {
            let i = choose|i: int| 0 <= i < leaves.len() && leaves[i] == leaf;
            if i < rest.len() {
                assert(rest[i] == leaf);
                assert(rest.contains(leaf));
            }
        }
    }
}

/// Taking up the tally of a job keeps a tally sound, and accounts for all that the job's own tally
/// accounts for.
pub proof fn lemma_absorb_sound(pred: SearchPred, tally: Tally, own: Tally, w: int)
    requires
        pred.sound(tally),
        pred.own_sound(own, w),
        0 <= w < pred.todo.len(),
    ensures
        ({
            let after = tally.absorb(pred.target, own);
            &&& pred.sound(after)
            &&& forall|leaf: Seq<usize>| #[trigger]
                pred.accounted(own, leaf) ==> pred.accounted(after, leaf)
            &&& forall|leaf: Seq<usize>| #[trigger]
                pred.accounted(tally, leaf) ==> pred.accounted(after, leaf)
        }),
{
    let best = tally.record_each(pred.target, own.max, own.shifts);
    let after = tally.absorb(pred.target, own);
    assert forall|leaf: Seq<usize>| #[trigger] own.shifts.contains(leaf) implies listed(
        pred.todo,
        leaf,
    ) && pred.tree.count(leaf) == own.max by {
        assert(pred.todo[w].contains(leaf));
    }
    lemma_record_each_sound(pred, tally, own.max, own.shifts);
    match pred.target {
        Some(t) => {
            assert forall|leaf: Seq<usize>| #[trigger]
                own.target_shifts.contains(leaf) implies listed(pred.todo, leaf)
                && pred.tree.count(leaf) == t by {
                assert(pred.todo[w].contains(leaf));
            }
            lemma_record_each_sound(pred, best, t as nat, own.target_shifts);
        },
        None => {},
    }
    assert forall|leaf: Seq<usize>| #[trigger] pred.accounted(own, leaf) implies pred.accounted(
        after,
        leaf,
    ) by {
        if own.shifts.contains(leaf) {
            assert(pred.accounted(best, leaf));
            assert(pred.accounted(after, leaf));
        }
        if own.target_shifts.contains(leaf) {
            assert(pred.accounted(after, leaf));
        }
    }
}

/// A sound tally that accounts for every leaf of every job is the result of the search.
pub proof fn lemma_result(pred: SearchPred, tally: Tally)
    requires
        pred.sound(tally),
        forall|leaf: Seq<usize>| #[trigger]
            listed(pred.todo, leaf) ==> pred.accounted(tally, leaf),
    ensures
        finds_all(pred.tree, pred.target, pred.start, concat(pred.todo), tally),
{
    let leaves = concat(pred.todo);
    lemma_best(pred.tree, pred.start.max, leaves);
    assert forall|leaf: Seq<usize>| #[trigger] leaves.contains(leaf) <==> listed(
        pred.todo,
        leaf,
    ) by {
        lemma_concat_lists(pred.todo, leaf);
    }
    assert(tally.max == pred.goal()) by {
        if pred.goal() != pred.start.max {
            let leaf = choose|leaf: Seq<usize>| #[trigger]
                leaves.contains(leaf) && pred.tree.count(leaf) == pred.goal();
            assert(listed(pred.todo, leaf));
            assert(pred.accounted(tally, leaf));
        }
    }
    assert forall|leaf: Seq<usize>| #[trigger] leaves.contains(leaf) && pred.tree.count(leaf)
        == tally.max implies tally.shifts.contains(leaf) by {
        assert(listed(pred.todo, leaf));
        assert(pred.accounted(tally, leaf));
    }
    assert forall|leaf: Seq<usize>| #[trigger] leaves.contains(leaf) && hits(
        pred.target,
        pred.tree.count(leaf),
    ) implies tally.target_shifts.contains(leaf) by {
        assert(listed(pred.todo, leaf));
        assert(pred.accounted(tally, leaf));
    }
}

/// Only which leaves there are matters, not their order or number.
pub proof fn lemma_same_leaves(
    tree: Tree,
    target: Option<usize>,
    from: Tally,
    a: Seq<Seq<usize>>,
    b: Seq<Seq<usize>>,
    found: Tally,
)
    requires
        finds_all(tree, target, from, a, found),
        forall|leaf: Seq<usize>| #[trigger] a.contains(leaf) <==> b.contains(leaf),
    ensures
        finds_all(tree, target, from, b, found),
{
    lemma_best(tree, from.max, a);
    lemma_best(tree, from.max, b);
    let high = tree.best(from.max, a);
    let other = tree.best(from.max, b);
    if high != from.max {
        let leaf = choose|leaf: Seq<usize>| #[trigger]
            a.contains(leaf) && tree.count(leaf) == high;
        assert(b.contains(leaf));
    }
    if other != from.max {
        let leaf = choose|leaf: Seq<usize>| #[trigger]
            b.contains(leaf) && tree.count(leaf) == other;
        assert(a.contains(leaf));
    }
    assert forall|leaf: Seq<usize>| #[trigger] found.shifts.contains(leaf) <==> {
        ||| from.max == found.max && from.shifts.contains(leaf)
        ||| b.contains(leaf) && tree.count(leaf) == found.max
    } by {
        assert(a.contains(leaf) <==> b.contains(leaf));
    }
    assert forall|leaf: Seq<usize>| #[trigger] found.target_shifts.contains(leaf) <==> {
        ||| from.target_shifts.contains(leaf)
        ||| b.contains(leaf) && hits(target, tree.count(leaf))
    } by {
        assert(a.contains(leaf) <==> b.contains(leaf));
    }
}

/// Which leaves extend a path.
pub proof fn lemma_leaves_of_contains(tree: Tree, path: Seq<usize>, leaf: Seq<usize>)
    requires
        path.len() <= tree.depth,
    ensures
        tree.leaves_of(path).contains(leaf) <==> {
            &&& leaf.len() == tree.depth
            &&& path == leaf.take(path.len() as int)
            &&& forall|i: int| path.len() <= i < leaf.len() ==> #[trigger] leaf[i] < tree.fans[i]
        },
{
    if path.len() < tree.depth {
        lemma_leaves_below_contains(tree, path, tree.fans[path.len() as int] as nat, leaf);
    } else {
        assert(tree.leaves_of(path)[0] == path);
        if leaf.len() == tree.depth {
            assert(leaf.take(path.len() as int) =~= leaf);
        } else if tree.leaves_of(path).contains(leaf) {
            assert(leaf == path);
        }
    }
}

/// However the tree is split, the jobs have all its leaves between them, and no others.
pub proof fn law_split_covers_every_leaf(tree: Tree, split: nat)
    requires
        tree.wf(),
        split <= tree.depth,
        cut_at(tree, split).wf(),
    ensures
        forall|leaf: Seq<usize>| #[trigger]
            concat(jobs_ahead(tree, split, seq![], seq![])).contains(leaf) <==> tree.is_leaf(leaf),
{
    let short = cut_at(tree, split);
    let nodes = short.leaves_of(Seq::empty());
    let lists = jobs_ahead(tree, split, seq![], seq![]);
    law_search_covers_every_leaf(short);
    assert forall|leaf: Seq<usize>| #[trigger] concat(lists).contains(leaf) <==> tree.is_leaf(
        leaf,
    ) by {
        lemma_concat_lists(lists, leaf);
        if listed(lists, leaf) {
            let w = choose|w: int| 0 <= w < lists.len() && (#[trigger] lists[w]).contains(leaf);
            assert(lists[w] == tree.leaves_of(nodes[w]));
            assert(nodes.contains(nodes[w]));
            assert(short.is_leaf(nodes[w]));
            lemma_leaves_of_contains(tree, nodes[w], leaf);
            assert forall|i: int| 0 <= i < leaf.len() implies #[trigger] leaf[i] < tree.fans[i] by {
                if i < split {
                    assert(leaf[i] == nodes[w][i]);
                }
            }
        }
        if tree.is_leaf(leaf) {
            let node = leaf.take(split as int);
            assert(short.is_leaf(node));
            assert(nodes.contains(node));
            let w = choose|w: int| 0 <= w < nodes.len() && nodes[w] == node;
            lemma_leaves_of_contains(tree, node, leaf);
            assert(lists[w] == tree.leaves_of(node));
            assert(lists[w].contains(leaf));
        }
    }
}

/// A search on one thread and one on several find the same: the same highest count, the same leaves
/// that have it, the same leaves that hit the target, and as many of them.
pub proof fn law_sequential_and_parallel_agree(
    tree: Tree,
    target: Option<usize>,
    sequential: Tally,
    parallel: Tally,
)
    requires
        tree.wf(),
        sequential == tree.summary(target, Tally::empty(), tree.leaves_of(Seq::empty())),
        finds_all(tree, target, Tally::empty(), tree.leaves_of(Seq::empty()), parallel),
    ensures
        parallel.max == sequential.max,
        parallel.shifts.to_set() == sequential.shifts.to_set(),
        parallel.shifts.len() == sequential.shifts.len(),
        parallel.target_shifts.to_set() == sequential.target_shifts.to_set(),
        parallel.target_shifts.len() == sequential.target_shifts.len(),
{
    let leaves = tree.leaves_of(Seq::empty());
    law_search_covers_every_leaf(tree);
    law_search_finds_every_best_leaf(tree, target);
    assert forall|leaf: Seq<usize>| #[trigger] parallel.shifts.contains(leaf) <==>
        sequential.shifts.contains(leaf) by {
        assert(leaves.contains(leaf) <==> tree.is_leaf(leaf));
    }
    assert forall|leaf: Seq<usize>| #[trigger] parallel.target_shifts.contains(leaf) <==>
        sequential.target_shifts.contains(leaf) by {
        assert(leaves.contains(leaf) <==> tree.is_leaf(leaf));
    }
    assert(parallel.shifts.to_set() =~= sequential.shifts.to_set());
    assert(parallel.target_shifts.to_set() =~= sequential.target_shifts.to_set());
    parallel.shifts.unique_seq_to_set();
    sequential.shifts.unique_seq_to_set();
    parallel.target_shifts.unique_seq_to_set();
    sequential.target_shifts.unique_seq_to_set();
}

} // verus!
