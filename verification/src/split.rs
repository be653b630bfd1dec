//! Splitting the tree at its upper levels into work for several threads.

use vstd::prelude::*;

use crate::bitmask::{overlay, BitMask};
use crate::bits::both;
use crate::results::copy_path;
use crate::search::State;
use crate::tree::{
    law_search_covers_every_leaf, lemma_row_push, lemma_row_root, searched_before, Tree,
};

verus! {

/// The first levels of a tree.
pub open spec fn cut_at(tree: Tree, depth: nat) -> Tree {
    Tree { depth, fans: tree.fans, rows: tree.rows, base: tree.base }
}

/// The children `n - 1`, ..., `0` of a node.
pub open spec fn extensions(path: Seq<usize>, n: nat) -> Seq<Seq<usize>> {
    Seq::new(n, |i: int| path.push((n - 1 - i) as usize))
}

/// The children of all given nodes, node after node.
pub open spec fn expand(nodes: Seq<Seq<usize>>, n: nat) -> Seq<Seq<usize>>
    decreases nodes.len(),
{
    if nodes.len() == 0 {
        seq![]
    } else {
        expand(nodes.drop_last(), n) + extensions(nodes.last(), n)
    }
}

proof fn lemma_expand_concat(a: Seq<Seq<usize>>, b: Seq<Seq<usize>>, n: nat)
    ensures
        expand(a + b, n) == expand(a, n) + expand(b, n),
    decreases b.len(),
{
    if b.len() == 0 {
        assert(a + b =~= a);
        assert(expand(a, n) + expand(b, n) =~= expand(a, n));
    } else {
        assert((a + b).drop_last() =~= a + b.drop_last());
        assert((a + b).last() == b.last());
        lemma_expand_concat(a, b.drop_last(), n);
        assert(expand(a + b, n) =~= expand(a, n) + expand(b, n));
    }
}

proof fn lemma_last_level(tree: Tree, path: Seq<usize>, n: nat)
    requires
        path.len() + 1 == tree.depth,
    ensures
        tree.leaves_below(path, n) == extensions(path, n),
    decreases n,
{
    if n > 0 {
        lemma_last_level(tree, path, (n - 1) as nat);
        let rest = extensions(path, (n - 1) as nat);
        assert(seq![path.push((n - 1) as usize)] + rest =~= extensions(path, n));
    } else {
        assert(tree.leaves_below(path, n) =~= extensions(path, n));
    }
}

proof fn lemma_one_level_more(tree: Tree, depth: nat, path: Seq<usize>, n: nat)
    requires
        path.len() < depth,
    ensures
        cut_at(tree, depth + 1).leaves_below(path, n) == expand(
            cut_at(tree, depth).leaves_below(path, n),
            tree.fans[depth as int] as nat,
        ),
    decreases depth - path.len(), n,
{
    let short = cut_at(tree, depth);
    let long = cut_at(tree, depth + 1);
    let fan = tree.fans[depth as int] as nat;
    if n > 0 {
        let child = path.push((n - 1) as usize);
        lemma_one_level_more(tree, depth, path, (n - 1) as nat);
        let rest = short.leaves_below(path, (n - 1) as nat);
        if child.len() == depth {
            lemma_last_level(long, child, fan);
            assert(seq![child].drop_last() =~= Seq::<Seq<usize>>::empty());
            assert(expand(seq![child].drop_last(), fan) =~= Seq::<Seq<usize>>::empty());
            assert(expand(seq![child], fan) =~= extensions(child, fan));
            lemma_expand_concat(seq![child], rest, fan);
        } else {
            let next = tree.fans[child.len() as int] as nat;
            lemma_one_level_more(tree, depth, child, next);
            lemma_expand_concat(short.leaves_below(child, next), rest, fan);
        }
    }
}

/// Cutting one level further down replaces every node by its children.
pub proof fn lemma_next_cut(tree: Tree, depth: nat)
    ensures
        cut_at(tree, depth + 1).leaves_of(Seq::empty()) == expand(
            cut_at(tree, depth).leaves_of(Seq::empty()),
            tree.fans[depth as int] as nat,
        ),
{
    let root = Seq::<usize>::empty();
    let fan = tree.fans[depth as int] as nat;
    if depth == 0 {
        lemma_last_level(cut_at(tree, 1), root, fan);
        assert(seq![root].drop_last() =~= Seq::<Seq<usize>>::empty());
        assert(expand(seq![root].drop_last(), fan) =~= Seq::<Seq<usize>>::empty());
        assert(expand(seq![root], fan) =~= extensions(root, fan));
    } else {
        lemma_one_level_more(tree, depth, root, tree.fans[0] as nat);
    }
}

/// How many nodes there are at the level `n`.
pub open spec fn width(fans: Seq<usize>, n: nat) -> nat
    decreases n,
{
    if n == 0 {
        1
    } else {
        width(fans, (n - 1) as nat) * (fans[n - 1] as nat)
    }
}

/// A level has as many nodes as the product of the primes above it.
pub proof fn law_width_is_the_product_of_the_primes(fans: Seq<usize>, n: nat)
    requires
        n <= fans.len(),
    ensures
        width(fans, n) == fans.take(n as int).fold_left(1int, |a: int, p: usize| a * p),
    decreases n,
{
    let f = |a: int, p: usize| a * p;
    let taken = fans.take(n as int);
    if n > 0 {
        law_width_is_the_product_of_the_primes(fans, (n - 1) as nat);
        assert(taken.drop_last() =~= fans.take(n - 1));
        assert(taken.fold_left(1int, f) == f(fans.take(n - 1).fold_left(1int, f), fans[n - 1]));
    } else {
        assert(taken =~= Seq::<usize>::empty());
    }
}

proof fn lemma_expand_len(nodes: Seq<Seq<usize>>, n: nat)
    ensures
        expand(nodes, n).len() == nodes.len() * n,
    decreases nodes.len(),
{
    if nodes.len() > 0 {
        let rest = (nodes.len() - 1) as nat;
        lemma_expand_len(nodes.drop_last(), n);
        assert((rest + 1) * n == rest * n + n) by (nonlinear_arith);
    } else {
        assert(0 * n == 0) by (nonlinear_arith);
    }
}

/// The nodes at a level are as many as the product of the primes above it.
pub proof fn law_nodes_at_a_level(tree: Tree, n: nat)
    requires
        n <= tree.fans.len(),
    ensures
        cut_at(tree, n).leaves_of(Seq::empty()).len() == tree.fans.take(n as int).fold_left(
            1int,
            |a: int, p: usize| a * p,
        ),
    decreases n,
{
    law_width_is_the_product_of_the_primes(tree.fans, n);
    lemma_nodes_at_a_level(tree, n);
}

proof fn lemma_nodes_at_a_level(tree: Tree, n: nat)
    requires
        n <= tree.fans.len(),
    ensures
        cut_at(tree, n).leaves_of(Seq::empty()).len() == width(tree.fans, n),
    decreases n,
{
    if n > 0 {
        let above = (n - 1) as nat;
        lemma_nodes_at_a_level(tree, above);
        lemma_next_cut(tree, above);
        lemma_expand_len(
            cut_at(tree, above).leaves_of(Seq::empty()),
            tree.fans[above as int] as nat,
        );
    }
}

/// `rayon::current_num_threads` returns the number of threads of the current pool. A pool has at
/// least one thread, and rayon never starts more than fit its 16-bit thread counters.
pub assume_specification[ rayon::current_num_threads ]() -> (threads: usize)
    ensures
        1 <= threads <= 0xffff,
;

/// A node at the level at which the tree is split, with the columns that are open there.
#[derive(Debug)]
pub struct WorkItem {
    pub key: Vec<usize>,
    pub base_mask: BitMask,
}

impl Clone for WorkItem {
    fn clone(&self) -> (copy: Self)
        ensures
            copy.key@ == self.key@,
            copy.base_mask@ == self.base_mask@,
            copy.base_mask.wf() == self.base_mask.wf(),
    {
        WorkItem { key: copy_path(&self.key), base_mask: self.base_mask.clone() }
    }
}

/// The nodes of a list of work items.
pub open spec fn item_paths(items: Seq<WorkItem>) -> Seq<Seq<usize>> {
    Seq::new(items.len(), |i: int| items[i].key@)
}

/// Every item has the columns that are open at its node.
pub open spec fn items_fit(tree: Tree, items: Seq<WorkItem>) -> bool {
    forall|i: int|
        0 <= i < items.len() ==> {
            &&& (#[trigger] items[i]).base_mask.wf()
            &&& items[i].base_mask@ == tree.row(items[i].key@)
        }
}

fn saturating_product(a: usize, b: usize) -> (product: usize)
    ensures
        product == if a * b <= usize::MAX {
            a * b
        } else {
            usize::MAX as int
        },
{
    match a.checked_mul(b) {
        Some(product) => product,
        None => usize::MAX,
    }
}

impl State {
    /// The first level from the root that has at least `target_tasks` nodes, but not the root
    /// itself, or `depth` where there is none above it.
    pub open spec fn splits_at(&self, depth: usize, target_tasks: usize, level: usize) -> bool {
        &&& level <= depth
        &&& depth > 0 ==> level > 0
        &&& level < depth ==> width(self.primes@, level as nat) >= target_tasks
        &&& forall|l: nat|
            0 < l < level ==> #[trigger] width(self.primes@, l) < target_tasks
    }

    /// The level at which the tree has enough nodes for `target_tasks` tasks.
    pub fn split_depth_for(&self, depth: usize, target_tasks: usize) -> (split_depth: usize)
        requires
            depth <= self.primes@.len(),
        ensures
            self.splits_at(depth, target_tasks, split_depth),
            split_depth <= depth,
            depth > 0 ==> split_depth > 0,
            split_depth < depth ==> self.primes@.take(split_depth as int).fold_left(
                1int,
                |a: int, p: usize| a * p,
            ) >= target_tasks,
            forall|l: int|
                0 < l < split_depth ==> (#[trigger] self.primes@.take(l)).fold_left(
                    1int,
                    |a: int, p: usize| a * p,
                ) < target_tasks,
    {
        let mut task_count: usize = 1;
        let mut level: usize = 0;
        while level < depth
            invariant
                depth <= self.primes@.len(),
                0 <= level <= depth,
                task_count == if width(self.primes@, level as nat) <= usize::MAX {
                    width(self.primes@, level as nat)
                } else {
                    usize::MAX as nat
                },
                forall|l: nat|
                    0 < l <= level ==> #[trigger] width(self.primes@, l) < target_tasks,
            decreases depth - level,
        {
            let fan: usize = self.primes[level];
            proof {
                let wide = width(self.primes@, level as nat);
                assert(width(self.primes@, level as nat + 1) == wide * fan as nat);
                if wide > usize::MAX {
                    assert(fan > 0 ==> wide * fan >= wide) by (nonlinear_arith)
                        requires
                            fan >= 0,
                            wide >= 0,
                    ;
                    assert(fan > 0 ==> usize::MAX * fan >= usize::MAX) by (nonlinear_arith);
                    assert(fan == 0 ==> wide * fan == 0) by (nonlinear_arith);
                }
            }
            task_count = saturating_product(task_count, fan);
            if task_count >= target_tasks {
                proof {
                    self.lemma_split(depth, target_tasks, (level + 1) as usize);
                }
                return level + 1;
            }
            level = level + 1;
        }
        proof {
            self.lemma_split(depth, target_tasks, depth);
        }
        depth
    }

    /// A split in terms of the primes.
    proof fn lemma_split(&self, depth: usize, target_tasks: usize, split_depth: usize)
        requires
            depth <= self.primes@.len(),
            self.splits_at(depth, target_tasks, split_depth),
        ensures
            split_depth <= depth,
            depth > 0 ==> split_depth > 0,
            split_depth < depth ==> self.primes@.take(split_depth as int).fold_left(
                1int,
                |a: int, p: usize| a * p,
            ) >= target_tasks,
            forall|l: int|
                0 < l < split_depth ==> (#[trigger] self.primes@.take(l)).fold_left(
                    1int,
                    |a: int, p: usize| a * p,
                ) < target_tasks,
    {
        law_width_is_the_product_of_the_primes(self.primes@, split_depth as nat);
        assert forall|l: int| 0 < l < split_depth implies (
        #[trigger] self.primes@.take(l)).fold_left(1int, |a: int, p: usize| a * p)
            < target_tasks by {
            law_width_is_the_product_of_the_primes(self.primes@, l as nat);
            assert(width(self.primes@, l as nat) < target_tasks);
        }
    }

    /// The level at which to split the tree for the threads at hand.
    pub fn parallel_split_depth(&self, depth: usize) -> (split_depth: usize)
        requires
            depth <= self.primes@.len(),
        ensures
            exists|threads: usize|
                {
                    &&& 1 <= threads <= 0xffff
                    &&& #[trigger] self.splits_at_for(depth, threads, split_depth)
                    &&& split_depth <= depth
                    &&& depth > 0 ==> split_depth > 0
                    &&& split_depth < depth ==> self.primes@.take(split_depth as int).fold_left(
                        1int,
                        |a: int, p: usize| a * p,
                    ) >= threads * self.parallel_tasks_per_thread || threads
                        * self.parallel_tasks_per_thread > usize::MAX
                    &&& forall|l: int|
                        0 < l < split_depth ==> (#[trigger] self.primes@.take(l)).fold_left(
                            1int,
                            |a: int, p: usize| a * p,
                        ) < threads * self.parallel_tasks_per_thread
                },
    {
        let threads: usize = rayon::current_num_threads();
        let target_tasks: usize = saturating_product(threads, self.parallel_tasks_per_thread);
        let split_depth: usize = self.split_depth_for(depth, target_tasks);
        assert(self.splits_at_for(depth, threads, split_depth));
        proof {
            self.lemma_split(depth, target_tasks, split_depth);
        }
        split_depth
    }

    /// The split for the given number of threads: enough nodes for each of them to have its number
    /// of tasks.
    pub open spec fn splits_at_for(
        &self,
        depth: usize,
        threads: usize,
        split_depth: usize,
    ) -> bool {
        let wanted = threads * self.parallel_tasks_per_thread;
        self.splits_at(
            depth,
            if wanted <= usize::MAX {
                wanted as usize
            } else {
                usize::MAX
            },
            split_depth,
        )
    }

    /// The nodes at the level `split_depth`, in the order of the search.
    pub fn parallel_work_items(&self, split_depth: usize) -> (items: Vec<WorkItem>)
        requires
            self.ready(split_depth),
        ensures
            item_paths(items@) == self.tree(split_depth).leaves_of(Seq::empty()),
            items_fit(self.tree(split_depth), items@),
            items@.len() == self.primes@.take(split_depth as int).fold_left(
                1int,
                |a: int, p: usize| a * p,
            ),
            forall|path: Seq<usize>|
                (exists|w: int| 0 <= w < items@.len() && (#[trigger] items@[w]).key@ == path) <==> {
                    &&& path.len() == split_depth
                    &&& forall|l: int| 0 <= l < path.len() ==> #[trigger] path[l] < self.primes@[l]
                },
            forall|v: int, w: int|
                0 <= v < w < items@.len() ==> searched_before(
                    (#[trigger] items@[v]).key@,
                    (#[trigger] items@[w]).key@,
                ),
            forall|w: int, c: int|
                0 <= w < items@.len() && 0 <= c < self.zero_mask@.len()
                    ==> #[trigger] items@[w].base_mask@[c] == (self.zero_mask@[c] && forall|l: int|
                    0 <= l < split_depth ==> self.shift_table@[l]@[
                        #[trigger] items@[w].key@[l] as int
                    ]@[c]),
    {
        let ghost tree = self.tree(split_depth);
        let mut work_items: Vec<WorkItem> = Vec::new();
        let root: Vec<usize> = Vec::new();
        work_items.push(WorkItem { key: root, base_mask: self.zero_mask.clone() });
        let mut level: usize = 0;
        proof {
            lemma_row_root(tree);
            assert(root@ =~= Seq::<usize>::empty());
            assert(item_paths(work_items@) =~= cut_at(tree, 0).leaves_of(Seq::empty()));
        }
        while level < split_depth
            invariant
                self.ready(split_depth),
                tree == self.tree(split_depth),
                0 <= level <= split_depth,
                item_paths(work_items@) == cut_at(tree, level as nat).leaves_of(Seq::empty()),
                items_fit(tree, work_items@),
                forall|i: int|
                    0 <= i < work_items@.len() ==> (#[trigger] work_items@[i]).key@.len() == level,
            decreases split_depth - level,
        {
            let fan: usize = self.primes[level];
            let next_items = self.expand_items(split_depth, level, fan, &work_items);
            proof {
                lemma_next_cut(tree, level as nat);
            }
            work_items = next_items;
            level = level + 1;
        }
        assert(cut_at(tree, split_depth as nat) == tree);
        proof {
            law_nodes_at_a_level(tree, split_depth as nat);
            self.lemma_items(split_depth, work_items@);
        }
        work_items
    }

    proof fn lemma_items(&self, split_depth: usize, items: Seq<WorkItem>)
        requires
            self.ready(split_depth),
            item_paths(items) == self.tree(split_depth).leaves_of(Seq::empty()),
            items_fit(self.tree(split_depth), items),
        ensures
            forall|path: Seq<usize>|
                (exists|w: int| 0 <= w < items.len() && (#[trigger] items[w]).key@ == path) <==> {
                    &&& path.len() == split_depth
                    &&& forall|l: int| 0 <= l < path.len() ==> #[trigger] path[l] < self.primes@[l]
                },
            forall|v: int, w: int|
                0 <= v < w < items.len() ==> searched_before(
                    (#[trigger] items[v]).key@,
                    (#[trigger] items[w]).key@,
                ),
            forall|w: int, c: int|
                0 <= w < items.len() && 0 <= c < self.zero_mask@.len()
                    ==> #[trigger] items[w].base_mask@[c] == (self.zero_mask@[c] && forall|l: int|
                    0 <= l < split_depth ==> self.shift_table@[l]@[
                        #[trigger] items[w].key@[l] as int
                    ]@[c]),
    {
        let tree = self.tree(split_depth);
        let nodes = tree.leaves_of(Seq::empty());
        law_search_covers_every_leaf(tree);
        assert forall|path: Seq<usize>|
            (exists|w: int| 0 <= w < items.len() && (#[trigger] items[w]).key@ == path) <==> {
                &&& path.len() == split_depth
                &&& forall|l: int| 0 <= l < path.len() ==> #[trigger] path[l] < self.primes@[l]
            } by {
            assert(nodes.contains(path) <==> tree.is_leaf(path));
            if exists|w: int| 0 <= w < items.len() && (#[trigger] items[w]).key@ == path {
                let w = choose|w: int| 0 <= w < items.len() && (#[trigger] items[w]).key@ == path;
                assert(item_paths(items)[w] == path);
            }
            if nodes.contains(path) {
                let w = choose|w: int| 0 <= w < nodes.len() && nodes[w] == path;
                assert(item_paths(items)[w] == items[w].key@);
            }
        }
        assert forall|w: int| 0 <= w < items.len() implies tree.is_leaf(
            (#[trigger] items[w]).key@,
        ) by {
            assert(item_paths(items)[w] == items[w].key@);
            assert(nodes.contains(items[w].key@));
        }
        assert forall|v: int, w: int| 0 <= v < w < items.len() implies searched_before(
            (#[trigger] items[v]).key@,
            (#[trigger] items[w]).key@,
        ) by {
            assert(item_paths(items)[v] == items[v].key@);
            assert(item_paths(items)[w] == items[w].key@);
            assert(searched_before(nodes[v], nodes[w]));
        }
        assert forall|w: int, c: int|
            0 <= w < items.len() && 0 <= c < self.zero_mask@.len() implies
        #[trigger] items[w].base_mask@[c] == (self.zero_mask@[c] && forall|l: int|
            0 <= l < split_depth ==> self.shift_table@[l]@[#[trigger] items[w].key@[l] as int]@[c]) by {
            assert(tree.is_leaf(items[w].key@));
            assert forall|l: int| 0 <= l < items[w].key@.len() implies #[trigger] items[w].key@[l]
                < self.shift_table@[l]@.len() by {
                assert(tree.fans[l] <= tree.rows[l].len());
            }
            self.lemma_row_of(split_depth, items[w].key@, c);
        }
    }

    /// The children below `fan` of all given nodes, which lie on one level.
    fn expand_items(
        &self,
        split_depth: usize,
        level: usize,
        fan: usize,
        items: &Vec<WorkItem>,
    ) -> (children: Vec<WorkItem>)
        requires
            self.ready(split_depth),
            level < split_depth,
            fan == self.primes@[level as int],
            items_fit(self.tree(split_depth), items@),
            forall|i: int| 0 <= i < items@.len() ==> (#[trigger] items@[i]).key@.len() == level,
        ensures
            item_paths(children@) == expand(item_paths(items@), fan as nat),
            items_fit(self.tree(split_depth), children@),
            forall|i: int|
                0 <= i < children@.len() ==> (#[trigger] children@[i]).key@.len() == level + 1,
    {
        let ghost tree = self.tree(split_depth);
        let ghost nodes = item_paths(items@);
        let mut children: Vec<WorkItem> = Vec::new();
        let mut j: usize = 0;
        proof {
            assert(nodes.take(0) =~= Seq::<Seq<usize>>::empty());
            assert(item_paths(children@) =~= expand(nodes.take(0), fan as nat));
            assert(tree.fans[level as int] <= tree.rows[level as int].len());
            assert(tree.rows[level as int].len() == self.shift_table@[level as int]@.len());
        }
        while j < items.len()
            invariant
                self.ready(split_depth),
                tree == self.tree(split_depth),
                level < split_depth,
                nodes == item_paths(items@),
                items_fit(tree, items@),
                fan <= tree.rows[level as int].len(),
                tree.rows[level as int].len() == self.shift_table@[level as int]@.len(),
                0 <= j <= items@.len(),
                forall|i: int| 0 <= i < items@.len() ==> (#[trigger] items@[i]).key@.len() == level,
                item_paths(children@) == expand(nodes.take(j as int), fan as nat),
                items_fit(tree, children@),
                forall|i: int|
                    0 <= i < children@.len() ==> (#[trigger] children@[i]).key@.len() == level + 1,
            decreases items@.len() - j,
        {
            let item = &items[j];
            let ghost done = item_paths(children@);
            let ghost path = item.key@;
            let mut shift: usize = fan;
            assert(item_paths(children@) =~= done + extensions(path, fan as nat).take(0));
            while shift > 0
                invariant
                    self.ready(split_depth),
                    tree == self.tree(split_depth),
                    level < split_depth,
                    path == item.key@,
                    path.len() == level,
                    item.base_mask.wf(),
                    item.base_mask@ == tree.row(path),
                    0 <= shift <= fan,
                    fan <= tree.rows[level as int].len(),
                    tree.rows[level as int].len() == self.shift_table@[level as int]@.len(),
                    item_paths(children@) == done + extensions(path, fan as nat).take(
                        (fan - shift) as int,
                    ),
                    items_fit(tree, children@),
                    forall|i: int|
                        0 <= i < children@.len() ==> (#[trigger] children@[i]).key@.len() == level
                            + 1,
                decreases shift,
            {
                let ghost before = children@;
                let ghost taken = (fan - shift) as int;
                shift = shift - 1;
                let mut base_mask = self.zero_mask.clone();
                assert(tree.rows[level as int][shift as int]
                    == self.shift_table@[level as int]@[shift as int]@);
                assert(tree.rows[level as int][shift as int].len() == tree.base.len());
                base_mask.bitand_into_count(&item.base_mask, &self.shift_table[level][shift]);
                let mut key = copy_path(&item.key);
                key.push(shift);
                proof {
                    lemma_row_push(tree, path, shift);
                    let meet = both(tree.row(path), tree.rows[level as int][shift as int]);
                    assert(overlay(self.zero_mask@, meet) =~= meet);
                }
                children.push(WorkItem { key, base_mask });
                proof {
                    assert(extensions(path, fan as nat).take(taken + 1) =~= extensions(
                        path,
                        fan as nat,
                    ).take(taken).push(key@));
                    assert(item_paths(children@) =~= item_paths(before).push(key@));
                    assert(item_paths(children@) =~= done + extensions(path, fan as nat).take(
                        taken + 1,
                    ));
                    assert forall|i: int| 0 <= i < children@.len() implies {
                        &&& (#[trigger] children@[i]).base_mask.wf()
                        &&& children@[i].base_mask@ == tree.row(children@[i].key@)
                    } by {
                        if i < before.len() {
                            assert(children@[i] == before[i]);
                        }
                    }
                }
            }
            proof {
                assert(extensions(path, fan as nat).take(fan as int) =~= extensions(
                    path,
                    fan as nat,
                ));
                assert(nodes.take(j as int + 1).drop_last() =~= nodes.take(j as int));
                assert(nodes.take(j as int + 1).last() == path);
            }
            j = j + 1;
        }
        assert(nodes.take(j as int) =~= nodes);
        children
    }
}

} // verus!
