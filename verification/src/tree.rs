//! The tree of shift sequences: what its paths count, and what a search of it finds.

use vstd::prelude::*;

use crate::bits::{both, lemma_ones_monotone, ones};

verus! {

/// A tree of shift sequences. A path of length `n` picks one shift for each of the levels below
/// `n`; a path of length `depth` is a leaf.
pub struct Tree {
    /// Length of a leaf.
    pub depth: nat,
    /// How many shifts a level has, for each level.
    pub fans: Seq<usize>,
    /// The columns that a shift leaves open, for each level and shift.
    pub rows: Seq<Seq<Seq<bool>>>,
    /// The columns that are open at the root.
    pub base: Seq<bool>,
}

/// What a search has found so far.
pub struct Tally {
    /// The highest count of a leaf.
    pub max: nat,
    /// The leaves with that count, in the order in which they were found.
    pub shifts: Seq<Seq<usize>>,
    /// The leaves whose count is the target.
    pub target_shifts: Seq<Seq<usize>>,
}

/// A tally, and how many nodes were visited for it.
pub struct Progress {
    pub tally: Tally,
    pub nodes: nat,
}

impl Tally {
    /// Nothing found.
    pub open spec fn empty() -> Tally {
        Tally { max: 0, shifts: seq![], target_shifts: seq![] }
    }

    /// The tally after a leaf with the given count: a higher count replaces what was found, an
    /// equal one adds to it, and a count that is the target is noted besides.
    pub open spec fn record(self, target: Option<usize>, count: nat, leaf: Seq<usize>) -> Tally {
        Tally {
            max: if count > self.max {
                count
            } else {
                self.max
            },
            shifts: if count > self.max {
                seq![leaf]
            } else if count == self.max {
                self.shifts.push(leaf)
            } else {
                self.shifts
            },
            target_shifts: if hits(target, count) {
                self.target_shifts.push(leaf)
            } else {
                self.target_shifts
            },
        }
    }

    /// No leaf that counts to `count` or less can change the tally.
    pub open spec fn prunes(self, target: Option<usize>, count: nat) -> bool {
        count < self.max && out_of_reach(target, count)
    }
}

/// The count is the target.
pub open spec fn hits(target: Option<usize>, count: nat) -> bool {
    target matches Some(t) && count == t
}

/// There is no target, or the count is below it.
pub open spec fn out_of_reach(target: Option<usize>, count: nat) -> bool {
    target matches Some(t) ==> count < t
}

impl Tree {
    /// Every level has a row for each of its shifts, and all rows are equally long.
    pub open spec fn wf(self) -> bool {
        &&& self.depth <= self.fans.len()
        &&& self.depth <= self.rows.len()
        &&& forall|l: int| 0 <= l < self.depth ==> #[trigger] self.fans[l] <= self.rows[l].len()
        &&& forall|l: int, s: int|
            0 <= l < self.depth && 0 <= s < self.rows[l].len() ==> (#[trigger] self.rows[l][s]).len()
                == self.base.len()
    }

    /// A path that has a row for each of its shifts.
    pub open spec fn has_path(self, path: Seq<usize>) -> bool {
        &&& path.len() <= self.depth
        &&& forall|i: int| 0 <= i < path.len() ==> #[trigger] path[i] < self.rows[i].len()
    }

    /// A shift sequence of full length: every level picks one of its shifts.
    pub open spec fn is_leaf(self, path: Seq<usize>) -> bool {
        &&& path.len() == self.depth
        &&& forall|i: int| 0 <= i < path.len() ==> #[trigger] path[i] < self.fans[i]
    }

    /// The columns that all shifts of a path leave open.
    pub open spec fn row(self, path: Seq<usize>) -> Seq<bool> {
        Seq::new(
            self.base.len(),
            |i: int|
                self.base[i] && forall|j: int|
                    0 <= j < path.len() ==> (#[trigger] self.rows[j][path[j] as int])[i],
        )
    }

    /// How many columns all shifts of a path leave open.
    pub open spec fn count(self, path: Seq<usize>) -> nat {
        ones(self.row(path))
    }

    /// The leaves below the children `n - 1`, ..., `0` of `path`, in this order of children.
    pub open spec fn leaves_below(self, path: Seq<usize>, n: nat) -> Seq<Seq<usize>>
        decreases self.depth - path.len(), n,
    {
        if path.len() >= self.depth || n == 0 {
            seq![]
        } else {
            let child = path.push((n - 1) as usize);
            (if child.len() >= self.depth {
                seq![child]
            } else {
                self.leaves_below(child, self.fans[child.len() as int] as nat)
            }) + self.leaves_below(path, (n - 1) as nat)
        }
    }

    /// The leaves that extend `path`, which is one itself where it has full length.
    pub open spec fn leaves_of(self, path: Seq<usize>) -> Seq<Seq<usize>> {
        if path.len() >= self.depth {
            seq![path]
        } else {
            self.leaves_below(path, self.fans[path.len() as int] as nat)
        }
    }

    /// How many nodes there are below the first `n` shifts of a node at `level`.
    pub open spec fn nodes_below(self, level: nat, n: nat) -> nat
        decreases self.depth - level, n,
    {
        if level >= self.depth || n == 0 {
            0
        } else {
            1 + (if level + 1 >= self.depth {
                0
            } else {
                self.nodes_below(level + 1, self.fans[level as int + 1] as nat)
            }) + self.nodes_below(level, (n - 1) as nat)
        }
    }

    /// Depth-first search of the children `n - 1`, ..., `0` of `path`. A node whose count shows
    /// that no leaf below it matters is visited and left again.
    pub open spec fn explore(
        self,
        target: Option<usize>,
        from: Progress,
        path: Seq<usize>,
        n: nat,
    ) -> Progress
        decreases self.depth - path.len(), n,
    {
        if path.len() >= self.depth || n == 0 {
            from
        } else {
            let child = path.push((n - 1) as usize);
            let seen = Progress { tally: from.tally, nodes: from.nodes + 1 };
            let after = if from.tally.prunes(target, self.count(child)) {
                seen
            } else if child.len() >= self.depth {
                Progress {
                    tally: from.tally.record(target, self.count(child), child),
                    nodes: seen.nodes,
                }
            } else {
                self.explore(target, seen, child, self.fans[child.len() as int] as nat)
            };
            self.explore(target, after, path, (n - 1) as nat)
        }
    }

    /// A visit of one node and, unless its count rules them out, of the nodes below it.
    pub open spec fn visit(
        self,
        target: Option<usize>,
        from: Progress,
        node: Seq<usize>,
    ) -> Progress {
        let seen = Progress { tally: from.tally, nodes: from.nodes + 1 };
        if from.tally.prunes(target, self.count(node)) {
            seen
        } else if node.len() >= self.depth {
            Progress {
                tally: from.tally.record(target, self.count(node), node),
                nodes: seen.nodes,
            }
        } else {
            self.explore(target, seen, node, self.fans[node.len() as int] as nat)
        }
    }

    /// The tally after all the given leaves, one after the other.
    pub open spec fn record_all(
        self,
        target: Option<usize>,
        from: Tally,
        leaves: Seq<Seq<usize>>,
    ) -> Tally
        decreases leaves.len(),
    {
        if leaves.len() == 0 {
            from
        } else {
            self.record_all(target, from, leaves.drop_last()).record(
                target,
                self.count(leaves.last()),
                leaves.last(),
            )
        }
    }

    /// The highest of `from` and the counts of the given leaves.
    pub open spec fn best(self, from: nat, leaves: Seq<Seq<usize>>) -> nat
        decreases leaves.len(),
    {
        if leaves.len() == 0 {
            from
        } else {
            let rest = self.best(from, leaves.drop_last());
            if self.count(leaves.last()) > rest {
                self.count(leaves.last())
            } else {
                rest
            }
        }
    }

    /// Those of the given leaves that count to `count`, in their order.
    pub open spec fn counting_to(self, leaves: Seq<Seq<usize>>, count: nat) -> Seq<Seq<usize>> {
        leaves.filter(|leaf: Seq<usize>| self.count(leaf) == count)
    }

    /// What the given leaves add to a tally: the highest count, the leaves that have it, after
    /// what was there if that had it too, and the leaves that hit the target.
    pub open spec fn summary(
        self,
        target: Option<usize>,
        from: Tally,
        leaves: Seq<Seq<usize>>,
    ) -> Tally {
        let max = self.best(from.max, leaves);
        Tally {
            max,
            shifts: (if from.max == max {
                from.shifts
            } else {
                seq![]
            }) + self.counting_to(leaves, max),
            target_shifts: from.target_shifts + match target {
                Some(t) => self.counting_to(leaves, t as nat),
                None => seq![],
            },
        }
    }
}

/// One shift more: the row of the longer path is that of the shorter one and the shift's own.
pub proof fn lemma_row_push(tree: Tree, path: Seq<usize>, shift: usize)
    requires
        tree.wf(),
        path.len() < tree.depth,
        shift < tree.rows[path.len() as int].len(),
    ensures
        tree.row(path.push(shift)) == both(
            tree.row(path),
            tree.rows[path.len() as int][shift as int],
        ),
        tree.count(path.push(shift)) <= tree.count(path),
{
    let longer = path.push(shift);
    let own = tree.rows[path.len() as int][shift as int];
    assert forall|i: int| 0 <= i < tree.base.len() implies #[trigger] tree.row(longer)[i] == both(
        tree.row(path),
        own,
    )[i] by {
        if tree.row(longer)[i] {
            assert forall|j: int| 0 <= j < path.len() implies (#[trigger] tree.rows[j][path[j] as int])[i] by {
                assert(longer[j] == path[j]);
                assert(tree.rows[j][longer[j] as int][i]);
            }
            assert(longer[path.len() as int] == shift);
            assert(tree.rows[path.len() as int][longer[path.len() as int] as int][i]);
        }
        if tree.row(path)[i] && own[i] {
            assert forall|j: int| 0 <= j < longer.len() implies (#[trigger] tree.rows[j][longer[j] as int])[i] by {
                if j < path.len() {
                    assert(longer[j] == path[j]);
                    assert(tree.rows[j][path[j] as int][i]);
                }
            }
        }
    }
    assert(own.len() == tree.base.len());
    assert(tree.row(longer) =~= both(tree.row(path), own));
    lemma_ones_monotone(tree.row(longer), tree.row(path));
}

/// The root row is the base row.
pub proof fn lemma_row_root(tree: Tree)
    ensures
        tree.row(Seq::empty()) == tree.base,
{
    assert(tree.row(Seq::empty()) =~= tree.base);
}

/// Which paths are leaves below the first `n` children of `path`.
pub proof fn lemma_leaves_below_contains(tree: Tree, path: Seq<usize>, n: nat, leaf: Seq<usize>)
    requires
        path.len() < tree.depth,
        n <= usize::MAX,
    ensures
        tree.leaves_below(path, n).contains(leaf) <==> {
            &&& leaf.len() == tree.depth
            &&& path == leaf.take(path.len() as int)
            &&& leaf[path.len() as int] < n
            &&& forall|i: int| path.len() < i < leaf.len() ==> #[trigger] leaf[i] < tree.fans[i]
        },
    decreases tree.depth - path.len(), n,
{
    let len = path.len() as int;
    if n > 0 {
        let child = path.push((n - 1) as usize);
        let first = if child.len() >= tree.depth {
            seq![child]
        } else {
            tree.leaves_below(child, tree.fans[child.len() as int] as nat)
        };
        let rest = tree.leaves_below(path, (n - 1) as nat);
        lemma_leaves_below_contains(tree, path, (n - 1) as nat, leaf);
        assert(tree.leaves_below(path, n) == first + rest);
        lemma_concat_contains(first, rest, leaf);
        if leaf.len() == tree.depth {
            assert(child =~= leaf.take(len + 1) <==> (path =~= leaf.take(len) && leaf[len] == n
                - 1)) by {
                if child =~= leaf.take(len + 1) {
                    assert(child[len] == leaf[len]);
                    assert forall|i: int| 0 <= i < len implies path[i] == leaf.take(len)[i] by {
                        assert(child[i] == leaf.take(len + 1)[i]);
                    }
                }
            }
        }
        if child.len() >= tree.depth {
            assert(first.contains(leaf) <==> leaf == child) by {
                if leaf == child {
                    assert(first[0] == leaf);
                }
            }
            if leaf.len() == tree.depth {
                assert(leaf.take(len + 1) =~= leaf);
            }
        } else {
            lemma_leaves_below_contains(
                tree,
                child,
                tree.fans[child.len() as int] as nat,
                leaf,
            );
        }
    }
}

proof fn lemma_concat_contains(a: Seq<Seq<usize>>, b: Seq<Seq<usize>>, x: Seq<usize>)
    ensures
        (a + b).contains(x) <==> a.contains(x) || b.contains(x),
{
    if a.contains(x) {
        let i = choose|i: int| 0 <= i < a.len() && a[i] == x;
        assert((a + b)[i] == x);
    }
    if b.contains(x) {
        let i = choose|i: int| 0 <= i < b.len() && b[i] == x;
        assert((a + b)[a.len() + i] == x);
    }
}

/// Every leaf has its whole path in the tree.
pub proof fn lemma_leaf_count_bound(tree: Tree, path: Seq<usize>, leaf: Seq<usize>)
    requires
        tree.wf(),
        tree.has_path(leaf),
        path.len() <= leaf.len(),
        path == leaf.take(path.len() as int),
    ensures
        tree.count(leaf) <= tree.count(path),
    decreases leaf.len() - path.len(),
{
    if path.len() < leaf.len() {
        let len = path.len() as int;
        assert(leaf.take(len + 1) =~= path.push(leaf[len]));
        lemma_row_push(tree, path, leaf[len]);
        lemma_leaf_count_bound(tree, leaf.take(len + 1), leaf);
    } else {
        assert(leaf =~= path);
    }
}

/// The leaves below a path that the tree has are paths of the tree, and count to no more than it.
pub proof fn lemma_leaves_below_bound(tree: Tree, path: Seq<usize>, n: nat, leaf: Seq<usize>)
    requires
        tree.wf(),
        tree.has_path(path),
        path.len() < tree.depth,
        n <= tree.rows[path.len() as int].len(),
        n <= usize::MAX,
        tree.leaves_below(path, n).contains(leaf),
    ensures
        tree.has_path(leaf),
        tree.count(leaf) <= tree.count(path),
{
    lemma_leaves_below_contains(tree, path, n, leaf);
    assert forall|i: int| 0 <= i < leaf.len() implies #[trigger] leaf[i] < tree.rows[i].len() by {
        if i < path.len() {
            assert(leaf[i] == path[i]);
        } else if i > path.len() {
            assert(tree.fans[i] <= tree.rows[i].len());
        }
    }
    lemma_leaf_count_bound(tree, path, leaf);
}

/// Recording leaves in two batches is recording them in one.
pub proof fn lemma_record_all_concat(
    tree: Tree,
    target: Option<usize>,
    from: Tally,
    a: Seq<Seq<usize>>,
    b: Seq<Seq<usize>>,
)
    ensures
        tree.record_all(target, from, a + b) == tree.record_all(
            target,
            tree.record_all(target, from, a),
            b,
        ),
    decreases b.len(),
{
    if b.len() == 0 {
        assert(a + b =~= a);
    } else {
        assert((a + b).drop_last() =~= a + b.drop_last());
        assert((a + b).last() == b.last());
        lemma_record_all_concat(tree, target, from, a, b.drop_last());
    }
}

/// Leaves that count to less than the maximum and miss the target leave a tally as it is.
proof fn lemma_record_all_pruned(
    tree: Tree,
    target: Option<usize>,
    from: Tally,
    leaves: Seq<Seq<usize>>,
)
    requires
        forall|leaf: Seq<usize>| #[trigger]
            leaves.contains(leaf) ==> tree.count(leaf) < from.max && !hits(
                target,
                tree.count(leaf),
            ),
    ensures
        tree.record_all(target, from, leaves) == from,
    decreases leaves.len(),
{
    if leaves.len() > 0 {
        assert forall|leaf: Seq<usize>| #[trigger]
            leaves.drop_last().contains(leaf) implies tree.count(leaf) < from.max && !hits(
            target,
            tree.count(leaf),
        ) by {
            let i = choose|i: int|
                0 <= i < leaves.drop_last().len() && leaves.drop_last()[i] == leaf;
            assert(leaves[i] == leaf);
            assert(leaves.contains(leaf));
        }
        lemma_record_all_pruned(tree, target, from, leaves.drop_last());
        assert(leaves[leaves.len() - 1] == leaves.last());
        assert(leaves.contains(leaves.last()));
    }
}

/// Leaving out the nodes that cannot matter loses nothing: the search ends with the tally of all
/// leaves.
pub proof fn law_pruning_loses_nothing(
    tree: Tree,
    target: Option<usize>,
    from: Progress,
    path: Seq<usize>,
    n: nat,
)
    requires
        tree.wf(),
        tree.has_path(path),
        path.len() < tree.depth ==> n <= tree.rows[path.len() as int].len(),
        n <= usize::MAX,
    ensures
        tree.explore(target, from, path, n).tally == tree.record_all(
            target,
            from.tally,
            tree.leaves_below(path, n),
        ),
    decreases tree.depth - path.len(), n,
{
    if path.len() < tree.depth && n > 0 {
        let child = path.push((n - 1) as usize);
        let seen = Progress { tally: from.tally, nodes: from.nodes + 1 };
        let count = tree.count(child);
        let first = if child.len() >= tree.depth {
            seq![child]
        } else {
            tree.leaves_below(child, tree.fans[child.len() as int] as nat)
        };
        let rest = tree.leaves_below(path, (n - 1) as nat);
        let after = if from.tally.prunes(target, count) {
            seen
        } else if child.len() >= tree.depth {
            Progress { tally: from.tally.record(target, count, child), nodes: seen.nodes }
        } else {
            tree.explore(target, seen, child, tree.fans[child.len() as int] as nat)
        };
        assert(tree.has_path(child));
        assert(tree.leaves_below(path, n) == first + rest);
        assert(after.tally == tree.record_all(target, from.tally, first)) by {
            if child.len() < tree.depth {
                assert(tree.fans[child.len() as int] <= tree.rows[child.len() as int].len());
            }
            if from.tally.prunes(target, count) {
                assert forall|leaf: Seq<usize>| #[trigger]
                    first.contains(leaf) implies tree.count(leaf) < from.tally.max && !hits(
                    target,
                    tree.count(leaf),
                ) by {
                    if child.len() < tree.depth {
                        lemma_leaves_below_bound(
                            tree,
                            child,
                            tree.fans[child.len() as int] as nat,
                            leaf,
                        );
                    }
                }
                lemma_record_all_pruned(tree, target, from.tally, first);
            } else if child.len() >= tree.depth {
                assert(first.drop_last() =~= seq![]);
                assert(tree.record_all(target, from.tally, first.drop_last()) == from.tally);
            } else {
                law_pruning_loses_nothing(
                    tree,
                    target,
                    seen,
                    child,
                    tree.fans[child.len() as int] as nat,
                );
            }
        }
        law_pruning_loses_nothing(tree, target, after, path, (n - 1) as nat);
        lemma_record_all_concat(tree, target, from.tally, first, rest);
    }
}

/// `best` is the highest of the start value and all counts, and one of them.
pub proof fn lemma_best(tree: Tree, from: nat, leaves: Seq<Seq<usize>>)
    ensures
        from <= tree.best(from, leaves),
        forall|leaf: Seq<usize>| #[trigger]
            leaves.contains(leaf) ==> tree.count(leaf) <= tree.best(from, leaves),
        tree.best(from, leaves) == from || exists|leaf: Seq<usize>| #[trigger]
            leaves.contains(leaf) && tree.count(leaf) == tree.best(from, leaves),
    decreases leaves.len(),
{
    if leaves.len() > 0 {
        let rest = leaves.drop_last();
        lemma_best(tree, from, rest);
        assert(leaves[leaves.len() - 1] == leaves.last());
        assert(leaves.contains(leaves.last()));
        assert forall|leaf: Seq<usize>| #[trigger] leaves.contains(leaf) implies tree.count(leaf)
            <= tree.best(from, leaves) by {
            let i = choose|i: int| 0 <= i < leaves.len() && leaves[i] == leaf;
            if i < rest.len() {
                assert(rest[i] == leaf);
                assert(rest.contains(leaf));
            }
        }
        if tree.best(from, leaves) == tree.best(from, rest) && tree.best(from, rest) != from {
            let leaf = choose|leaf: Seq<usize>| #[trigger]
                rest.contains(leaf) && tree.count(leaf) == tree.best(from, rest);
            let i = choose|i: int| 0 <= i < rest.len() && rest[i] == leaf;
            assert(leaves[i] == leaf);
            assert(leaves.contains(leaf));
        }
    }
}

/// Recording leaf after leaf gives the highest count, every leaf that has it, and every leaf that
/// hits the target.
pub proof fn lemma_record_all_summary(
    tree: Tree,
    target: Option<usize>,
    from: Tally,
    leaves: Seq<Seq<usize>>,
)
    ensures
        tree.record_all(target, from, leaves) == tree.summary(target, from, leaves),
    decreases leaves.len(),
{
    reveal(Seq::filter);
    if leaves.len() == 0 {
        assert(from.shifts + tree.counting_to(leaves, from.max) =~= from.shifts);
        assert(tree.summary(target, from, leaves).target_shifts =~= from.target_shifts);
    } else {
        let rest = leaves.drop_last();
        let last = leaves.last();
        lemma_record_all_summary(tree, target, from, rest);
        lemma_best(tree, from.max, rest);
        let before = tree.best(from.max, rest);
        let max = tree.best(from.max, leaves);
        let after = tree.record_all(target, from, leaves);
        if tree.count(last) > before {
            let pred = |leaf: Seq<usize>| tree.count(leaf) == max;
            assert forall|i: int| 0 <= i < rest.len() implies !#[trigger] pred(rest[i]) by {
                assert(rest.contains(rest[i]));
            }
            rest.lemma_all_neg_filter_empty(pred);
            assert(tree.counting_to(rest, max) =~= seq![]);
            assert(tree.counting_to(leaves, max) =~= seq![last]);
            assert(after.shifts =~= tree.summary(target, from, leaves).shifts);
        } else {
            assert(max == before);
            assert(after.shifts =~= tree.summary(target, from, leaves).shifts);
        }
        assert(after.target_shifts =~= tree.summary(target, from, leaves).target_shifts);
    }
}

/// `a` comes before `b` in the order of the search: at the first level where they differ, `a` has
/// the higher shift.
pub open spec fn searched_before(a: Seq<usize>, b: Seq<usize>) -> bool {
    exists|l: int|
        {
            &&& 0 <= l < a.len()
            &&& l < b.len()
            &&& a.take(l) == b.take(l)
            &&& #[trigger] a[l] > b[l]
        }
}

/// One shift sequence is searched before another where it has the higher shift at the first level at
/// which they differ: the order is descending. So no sequence comes before itself, and of two
/// different ones of the same length one comes first.
pub proof fn law_search_order_is_descending(a: Seq<usize>, b: Seq<usize>)
    ensures
        searched_before(a, b) <==> exists|l: int|
            {
                &&& 0 <= l < a.len()
                &&& l < b.len()
                &&& (forall|m: int| 0 <= m < l ==> #[trigger] a[m] == b[m])
                &&& #[trigger] a[l] > b[l]
            },
        searched_before(a, b) ==> !searched_before(b, a),
        a.len() == b.len() && a != b ==> searched_before(a, b) || searched_before(b, a),
{
    if searched_before(a, b) {
        let l = choose|l: int|
            {
                &&& 0 <= l < a.len()
                &&& l < b.len()
                &&& a.take(l) == b.take(l)
                &&& #[trigger] a[l] > b[l]
            };
        assert forall|m: int| 0 <= m < l implies #[trigger] a[m] == b[m] by {
            assert(a.take(l)[m] == b.take(l)[m]);
        }
        if searched_before(b, a) {
            let k = choose|k: int|
                {
                    &&& 0 <= k < b.len()
                    &&& k < a.len()
                    &&& b.take(k) == a.take(k)
                    &&& #[trigger] b[k] > a[k]
                };
            if k < l {
                assert(a.take(l)[k] == b.take(l)[k]);
            } else if l < k {
                assert(a.take(k)[l] == b.take(k)[l]);
            }
        }
    }
    if exists|l: int|
        {
            &&& 0 <= l < a.len()
            &&& l < b.len()
            &&& (forall|m: int| 0 <= m < l ==> #[trigger] a[m] == b[m])
            &&& #[trigger] a[l] > b[l]
        } {
        let l = choose|l: int|
            {
                &&& 0 <= l < a.len()
                &&& l < b.len()
                &&& (forall|m: int| 0 <= m < l ==> #[trigger] a[m] == b[m])
                &&& #[trigger] a[l] > b[l]
            };
        assert(a.take(l) =~= b.take(l));
    }
    if a.len() == b.len() && a != b {
        assert(a.take(0) =~= b.take(0));
        lemma_first_difference(a, b, 0);
    }
}

proof fn lemma_first_difference(a: Seq<usize>, b: Seq<usize>, l: int)
    requires
        a.len() == b.len(),
        a != b,
        0 <= l <= a.len(),
        a.take(l) == b.take(l),
    ensures
        searched_before(a, b) || searched_before(b, a),
    decreases a.len() - l,
{
    if l == a.len() {
        assert(a.take(l) =~= a);
        assert(b.take(l) =~= b);
    } else if a[l] == b[l] {
        assert(a.take(l + 1) =~= a.take(l).push(a[l]));
        assert(b.take(l + 1) =~= b.take(l).push(b[l]));
        lemma_first_difference(a, b, l + 1);
    }
}

/// The leaves below a node are listed in descending order of their shifts, so none occurs twice.
pub proof fn lemma_leaves_below_ordered(tree: Tree, path: Seq<usize>, n: nat)
    requires
        path.len() < tree.depth,
        n <= usize::MAX,
    ensures
        forall|i: int, j: int|
            0 <= i < j < tree.leaves_below(path, n).len() ==> searched_before(
                #[trigger] tree.leaves_below(path, n)[i],
                #[trigger] tree.leaves_below(path, n)[j],
            ),
    decreases tree.depth - path.len(), n,
{
    if n > 0 {
        let child = path.push((n - 1) as usize);
        let first = tree.leaves_of(child);
        let rest = tree.leaves_below(path, (n - 1) as nat);
        let all = tree.leaves_below(path, n);
        assert(all == first + rest);
        lemma_leaves_below_ordered(tree, path, (n - 1) as nat);
        if child.len() < tree.depth {
            lemma_leaves_below_ordered(tree, child, tree.fans[child.len() as int] as nat);
        }
        assert forall|i: int, j: int| 0 <= i < j < all.len() implies searched_before(
            #[trigger] all[i],
            #[trigger] all[j],
        ) by {
            if i < first.len() && j >= first.len() {
                let a = all[i];
                let b = all[j];
                let l = path.len() as int;
                assert(first.contains(first[i]));
                assert(rest.contains(rest[j - first.len()]));
                lemma_leaves_below_contains(tree, path, (n - 1) as nat, b);
                if child.len() < tree.depth {
                    lemma_leaves_below_contains(
                        tree,
                        child,
                        tree.fans[child.len() as int] as nat,
                        a,
                    );
                    assert(a[l] == a.take(l + 1)[l]);
                    assert(a.take(l) =~= a.take(l + 1).take(l));
                    assert(child.take(l) =~= path);
                } else {
                    assert(a == child);
                    assert(a.take(l) =~= path);
                }
                assert(a[l] > b[l]);
            } else if j < first.len() {
                if child.len() >= tree.depth {
                    assert(false);
                }
                assert(all[i] == first[i]);
                assert(all[j] == first[j]);
            } else {
                assert(all[i] == rest[i - first.len()]);
                assert(all[j] == rest[j - first.len()]);
            }
        }
    }
}

/// The leaves of the whole tree are exactly the shift sequences of full length, each listed once,
/// in descending order.
pub proof fn law_search_covers_every_leaf(tree: Tree)
    requires
        tree.wf(),
    ensures
        forall|leaf: Seq<usize>| #[trigger]
            tree.leaves_of(Seq::empty()).contains(leaf) <==> tree.is_leaf(leaf),
        tree.leaves_of(Seq::empty()).no_duplicates(),
        forall|i: int, j: int|
            0 <= i < j < tree.leaves_of(Seq::empty()).len() ==> searched_before(
                #[trigger] tree.leaves_of(Seq::empty())[i],
                #[trigger] tree.leaves_of(Seq::empty())[j],
            ),
{
    let root = Seq::<usize>::empty();
    let all = tree.leaves_of(root);
    if tree.depth == 0 {
        assert forall|leaf: Seq<usize>| #[trigger] all.contains(leaf) <==> tree.is_leaf(leaf) by {
            if tree.is_leaf(leaf) {
                assert(leaf =~= root);
                assert(all[0] == leaf);
            }
        }
    } else {
        assert forall|leaf: Seq<usize>| #[trigger] all.contains(leaf) <==> tree.is_leaf(leaf) by {
            lemma_leaves_below_contains(tree, root, tree.fans[0] as nat, leaf);
            if leaf.len() == tree.depth {
                assert(root =~= leaf.take(0));
            }
        }
        lemma_leaves_below_ordered(tree, root, tree.fans[0] as nat);
    }
    assert forall|i: int, j: int| 0 <= i < all.len() && 0 <= j < all.len() && i != j implies all[i]
        != all[j] by {
        if i < j {
            assert(searched_before(all[i], all[j]));
        } else {
            assert(searched_before(all[j], all[i]));
        }
    }
}

/// Filtering keeps the order, and keeps exactly the leaves with the wanted count.
pub proof fn lemma_counting_to(tree: Tree, leaves: Seq<Seq<usize>>, count: nat)
    ensures
        forall|leaf: Seq<usize>| #[trigger]
            tree.counting_to(leaves, count).contains(leaf) <==> leaves.contains(leaf)
                && tree.count(leaf) == count,
        (forall|i: int, j: int|
            0 <= i < j < leaves.len() ==> searched_before(
                #[trigger] leaves[i],
                #[trigger] leaves[j],
            )) ==> (forall|i: int, j: int|
            0 <= i < j < tree.counting_to(leaves, count).len() ==> searched_before(
                #[trigger] tree.counting_to(leaves, count)[i],
                #[trigger] tree.counting_to(leaves, count)[j],
            )),
        leaves.no_duplicates() ==> tree.counting_to(leaves, count).no_duplicates(),
    decreases leaves.len(),
{
    reveal(Seq::filter);
    let kept = tree.counting_to(leaves, count);
    if leaves.len() > 0 {
        let rest = leaves.drop_last();
        let last = leaves.last();
        let kept_rest = tree.counting_to(rest, count);
        lemma_counting_to(tree, rest, count);
        assert(kept == if tree.count(last) == count {
            kept_rest.push(last)
        } else {
            kept_rest
        });
        assert(leaves[leaves.len() - 1] == last);
        assert forall|leaf: Seq<usize>| #[trigger] kept.contains(leaf) <==> leaves.contains(leaf)
            && tree.count(leaf) == count by {
            if kept.contains(leaf) {
                let i = choose|i: int| 0 <= i < kept.len() && kept[i] == leaf;
                if i < kept_rest.len() {
                    assert(kept_rest[i] == leaf);
                    assert(kept_rest.contains(leaf));
                    let j = choose|j: int| 0 <= j < rest.len() && rest[j] == leaf;
                    assert(leaves[j] == leaf);
                }
            }
            if leaves.contains(leaf) && tree.count(leaf) == count {
                let j = choose|j: int| 0 <= j < leaves.len() && leaves[j] == leaf;
                if j < rest.len() {
                    assert(rest[j] == leaf);
                    assert(rest.contains(leaf));
                    assert(kept_rest.contains(leaf));
                    let i = choose|i: int| 0 <= i < kept_rest.len() && kept_rest[i] == leaf;
                    assert(kept[i] == leaf);
                } else {
                    assert(kept[kept.len() - 1] == leaf);
                }
            }
        }
        if forall|i: int, j: int|
            0 <= i < j < leaves.len() ==> searched_before(
                #[trigger] leaves[i],
                #[trigger] leaves[j],
            ) {
            assert forall|i: int, j: int| 0 <= i < j < rest.len() implies searched_before(
                #[trigger] rest[i],
                #[trigger] rest[j],
            ) by {
                assert(searched_before(leaves[i], leaves[j]));
            }
            assert forall|i: int, j: int| 0 <= i < j < kept.len() implies searched_before(
                #[trigger] kept[i],
                #[trigger] kept[j],
            ) by {
                if j < kept_rest.len() {
                    assert(searched_before(kept_rest[i], kept_rest[j]));
                } else {
                    assert(kept_rest.contains(kept_rest[i]));
                    let k = choose|k: int| 0 <= k < rest.len() && rest[k] == kept_rest[i];
                    assert(searched_before(leaves[k], leaves[leaves.len() - 1]));
                }
            }
        }
        if leaves.no_duplicates() {
            assert forall|i: int, j: int|
                0 <= i < kept.len() && 0 <= j < kept.len() && i != j implies kept[i] != kept[j] by {
                let low = if i < j {
                    i
                } else {
                    j
                };
                let high = if i < j {
                    j
                } else {
                    i
                };
                if high < kept_rest.len() {
                    assert(kept_rest[low] != kept_rest[high]);
                } else {
                    assert(kept_rest.contains(kept_rest[low]));
                    let k = choose|k: int| 0 <= k < rest.len() && rest[k] == kept_rest[low];
                    assert(leaves[k] != leaves[leaves.len() - 1]);
                }
            }
        }
    }
}

/// A search of the whole tree ends with the highest count that a leaf has, with exactly the leaves
/// that have it, and with exactly the leaves that hit the target; both in descending order of
/// their shifts, so that none is listed twice. If there is a leaf, one is found.
pub proof fn law_search_finds_every_best_leaf(tree: Tree, target: Option<usize>)
    requires
        tree.wf(),
    ensures
        ({
            let found = tree.summary(target, Tally::empty(), tree.leaves_of(Seq::empty()));
            &&& forall|leaf: Seq<usize>| #[trigger]
                tree.is_leaf(leaf) ==> tree.count(leaf) <= found.max
            &&& forall|leaf: Seq<usize>| #[trigger]
                found.shifts.contains(leaf) <==> tree.is_leaf(leaf) && tree.count(leaf)
                    == found.max
            &&& forall|leaf: Seq<usize>| #[trigger]
                found.target_shifts.contains(leaf) <==> tree.is_leaf(leaf) && hits(
                    target,
                    tree.count(leaf),
                )
            &&& forall|i: int, j: int|
                0 <= i < j < found.shifts.len() ==> searched_before(
                    #[trigger] found.shifts[i],
                    #[trigger] found.shifts[j],
                )
            &&& forall|i: int, j: int|
                0 <= i < j < found.target_shifts.len() ==> searched_before(
                    #[trigger] found.target_shifts[i],
                    #[trigger] found.target_shifts[j],
                )
            &&& found.shifts.no_duplicates()
            &&& found.target_shifts.no_duplicates()
            &&& (exists|leaf: Seq<usize>| #[trigger] tree.is_leaf(leaf)) ==> found.shifts.len() > 0
        }),
{
    let leaves = tree.leaves_of(Seq::empty());
    let found = tree.summary(target, Tally::empty(), leaves);
    law_search_covers_every_leaf(tree);
    lemma_best(tree, 0, leaves);
    lemma_counting_to(tree, leaves, found.max);
    assert(found.shifts =~= tree.counting_to(leaves, found.max));
    match target {
        Some(t) => {
            lemma_counting_to(tree, leaves, t as nat);
            assert(found.target_shifts =~= tree.counting_to(leaves, t as nat));
        },
        None => {
            assert(found.target_shifts =~= Seq::<Seq<usize>>::empty());
        },
    }
    assert forall|leaf: Seq<usize>| #[trigger] tree.is_leaf(leaf) implies tree.count(leaf)
        <= found.max by {
        assert(leaves.contains(leaf));
    }
    if exists|leaf: Seq<usize>| #[trigger] tree.is_leaf(leaf) {
        let some = choose|leaf: Seq<usize>| #[trigger] tree.is_leaf(leaf);
        assert(leaves.contains(some));
        if found.max == 0 {
            assert(found.shifts.contains(some));
        } else {
            let leaf = choose|leaf: Seq<usize>| #[trigger]
                leaves.contains(leaf) && tree.count(leaf) == found.max;
            assert(found.shifts.contains(leaf));
        }
    }
}

} // verus!
