//! Which nodes a sequential search visits.

use vstd::prelude::*;

use crate::gather::lemma_leaves_of_contains;
use crate::tree::{
    law_pruning_loses_nothing, law_search_covers_every_leaf, lemma_best,
    lemma_leaves_below_bound, lemma_leaves_below_contains, lemma_record_all_summary, out_of_reach, searched_before, Progress,
    Tally, Tree,
};

verus! {

/// The nodes that a search of the children `n - 1`, ..., `0` of `path` visits, one after the other.
spec fn tour(tree: Tree, target: Option<usize>, from: Tally, path: Seq<usize>, n: nat) -> Seq<
    Seq<usize>,
>
    decreases tree.depth - path.len(), n,
{
    if path.len() >= tree.depth || n == 0 {
        seq![]
    } else {
        let child = path.push((n - 1) as usize);
        let start = Progress { tally: from, nodes: 0 };
        let below = if from.prunes(target, tree.count(child)) || child.len() >= tree.depth {
            seq![]
        } else {
            tour(tree, target, from, child, tree.fans[child.len() as int] as nat)
        };
        seq![child] + below + tour(
            tree,
            target,
            tree.visit(target, start, child).tally,
            path,
            (n - 1) as nat,
        )
    }
}

/// The node is left without a look below it: it counts to less than what was found before, or than
/// one of the leaves that come before it, and to less than the target.
spec fn left(
    tree: Tree,
    target: Option<usize>,
    max: nat,
    leaves: Seq<Seq<usize>>,
    node: Seq<usize>,
) -> bool {
    &&& tree.count(node) < max || exists|leaf: Seq<usize>|
        {
            &&& #[trigger] leaves.contains(leaf)
            &&& searched_before(leaf, node)
            &&& tree.count(leaf) > tree.count(node)
        }
    &&& out_of_reach(target, tree.count(node))
}

/// The node lies below one of the children, and no node on the way to it is left.
spec fn reached(
    tree: Tree,
    target: Option<usize>,
    max: nat,
    path: Seq<usize>,
    n: nat,
    node: Seq<usize>,
) -> bool {
    &&& path.len() < node.len() <= tree.depth
    &&& path == node.take(path.len() as int)
    &&& node[path.len() as int] < n
    &&& forall|i: int| path.len() < i < node.len() ==> #[trigger] node[i] < tree.fans[i]
    &&& forall|k: int|
        path.len() < k < node.len() ==> !left(
            tree,
            target,
            max,
            tree.leaves_below(path, n),
            #[trigger] node.take(k),
        )
}

proof fn lemma_three_parts(
    a: Seq<Seq<usize>>,
    b: Seq<Seq<usize>>,
    c: Seq<Seq<usize>>,
    node: Seq<usize>,
)
    ensures
        (a + b + c).contains(node) <==> a.contains(node) || b.contains(node) || c.contains(node),
{
    let all = a + b + c;
    if a.contains(node) {
        let i = choose|i: int| 0 <= i < a.len() && a[i] == node;
        assert(all[i] == node);
    }
    if b.contains(node) {
        let i = choose|i: int| 0 <= i < b.len() && b[i] == node;
        assert(all[a.len() + i] == node);
    }
    if c.contains(node) {
        let i = choose|i: int| 0 <= i < c.len() && c[i] == node;
        assert(all[a.len() + b.len() + i] == node);
    }
    if all.contains(node) {
        let i = choose|i: int| 0 <= i < all.len() && all[i] == node;
        if i < a.len() {
            assert(a[i] == node);
        } else if i < a.len() + b.len() {
            assert(b[i - a.len()] == node);
        } else {
            assert(c[i - a.len() - b.len()] == node);
        }
    }
}

/// The tour is as long as the search counts nodes.
proof fn lemma_tour_len(tree: Tree, target: Option<usize>, from: Progress, path: Seq<usize>, n: nat)
    ensures
        tree.explore(target, from, path, n).nodes == from.nodes + tour(
            tree,
            target,
            from.tally,
            path,
            n,
        ).len(),
        forall|a: nat| #[trigger]
            tree.explore(target, Progress { tally: from.tally, nodes: a }, path, n).tally
                == tree.explore(target, from, path, n).tally,
    decreases tree.depth - path.len(), n,
{
    if path.len() < tree.depth && n > 0 {
        let child = path.push((n - 1) as usize);
        let start = Progress { tally: from.tally, nodes: 0 };
        let after = tree.visit(target, from, child);
        let fan = tree.fans[child.len() as int] as nat;
        let seen = Progress { tally: from.tally, nodes: from.nodes + 1 };
        if child.len() < tree.depth {
            lemma_tour_len(tree, target, seen, child, fan);
        }
        assert forall|a: nat| (#[trigger] tree.visit(
            target,
            Progress { tally: from.tally, nodes: a },
            child,
        )).tally == after.tally by {
            if child.len() < tree.depth {
                assert(tree.explore(
                    target,
                    Progress { tally: from.tally, nodes: a + 1 },
                    child,
                    fan,
                ).tally == tree.explore(target, seen, child, fan).tally);
            }
        }
        assert(tree.visit(target, start, child).tally == after.tally);
        lemma_tour_len(tree, target, after, path, (n - 1) as nat);
        assert forall|a: nat| #[trigger]
            tree.explore(target, Progress { tally: from.tally, nodes: a }, path, n).tally
                == tree.explore(target, from, path, n).tally by {
            let other = tree.visit(target, Progress { tally: from.tally, nodes: a }, child);
            assert(other.tally == after.tally);
            assert(other == (Progress { tally: after.tally, nodes: other.nodes }));
            assert(tree.explore(
                target,
                Progress { tally: after.tally, nodes: other.nodes },
                path,
                (n - 1) as nat,
            ).tally == tree.explore(target, after, path, (n - 1) as nat).tally);
        }
    }
}

/// Sequences that agree up to a level are ordered by their shifts there.
proof fn lemma_order(a: Seq<usize>, b: Seq<usize>, l: int)
    requires
        0 <= l < a.len(),
        l < b.len(),
        a.take(l) == b.take(l),
    ensures
        a[l] > b[l] ==> searched_before(a, b),
        a[l] < b[l] ==> !searched_before(a, b),
{
    if a[l] < b[l] && searched_before(a, b) {
        let k = choose|k: int|
            {
                &&& 0 <= k < a.len()
                &&& k < b.len()
                &&& a.take(k) == b.take(k)
                &&& #[trigger] a[k] > b[k]
            };
        if k < l {
            assert(a[k] == a.take(l)[k]);
            assert(b[k] == b.take(l)[k]);
        } else if k > l {
            assert(a[l] == a.take(k)[l]);
            assert(b[l] == b.take(k)[l]);
        }
        assert(false);
    }
}

/// The highest count after a visit of a child is that of what was found before and of the leaves
/// below the child.
proof fn lemma_max_after_visit(
    tree: Tree,
    target: Option<usize>,
    from: Tally,
    child: Seq<usize>,
    c: nat,
)
    requires
        tree.wf(),
        child.len() <= tree.depth,
        tree.has_path(child),
    ensures
        ({
            let after = tree.visit(target, Progress { tally: from, nodes: 0 }, child).tally;
            after.max > c <==> from.max > c || exists|leaf: Seq<usize>| #[trigger]
                tree.leaves_of(child).contains(leaf) && tree.count(leaf) > c
        }),
{
    let start = Progress { tally: from, nodes: 0 };
    let after = tree.visit(target, start, child).tally;
    let leaves = tree.leaves_of(child);
    lemma_best(tree, from.max, leaves);
    if from.prunes(target, tree.count(child)) {
        assert forall|leaf: Seq<usize>| #[trigger] leaves.contains(leaf) implies tree.count(leaf)
            < from.max by {
            if child.len() < tree.depth {
                let level = child.len() as int;
                assert(tree.fans[level] <= tree.rows[level].len());
                lemma_leaves_below_bound(tree, child, tree.fans[level] as nat, leaf);
            }
        }
        assert(tree.best(from.max, leaves) == from.max);
    } else if child.len() >= tree.depth {
        assert(leaves =~= seq![child]);
        assert(leaves.drop_last() =~= Seq::<Seq<usize>>::empty());
        assert(tree.best(from.max, leaves.drop_last()) == from.max);
    } else {
        let level = child.len() as int;
        assert(tree.fans[level] <= tree.rows[level].len());
        law_pruning_loses_nothing(
            tree,
            target,
            Progress { tally: from, nodes: 1 },
            child,
            tree.fans[level] as nat,
        );
        lemma_record_all_summary(tree, target, from, leaves);
    }
    assert(after.max == tree.best(from.max, leaves));
}

proof fn lemma_below_child(
    tree: Tree,
    target: Option<usize>,
    from: Tally,
    path: Seq<usize>,
    n: nat,
    node: Seq<usize>,
)
    requires
        tree.wf(),
        path.len() < tree.depth,
        0 < n <= usize::MAX,
        path.len() < node.len() <= tree.depth,
        path == node.take(path.len() as int),
        node[path.len() as int] == n - 1,
    ensures
        ({
            let child = path.push((n - 1) as usize);
            let leaves = tree.leaves_below(path, n);
            &&& left(tree, target, from.max, leaves, child) <==> from.prunes(
                target,
                tree.count(child),
            )
            &&& child.len() < tree.depth ==> forall|k: int|
                child.len() < k <= node.len() ==> (left(
                    tree,
                    target,
                    from.max,
                    leaves,
                    #[trigger] node.take(k),
                ) <==> left(
                    tree,
                    target,
                    from.max,
                    tree.leaves_below(child, tree.fans[child.len() as int] as nat),
                    node.take(k),
                ))
        }),
{
    let l = path.len() as int;
    let child = path.push((n - 1) as usize);
    let leaves = tree.leaves_below(path, n);
    let rest = tree.leaves_below(path, (n - 1) as nat);
    let own = tree.leaves_of(child);
    assert(leaves == own + rest);
    assert(child.take(l) =~= path);
    assert forall|leaf: Seq<usize>| #[trigger] leaves.contains(leaf) implies !searched_before(
        leaf,
        child,
    ) by {
        lemma_leaves_below_contains(tree, path, n, leaf);
        if searched_before(leaf, child) {
            let k = choose|k: int|
                {
                    &&& 0 <= k < leaf.len()
                    &&& k < child.len()
                    &&& leaf.take(k) == child.take(k)
                    &&& #[trigger] leaf[k] > child[k]
                };
            if k < l {
                assert(leaf.take(l)[k] == path[k]);
            }
        }
    }
    if child.len() < tree.depth {
        let fan = tree.fans[child.len() as int] as nat;
        assert forall|k: int| child.len() < k <= node.len() implies (left(
            tree,
            target,
            from.max,
            leaves,
            #[trigger] node.take(k),
        ) <==> left(tree, target, from.max, tree.leaves_below(child, fan), node.take(k))) by {
            let q = node.take(k);
            assert(q.take(l) =~= path);
            assert(q[l] == n - 1);
            assert forall|leaf: Seq<usize>| #[trigger] own.contains(leaf) implies leaves.contains(
                leaf,
            ) by {
                let i = choose|i: int| 0 <= i < own.len() && own[i] == leaf;
                assert(leaves[i] == leaf);
            }
            assert forall|leaf: Seq<usize>| #[trigger]
                leaves.contains(leaf) && searched_before(leaf, q) implies own.contains(leaf) by {
                lemma_leaves_below_contains(tree, path, n, leaf);
                lemma_order(leaf, q, l);
                assert(leaf[l] == n - 1);
                lemma_leaves_below_contains(tree, child, fan, leaf);
                assert(leaf.take(l + 1) =~= child) by {
                    assert(leaf.take(l + 1) =~= leaf.take(l).push(leaf[l]));
                }
            }
        }
    }
}

proof fn lemma_beside_child(
    tree: Tree,
    target: Option<usize>,
    from: Tally,
    path: Seq<usize>,
    n: nat,
    node: Seq<usize>,
)
    requires
        tree.wf(),
        path.len() < tree.depth,
        tree.has_path(path),
        0 < n <= usize::MAX,
        n <= tree.rows[path.len() as int].len(),
        path.len() < node.len() <= tree.depth,
        path == node.take(path.len() as int),
        node[path.len() as int] < n - 1,
    ensures
        ({
            let child = path.push((n - 1) as usize);
            let after = tree.visit(target, Progress { tally: from, nodes: 0 }, child).tally;
            forall|k: int|
                path.len() < k <= node.len() ==> (left(
                    tree,
                    target,
                    from.max,
                    tree.leaves_below(path, n),
                    #[trigger] node.take(k),
                ) <==> left(
                    tree,
                    target,
                    after.max,
                    tree.leaves_below(path, (n - 1) as nat),
                    node.take(k),
                ))
        }),
{
    let l = path.len() as int;
    let child = path.push((n - 1) as usize);
    let after = tree.visit(target, Progress { tally: from, nodes: 0 }, child).tally;
    let leaves = tree.leaves_below(path, n);
    let rest = tree.leaves_below(path, (n - 1) as nat);
    let own = tree.leaves_of(child);
    assert(leaves == own + rest);
    assert(child.take(l) =~= path);
    assert forall|leaf: Seq<usize>| #[trigger] leaves.contains(leaf) <==> own.contains(leaf)
        || rest.contains(leaf) by {
        lemma_three_parts(own, rest, Seq::empty(), leaf);
        assert(own + rest + Seq::<Seq<usize>>::empty() =~= leaves);
        assert(!Seq::<Seq<usize>>::empty().contains(leaf));
    }
    assert forall|k: int| path.len() < k <= node.len() implies (left(
        tree,
        target,
        from.max,
        leaves,
        #[trigger] node.take(k),
    ) <==> left(tree, target, after.max, rest, node.take(k))) by {
        let q = node.take(k);
        let c = tree.count(q);
        assert(q.take(l) =~= path);
        assert(q[l] < n - 1);
        assert forall|leaf: Seq<usize>| #[trigger] own.contains(leaf) implies searched_before(
            leaf,
            q,
        ) by {
            lemma_leaves_of_contains(tree, child, leaf);
            assert(leaf.take(l) =~= leaf.take(l + 1).take(l));
            assert(leaf[l] == leaf.take(l + 1)[l]);
            lemma_order(leaf, q, l);
        }
        assert(child.len() <= tree.depth);
        lemma_max_after_visit(tree, target, from, child, c);
        if left(tree, target, from.max, leaves, q) && !(c < from.max) {
            let leaf = choose|leaf: Seq<usize>|
                {
                    &&& #[trigger] leaves.contains(leaf)
                    &&& searched_before(leaf, q)
                    &&& tree.count(leaf) > tree.count(q)
                };
            if own.contains(leaf) {
                assert(after.max > c);
            } else {
                assert(rest.contains(leaf));
            }
        }
        if left(tree, target, after.max, rest, q) {
            if c < after.max && !(c < from.max) {
                let leaf = choose|leaf: Seq<usize>| #[trigger]
                    own.contains(leaf) && tree.count(leaf) > c;
                assert(leaves.contains(leaf));
            } else if !(c < after.max) {
                let leaf = choose|leaf: Seq<usize>|
                    {
                        &&& #[trigger] rest.contains(leaf)
                        &&& searched_before(leaf, q)
                        &&& tree.count(leaf) > tree.count(q)
                    };
                assert(leaves.contains(leaf));
            }
        }
    }
}

/// The tour goes through exactly the nodes that are reached, and through none twice.
proof fn lemma_tour(tree: Tree, target: Option<usize>, from: Tally, path: Seq<usize>, n: nat)
    requires
        tree.wf(),
        path.len() < tree.depth,
        tree.has_path(path),
        n <= usize::MAX,
        n <= tree.rows[path.len() as int].len(),
    ensures
        forall|node: Seq<usize>| #[trigger]
            tour(tree, target, from, path, n).contains(node) <==> reached(
                tree,
                target,
                from.max,
                path,
                n,
                node,
            ),
        tour(tree, target, from, path, n).no_duplicates(),
    decreases tree.depth - path.len(), n,
{
    let all = tour(tree, target, from, path, n);
    if n > 0 {
        let l = path.len() as int;
        let child = path.push((n - 1) as usize);
        let start = Progress { tally: from, nodes: 0 };
        let after = tree.visit(target, start, child).tally;
        let fan = tree.fans[child.len() as int] as nat;
        let first = seq![child];
        let inner = !from.prunes(target, tree.count(child)) && child.len() < tree.depth;
        let below = if inner {
            tour(tree, target, from, child, fan)
        } else {
            seq![]
        };
        let rest = tour(tree, target, after, path, (n - 1) as nat);
        assert(all == first + below + rest);
        assert(child.take(l) =~= path);
        if inner {
            assert(tree.fans[child.len() as int] <= tree.rows[child.len() as int].len());
            lemma_tour(tree, target, from, child, fan);
        }
        lemma_tour(tree, target, after, path, (n - 1) as nat);
        assert forall|node: Seq<usize>| #[trigger] first.contains(node) <==> node == child by {
            assert(first[0] == child);
        }
        assert forall|node: Seq<usize>| #[trigger] all.contains(node) <==> reached(
            tree,
            target,
            from.max,
            path,
            n,
            node,
        ) by {
            lemma_three_parts(first, below, rest, node);
            if l < node.len() <= tree.depth && path == node.take(l) {
                if node[l] == n - 1 {
                    lemma_below_child(tree, target, from, path, n, node);
                    assert(node.take(l + 1) =~= child) by {
                        assert(node.take(l + 1) =~= node.take(l).push(node[l]));
                    }
                    if node.len() == l + 1 {
                        assert(node =~= child);
                    } else {
                        lemma_through_child(tree, target, from, path, n, node);
                    }
                } else if node[l] < n - 1 {
                    lemma_beside_child(tree, target, from, path, n, node);
                    lemma_same_reach(tree, target, from, path, n, node);
                }
            }
            if first.contains(node) {
                assert(reached(tree, target, from.max, path, n, child));
            }
            if below.contains(node) {
                assert(node.take(l) =~= node.take(l + 1).take(l));
                assert(node[l] == node.take(l + 1)[l]);
            }
        }
        assert forall|node: Seq<usize>| #[trigger] below.contains(node) implies node.len() > l + 1
            && node[l] == n - 1 by {
            assert(node[l] == node.take(l + 1)[l]);
        }
        lemma_distinct_parts(first, below, rest, l, n);
    } else {
        assert forall|node: Seq<usize>| #[trigger] all.contains(node) <==> reached(
            tree,
            target,
            from.max,
            path,
            n,
            node,
        ) by {}
    }
}

/// What lies deeper below the first child is reached where the child is not left and the node is
/// reached from the child.
proof fn lemma_through_child(
    tree: Tree,
    target: Option<usize>,
    from: Tally,
    path: Seq<usize>,
    n: nat,
    node: Seq<usize>,
)
    requires
        tree.wf(),
        path.len() < tree.depth,
        0 < n <= usize::MAX,
        path.len() + 1 < node.len() <= tree.depth,
        path == node.take(path.len() as int),
        node[path.len() as int] == n - 1,
    ensures
        ({
            let child = path.push((n - 1) as usize);
            reached(tree, target, from.max, path, n, node) <==> !from.prunes(
                target,
                tree.count(child),
            ) && reached(
                tree,
                target,
                from.max,
                child,
                tree.fans[child.len() as int] as nat,
                node,
            )
        }),
{
    let l = path.len() as int;
    let child = path.push((n - 1) as usize);
    let fan = tree.fans[child.len() as int] as nat;
    let leaves = tree.leaves_below(path, n);
    let own = tree.leaves_below(child, fan);
    lemma_below_child(tree, target, from, path, n, node);
    assert(node.take(l + 1) =~= node.take(l).push(node[l]));
    assert(node.take(l + 1) =~= child);
    if reached(tree, target, from.max, path, n, node) {
        assert(!left(tree, target, from.max, leaves, node.take(l + 1)));
        assert(node[l + 1] < tree.fans[l + 1]);
        assert forall|k: int| child.len() < k < node.len() implies !left(
            tree,
            target,
            from.max,
            own,
            #[trigger] node.take(k),
        ) by {
            assert(!left(tree, target, from.max, leaves, node.take(k)));
        }
    }
    if !from.prunes(target, tree.count(child)) && reached(
        tree,
        target,
        from.max,
        child,
        fan,
        node,
    ) {
        assert forall|k: int| path.len() < k < node.len() implies !left(
            tree,
            target,
            from.max,
            leaves,
            #[trigger] node.take(k),
        ) by {
            if k > l + 1 {
                assert(!left(tree, target, from.max, own, node.take(k)));
            }
        }
        assert forall|i: int| path.len() < i < node.len() implies #[trigger] node[i]
            < tree.fans[i] by {}
    }
}

/// What lies beside the first child is reached where it is reached after the child.
proof fn lemma_same_reach(
    tree: Tree,
    target: Option<usize>,
    from: Tally,
    path: Seq<usize>,
    n: nat,
    node: Seq<usize>,
)
    requires
        tree.wf(),
        path.len() < tree.depth,
        tree.has_path(path),
        0 < n <= usize::MAX,
        n <= tree.rows[path.len() as int].len(),
        path.len() < node.len() <= tree.depth,
        path == node.take(path.len() as int),
        node[path.len() as int] < n - 1,
    ensures
        ({
            let child = path.push((n - 1) as usize);
            let after = tree.visit(target, Progress { tally: from, nodes: 0 }, child).tally;
            reached(tree, target, from.max, path, n, node) <==> reached(
                tree,
                target,
                after.max,
                path,
                (n - 1) as nat,
                node,
            )
        }),
{
    let child = path.push((n - 1) as usize);
    let after = tree.visit(target, Progress { tally: from, nodes: 0 }, child).tally;
    let leaves = tree.leaves_below(path, n);
    let rest = tree.leaves_below(path, (n - 1) as nat);
    lemma_beside_child(tree, target, from, path, n, node);
    if reached(tree, target, from.max, path, n, node) {
        assert forall|k: int| path.len() < k < node.len() implies !left(
            tree,
            target,
            after.max,
            rest,
            #[trigger] node.take(k),
        ) by {
            assert(!left(tree, target, from.max, leaves, node.take(k)));
        }
    }
    if reached(tree, target, after.max, path, (n - 1) as nat, node) {
        assert forall|k: int| path.len() < k < node.len() implies !left(
            tree,
            target,
            from.max,
            leaves,
            #[trigger] node.take(k),
        ) by {
            assert(!left(tree, target, after.max, rest, node.take(k)));
        }
    }
}

proof fn lemma_distinct_parts(
    first: Seq<Seq<usize>>,
    below: Seq<Seq<usize>>,
    rest: Seq<Seq<usize>>,
    l: int,
    n: nat,
)
    requires
        n > 0,
        first.len() == 1,
        first[0].len() == l + 1,
        first[0][l] == n - 1,
        below.no_duplicates(),
        rest.no_duplicates(),
        forall|node: Seq<usize>| #[trigger]
            below.contains(node) ==> node.len() > l + 1 && node[l] == n - 1,
        forall|node: Seq<usize>| #[trigger] rest.contains(node) ==> node[l] < n - 1,
    ensures
        (first + below + rest).no_duplicates(),
{
    let all = first + below + rest;
    let b = 1 + below.len() as int;
    assert forall|i: int, j: int| 0 <= i < j < all.len() implies all[i] != all[j] by {
        if 1 <= i < b {
            assert(all[i] == below[i - 1]);
            assert(below.contains(all[i]));
        }
        if 1 <= j < b {
            assert(all[j] == below[j - 1]);
            assert(below.contains(all[j]));
        }
        if i >= b {
            assert(all[i] == rest[i - b]);
        }
        if j >= b {
            assert(all[j] == rest[j - b]);
            assert(rest.contains(all[j]));
        }
    }
}

/// A sequential search from the root visits a node exactly where each node on the way to it reaches
/// the target, or counts to no less than what was found before and than every leaf that comes before
/// it. It visits no node twice, and its node number is the number of nodes that it visits.
pub proof fn law_search_visits_what_can_matter(
    tree: Tree,
    target: Option<usize>,
    from: Tally,
) -> (visits: Seq<Seq<usize>>)
    requires
        tree.wf(),
        tree.depth > 0,
    ensures
        visits.len() == tree.explore(
            target,
            Progress { tally: from, nodes: 0 },
            Seq::empty(),
            tree.fans[0] as nat,
        ).nodes,
        visits.no_duplicates(),
        forall|node: Seq<usize>| #[trigger]
            visits.contains(node) <==> {
            &&& 0 < node.len() <= tree.depth
            &&& forall|i: int| 0 <= i < node.len() ==> #[trigger] node[i] < tree.fans[i]
            &&& forall|k: int|
                0 < k < node.len() ==> {
                    let count = tree.count(#[trigger] node.take(k));
                    ||| target matches Some(t) && count >= t
                    ||| count >= from.max && forall|leaf: Seq<usize>|
                        leaf.len() == tree.depth && (forall|i: int|
                            0 <= i < leaf.len() ==> #[trigger] leaf[i] < tree.fans[i])
                            && #[trigger] searched_before(leaf, node.take(k)) ==> tree.count(leaf)
                            <= count
                }
        },
{
    let root = Seq::<usize>::empty();
    let n = tree.fans[0] as nat;
    let visits = tour(tree, target, from, root, n);
    assert(tree.fans[0] <= tree.rows[0].len());
    lemma_tour_len(tree, target, Progress { tally: from, nodes: 0 }, root, n);
    lemma_tour(tree, target, from, root, n);
    law_search_covers_every_leaf(tree);
    assert forall|node: Seq<usize>| #[trigger] visits.contains(node) <==> {
            &&& 0 < node.len() <= tree.depth
            &&& forall|i: int| 0 <= i < node.len() ==> #[trigger] node[i] < tree.fans[i]
            &&& forall|k: int|
                0 < k < node.len() ==> {
                    let count = tree.count(#[trigger] node.take(k));
                    ||| target matches Some(t) && count >= t
                    ||| count >= from.max && forall|leaf: Seq<usize>|
                        leaf.len() == tree.depth && (forall|i: int|
                            0 <= i < leaf.len() ==> #[trigger] leaf[i] < tree.fans[i])
                            && #[trigger] searched_before(leaf, node.take(k)) ==> tree.count(leaf)
                            <= count
                }
        } by {
        assert(node.take(0) =~= root);
        if 0 < node.len() <= tree.depth {
            lemma_reached_from_root(tree, target, from, node);
        }
    }
    visits
}

proof fn lemma_reached_from_root(
    tree: Tree,
    target: Option<usize>,
    from: Tally,
    node: Seq<usize>,
)
    requires
        tree.wf(),
        tree.depth > 0,
        0 < node.len() <= tree.depth,
    ensures
        reached(tree, target, from.max, Seq::empty(), tree.fans[0] as nat, node) <==> {
            &&& 0 < node.len() <= tree.depth
            &&& forall|i: int| 0 <= i < node.len() ==> #[trigger] node[i] < tree.fans[i]
            &&& forall|k: int|
                0 < k < node.len() ==> {
                    let count = tree.count(#[trigger] node.take(k));
                    ||| target matches Some(t) && count >= t
                    ||| count >= from.max && forall|leaf: Seq<usize>|
                        leaf.len() == tree.depth && (forall|i: int|
                            0 <= i < leaf.len() ==> #[trigger] leaf[i] < tree.fans[i])
                            && #[trigger] searched_before(leaf, node.take(k)) ==> tree.count(leaf)
                            <= count
                }
        },
{
    let root = Seq::<usize>::empty();
    let leaves = tree.leaves_below(root, tree.fans[0] as nat);
    law_search_covers_every_leaf(tree);
    assert(leaves == tree.leaves_of(root));
    assert(node.take(0) =~= root);
    assert forall|k: int| 0 < k < node.len() implies (!left(
        tree,
        target,
        from.max,
        leaves,
        #[trigger] node.take(k),
    ) <==> {
        let count = tree.count(node.take(k));
        ||| target matches Some(t) && count >= t
        ||| count >= from.max && forall|leaf: Seq<usize>|
            leaf.len() == tree.depth && (forall|i: int|
                0 <= i < leaf.len() ==> #[trigger] leaf[i] < tree.fans[i])
                && #[trigger] searched_before(leaf, node.take(k)) ==> tree.count(leaf) <= count
    }) by {
        let q = node.take(k);
        let count = tree.count(q);
        if !left(tree, target, from.max, leaves, q) && out_of_reach(target, count) {
            assert forall|leaf: Seq<usize>|
                leaf.len() == tree.depth && (forall|i: int|
                    0 <= i < leaf.len() ==> #[trigger] leaf[i] < tree.fans[i])
                    && #[trigger] searched_before(leaf, q) implies tree.count(leaf) <= count by {
                assert(tree.is_leaf(leaf));
                assert(leaves.contains(leaf));
            }
        }
        if left(tree, target, from.max, leaves, q) && count >= from.max {
            let leaf = choose|leaf: Seq<usize>|
                {
                    &&& #[trigger] leaves.contains(leaf)
                    &&& searched_before(leaf, q)
                    &&& tree.count(leaf) > tree.count(q)
                };
            assert(tree.is_leaf(leaf));
        }
    }
    if reached(tree, target, from.max, root, tree.fans[0] as nat, node) {
        assert forall|i: int| 0 <= i < node.len() implies #[trigger] node[i] < tree.fans[i] by {}
        assert forall|k: int| 0 < k < node.len() implies {
            let count = tree.count(#[trigger] node.take(k));
            ||| target matches Some(t) && count >= t
            ||| count >= from.max && forall|leaf: Seq<usize>|
                leaf.len() == tree.depth && (forall|i: int|
                    0 <= i < leaf.len() ==> #[trigger] leaf[i] < tree.fans[i])
                    && #[trigger] searched_before(leaf, node.take(k)) ==> tree.count(leaf) <= count
        } by {
            assert(!left(tree, target, from.max, leaves, node.take(k)));
        }
    }
}

} // verus!
