//! Depth-first walk through the tree with an explicit stack.

use vstd::prelude::*;

use crate::bitmask::{clip, overlay, BitMask};
use crate::bits::both;
use crate::checkpoint::Frame;
use crate::shift_table::table_rows;
use crate::tree::{law_pruning_loses_nothing, lemma_record_all_concat, lemma_row_push, Progress, Tree};

verus! {

/// `key` leads to the node of the topmost frame, and the frames below belong to the nodes on the
/// way, one for each level.
pub open spec fn position_ok(tree: Tree, stack: Seq<Frame>, key: Seq<usize>) -> bool {
    &&& tree.has_path(key)
    &&& stack.len() > 0 ==> key.len() < tree.depth
    &&& forall|j: int|
        0 <= j < stack.len() ==> {
            &&& (#[trigger] stack[j]).level == key.len() - (stack.len() - 1 - j)
            &&& stack[j].next_idx <= tree.rows[stack[j].level as int].len()
        }
}

/// The search of what a stack still holds, from the topmost frame down.
pub open spec fn unwind(
    tree: Tree,
    target: Option<usize>,
    from: Progress,
    stack: Seq<Frame>,
    key: Seq<usize>,
) -> Progress
    decreases stack.len(),
{
    if stack.len() == 0 {
        from
    } else {
        let top = stack.last();
        unwind(
            tree,
            target,
            tree.explore(target, from, key.take(top.level as int), top.next_idx as nat),
            stack.drop_last(),
            key,
        )
    }
}

/// The leaves that a stack still leads to, in the order of the search.
pub open spec fn remaining(tree: Tree, stack: Seq<Frame>, key: Seq<usize>) -> Seq<Seq<usize>>
    decreases stack.len(),
{
    if stack.len() == 0 {
        seq![]
    } else {
        let top = stack.last();
        tree.leaves_below(key.take(top.level as int), top.next_idx as nat) + remaining(
            tree,
            stack.drop_last(),
            key,
        )
    }
}

/// What is left of a key once the stack is empty: the path to the node of the lowest frame.
pub open spec fn root_key(stack: Seq<Frame>, key: Seq<usize>) -> Seq<usize> {
    if stack.len() == 0 {
        key
    } else {
        key.take(stack[0].level as int)
    }
}

/// How many nodes a stack still leads to at most.
pub open spec fn nodes_ahead(tree: Tree, stack: Seq<Frame>) -> nat
    decreases stack.len(),
{
    if stack.len() == 0 {
        0
    } else {
        tree.nodes_below(stack.last().level as nat, stack.last().next_idx as nat) + nodes_ahead(
            tree,
            stack.drop_last(),
        )
    }
}

/// The position once all frames that hold no more children have been given up.
pub open spec fn settle(stack: Seq<Frame>, key: Seq<usize>) -> (Seq<Frame>, Seq<usize>)
    decreases stack.len(),
{
    if stack.len() == 0 || stack.last().next_idx > 0 {
        (stack, key)
    } else {
        let rest = stack.drop_last();
        settle(
            rest,
            if rest.len() > 0 {
                key.drop_last()
            } else {
                key
            },
        )
    }
}

/// The child that a settled stack leads to next, and the stack behind it.
pub open spec fn next_child(stack: Seq<Frame>, key: Seq<usize>) -> (Seq<Frame>, Seq<usize>) {
    let top = stack.last();
    let shift = (top.next_idx - 1) as usize;
    (
        stack.drop_last().push(Frame { level: top.level, next_idx: shift }),
        key.push(shift),
    )
}

/// Only the part of the key above each frame matters.
pub proof fn lemma_unwind_key(
    tree: Tree,
    target: Option<usize>,
    from: Progress,
    stack: Seq<Frame>,
    a: Seq<usize>,
    b: Seq<usize>,
)
    requires
        forall|j: int|
            0 <= j < stack.len() ==> a.take((#[trigger] stack[j]).level as int) == b.take(
                stack[j].level as int,
            ),
    ensures
        unwind(tree, target, from, stack, a) == unwind(tree, target, from, stack, b),
    decreases stack.len(),
{
    if stack.len() > 0 {
        let top = stack.last();
        assert(top == stack[stack.len() - 1]);
        assert forall|j: int| 0 <= j < stack.drop_last().len() implies a.take(
            (#[trigger] stack.drop_last()[j]).level as int,
        ) == b.take(stack.drop_last()[j].level as int) by {
            assert(stack.drop_last()[j] == stack[j]);
        }
        lemma_unwind_key(
            tree,
            target,
            tree.explore(target, from, a.take(top.level as int), top.next_idx as nat),
            stack.drop_last(),
            a,
            b,
        );
    }
}

/// Only the part of the key above each frame matters.
pub proof fn lemma_remaining_key(tree: Tree, stack: Seq<Frame>, a: Seq<usize>, b: Seq<usize>)
    requires
        forall|j: int|
            0 <= j < stack.len() ==> a.take((#[trigger] stack[j]).level as int) == b.take(
                stack[j].level as int,
            ),
    ensures
        remaining(tree, stack, a) == remaining(tree, stack, b),
    decreases stack.len(),
{
    if stack.len() > 0 {
        assert(stack.last() == stack[stack.len() - 1]);
        assert forall|j: int| 0 <= j < stack.drop_last().len() implies a.take(
            (#[trigger] stack.drop_last()[j]).level as int,
        ) == b.take(stack.drop_last()[j].level as int) by {
            assert(stack.drop_last()[j] == stack[j]);
        }
        lemma_remaining_key(tree, stack.drop_last(), a, b);
    }
}

/// Searching what a stack holds gives the tally of the leaves that it leads to.
pub proof fn lemma_unwind_tally(
    tree: Tree,
    target: Option<usize>,
    from: Progress,
    stack: Seq<Frame>,
    key: Seq<usize>,
)
    requires
        tree.wf(),
        tree.has_path(key),
        forall|j: int|
            0 <= j < stack.len() ==> {
                &&& (#[trigger] stack[j]).level <= key.len()
                &&& stack[j].level < tree.depth
                &&& stack[j].next_idx <= tree.rows[stack[j].level as int].len()
            },
    ensures
        unwind(tree, target, from, stack, key).tally == tree.record_all(
            target,
            from.tally,
            remaining(tree, stack, key),
        ),
    decreases stack.len(),
{
    if stack.len() > 0 {
        let top = stack.last();
        let rest = stack.drop_last();
        assert(top == stack[stack.len() - 1]);
        assert forall|j: int| 0 <= j < rest.len() implies {
            &&& (#[trigger] rest[j]).level <= key.len()
            &&& rest[j].level < tree.depth
            &&& rest[j].next_idx <= tree.rows[rest[j].level as int].len()
        } by {
            assert(rest[j] == stack[j]);
        }
        let path = key.take(top.level as int);
        let after = tree.explore(target, from, path, top.next_idx as nat);
        law_pruning_loses_nothing(tree, target, from, path, top.next_idx as nat);
        lemma_unwind_tally(tree, target, after, rest, key);
        lemma_record_all_concat(
            tree,
            target,
            from.tally,
            tree.leaves_below(path, top.next_idx as nat),
            remaining(tree, rest, key),
        );
    }
}

/// A masks table fits a tree: its rows are the tree's.
pub open spec fn table_fits(tree: Tree, table: Seq<Vec<BitMask>>) -> bool {
    &&& tree.rows == table_rows(table)
    &&& forall|l: int, s: int|
        0 <= l < table.len() && 0 <= s < table[l]@.len() ==> (#[trigger] table[l]@[s]).wf()
}

/// A position in the tree, with the open columns of the nodes on the way to it.
pub struct Walk {
    pub stack: Vec<Frame>,
    pub key: Vec<usize>,
    pub masks: Vec<BitMask>,
}

impl Walk {
    /// The row of each node from the lowest frame's down to `path` is at hand.
    pub open spec fn masks_fit(&self, tree: Tree, path: Seq<usize>) -> bool {
        &&& self.masks@.len() == tree.depth + 1
        &&& forall|i: int|
            0 <= i <= tree.depth ==> {
                &&& (#[trigger] self.masks@[i]).wf()
                &&& self.masks@[i]@.len() == tree.base.len()
            }
        &&& forall|i: int|
            self.stack@.len() > 0 && self.stack@[0].level <= i <= path.len() ==> (
            #[trigger] self.masks@[i])@ == tree.row(path.take(i))
    }

    /// The walk stands between two nodes.
    pub open spec fn wf(&self, tree: Tree) -> bool {
        &&& position_ok(tree, self.stack@, self.key@)
        &&& self.masks_fit(tree, self.key@)
    }

    /// The walk stands at the node `key`, which is a child of the topmost frame's node.
    pub open spec fn at_node(&self, tree: Tree) -> bool {
        &&& self.key@.len() > 0
        &&& self.stack@.len() > 0
        &&& position_ok(tree, self.stack@, self.key@.drop_last())
        &&& tree.has_path(self.key@)
        &&& self.masks_fit(tree, self.key@)
    }

    /// A walk from the given position, with masks for the nodes on the way.
    pub(crate) fn new(
        stack: Vec<Frame>,
        key: Vec<usize>,
        masks: Vec<BitMask>,
        Ghost(tree): Ghost<Tree>,
    ) -> (walk: Self)
        requires
            position_ok(tree, stack@, key@),
            masks@.len() == tree.depth + 1,
            forall|i: int|
                0 <= i <= tree.depth ==> {
                    &&& (#[trigger] masks@[i]).wf()
                    &&& masks@[i]@.len() == tree.base.len()
                },
            forall|i: int|
                stack@.len() > 0 && stack@[0].level <= i <= key@.len() ==> (
                #[trigger] masks@[i])@ == tree.row(key@.take(i)),
        ensures
            walk.wf(tree),
            walk.stack@ == stack@,
            walk.key@ == key@,
    {
        Walk { stack, key, masks }
    }

    /// Goes to the next node and returns how many columns it leaves open; `None` where no node is
    /// left.
    pub(crate) fn next_node(
        &mut self,
        table: &Vec<Vec<BitMask>>,
        Ghost(tree): Ghost<Tree>,
    ) -> (count: Option<usize>)
        requires
            tree.wf(),
            table_fits(tree, table@),
            old(self).wf(tree),
        ensures
            root_key(final(self).stack@, final(self).key@) == root_key(
                old(self).stack@,
                old(self).key@,
            ),
            match count {
                None => {
                    &&& final(self).wf(tree)
                    &&& final(self).stack@.len() == 0
                    &&& settle(old(self).stack@, old(self).key@) == (
                        final(self).stack@,
                        final(self).key@,
                    )
                    &&& remaining(tree, old(self).stack@, old(self).key@) == Seq::<Seq<usize>>::empty()
                    &&& forall|target: Option<usize>, from: Progress| #[trigger]
                        unwind(tree, target, from, old(self).stack@, old(self).key@) == from
                },
                Some(n) => {
                    let settled = settle(old(self).stack@, old(self).key@);
                    &&& final(self).at_node(tree)
                    &&& settled.0.len() > 0
                    &&& next_child(settled.0, settled.1) == (final(self).stack@, final(self).key@)
                    &&& n == tree.count(final(self).key@)
                    &&& nodes_ahead(tree, final(self).stack@) + 1 + (if final(self).key@.len()
                        >= tree.depth {
                        0
                    } else {
                        tree.nodes_below(
                            final(self).key@.len(),
                            tree.fans[final(self).key@.len() as int] as nat,
                        )
                    }) == nodes_ahead(tree, old(self).stack@)
                    &&& remaining(tree, old(self).stack@, old(self).key@) == tree.leaves_of(
                        final(self).key@,
                    ) + remaining(tree, final(self).stack@, final(self).key@)
                    &&& forall|target: Option<usize>, from: Progress| #[trigger]
                        unwind(tree, target, from, old(self).stack@, old(self).key@) == unwind(
                            tree,
                            target,
                            tree.visit(target, from, final(self).key@),
                            final(self).stack@,
                            final(self).key@,
                        )
                },
            },
    {
        let ghost start = *self;
        while self.stack.len() > 0
            invariant
                tree.wf(),
                table_fits(tree, table@),
                start == *old(self),
                self.wf(tree),
                root_key(self.stack@, self.key@) == root_key(start.stack@, start.key@),
                settle(self.stack@, self.key@) == settle(start.stack@, start.key@),
                nodes_ahead(tree, self.stack@) == nodes_ahead(tree, start.stack@),
                remaining(tree, self.stack@, self.key@) == remaining(
                    tree,
                    start.stack@,
                    start.key@,
                ),
                forall|target: Option<usize>, from: Progress| #[trigger]
                    unwind(tree, target, from, start.stack@, start.key@) == unwind(
                        tree,
                        target,
                        from,
                        self.stack@,
                        self.key@,
                    ),
            decreases self.stack@.len(),
        {
            let ghost before = *self;
            let last: usize = self.stack.len() - 1;
            let frame: Frame = self.stack[last];
            assert(frame == self.stack@.last());
            if frame.next_idx == 0 {
                self.stack.pop();
                assert(self.stack@ =~= before.stack@.drop_last());
                if self.stack.len() > 0 {
                    assert(before.stack@[0].level == before.key@.len() - (before.stack@.len() - 1));
                    self.key.pop();
                    assert(self.key@ =~= before.key@.drop_last());
                }
                proof {
                    Self::lemma_popped(before, *self, tree);
                }
                continue ;
            }
            let i: usize = frame.next_idx - 1;
            let level: usize = frame.level;
            self.stack[last] = Frame { level, next_idx: i };
            self.key.push(i);
            assert(self.key@.drop_last() =~= before.key@);
            assert(level == before.key@.len());
            assert(i < tree.rows[level as int].len());
            assert(tree.rows[level as int][i as int] == table@[level as int]@[i as int]@);
            assert(table@[level as int]@[i as int].wf());
            assert(tree.rows[level as int][i as int].len() == tree.base.len());
            assert(level + 1 < self.masks.len());
            let (base_masks, node_masks) = self.masks.as_mut_slice().split_at_mut(level + 1);
            let count: usize = node_masks[0].bitand_into_count(
                &base_masks[level],
                &table[level][i],
            );
            proof {
                let mask = self.masks@[level as int + 1];
                assert(self.masks@ =~= before.masks@.update(level as int + 1, mask));
                Self::lemma_stepped(before, *self, mask, tree, i);
                assert(self.stack@ =~= next_child(before.stack@, before.key@).0);
                let meet = both(
                    tree.row(before.key@),
                    tree.rows[level as int][i as int],
                );
                assert(before.key@.take(level as int) =~= before.key@);
                assert(clip(meet, tree.base.len()) =~= meet);
                lemma_row_push(tree, before.key@, i);
                assert(self.key@ =~= before.key@.push(i));
            }
            return Some(count);
        }
        None
    }

    proof fn lemma_popped(before: Self, after: Self, tree: Tree)
        requires
            before.wf(tree),
            before.stack@.len() > 0,
            before.stack@.last().next_idx == 0,
            after.stack@ == before.stack@.drop_last(),
            after.key@ == if after.stack@.len() > 0 {
                before.key@.drop_last()
            } else {
                before.key@
            },
            after.masks@ == before.masks@,
        ensures
            after.wf(tree),
            root_key(after.stack@, after.key@) == root_key(before.stack@, before.key@),
            nodes_ahead(tree, after.stack@) == nodes_ahead(tree, before.stack@),
            remaining(tree, after.stack@, after.key@) == remaining(
                tree,
                before.stack@,
                before.key@,
            ),
            forall|target: Option<usize>, from: Progress| #[trigger]
                unwind(tree, target, from, before.stack@, before.key@) == unwind(
                    tree,
                    target,
                    from,
                    after.stack@,
                    after.key@,
                ),
    {
        let rest = before.stack@.drop_last();
        assert(root_key(after.stack@, after.key@) =~= root_key(before.stack@, before.key@)) by {
            assert(before.stack@[0].level == before.key@.len() - (before.stack@.len() - 1));
            if after.stack@.len() > 0 {
                assert(after.stack@[0] == before.stack@[0]);
            }
        }
        if after.stack@.len() > 0 {
            assert(before.key@.len() > 0) by {
                assert(before.stack@[0].level == before.key@.len() - (before.stack@.len() - 1));
            }
            assert forall|j: int| 0 <= j < after.stack@.len() implies {
                &&& (#[trigger] after.stack@[j]).level == after.key@.len() - (after.stack@.len() - 1
                    - j)
                &&& after.stack@[j].next_idx <= tree.rows[after.stack@[j].level as int].len()
            } by {
                assert(after.stack@[j] == before.stack@[j]);
            }
            assert forall|i: int| after.stack@[0].level <= i <= after.key@.len() implies (
            #[trigger] after.masks@[i])@ == tree.row(after.key@.take(i)) by {
                assert(after.key@.take(i) =~= before.key@.take(i));
                assert(after.stack@[0] == before.stack@[0]);
            }
        }
        assert forall|j: int| 0 <= j < rest.len() implies before.key@.take(
            (#[trigger] rest[j]).level as int,
        ) == after.key@.take(rest[j].level as int) by {
            assert(rest[j] == before.stack@[j]);
            assert(before.key@.take(rest[j].level as int) =~= after.key@.take(
                rest[j].level as int,
            ));
        }
        lemma_remaining_key(tree, rest, before.key@, after.key@);
        assert(remaining(tree, before.stack@, before.key@) =~= remaining(
            tree,
            rest,
            before.key@,
        ));
        assert forall|target: Option<usize>, from: Progress| #[trigger]
            unwind(tree, target, from, before.stack@, before.key@) == unwind(
            tree,
            target,
            from,
            after.stack@,
            after.key@,
        ) by {
            lemma_unwind_key(tree, target, from, rest, before.key@, after.key@);
        }
    }

    proof fn lemma_stepped(before: Self, after: Self, mask: BitMask, tree: Tree, i: usize)
        requires
            tree.wf(),
            before.wf(tree),
            before.stack@.len() > 0,
            before.stack@.last().next_idx == i + 1,
            after.stack@ == before.stack@.update(
                before.stack@.len() - 1,
                Frame { level: before.stack@.last().level, next_idx: i },
            ),
            after.key@ == before.key@.push(i),
            after.masks@ == before.masks@.update(before.key@.len() as int + 1, mask),
            mask.wf(),
            mask@ == overlay(
                before.masks@[before.key@.len() as int + 1]@,
                both(
                    before.masks@[before.key@.len() as int]@,
                    tree.rows[before.key@.len() as int][i as int],
                ),
            ),
        ensures
            after.at_node(tree),
            root_key(after.stack@, after.key@) == root_key(before.stack@, before.key@),
            nodes_ahead(tree, after.stack@) + 1 + (if after.key@.len() >= tree.depth {
                0
            } else {
                tree.nodes_below(after.key@.len(), tree.fans[after.key@.len() as int] as nat)
            }) == nodes_ahead(tree, before.stack@),
            remaining(tree, before.stack@, before.key@) == tree.leaves_of(after.key@) + remaining(
                tree,
                after.stack@,
                after.key@,
            ),
            forall|target: Option<usize>, from: Progress| #[trigger]
                unwind(tree, target, from, before.stack@, before.key@) == unwind(
                    tree,
                    target,
                    tree.visit(target, from, after.key@),
                    after.stack@,
                    after.key@,
                ),
    {
        let n = before.stack@.len();
        let level = before.stack@.last().level;
        let rest = before.stack@.drop_last();
        assert(before.stack@[n - 1] == before.stack@.last());
        assert(level == before.key@.len());
        assert(after.stack@.drop_last() =~= rest);
        assert(before.stack@[0].level == before.key@.len() - (n - 1));
        assert(after.stack@[0].level == before.stack@[0].level);
        assert(root_key(after.stack@, after.key@) =~= root_key(before.stack@, before.key@));
        assert(after.key@.drop_last() =~= before.key@);
        assert(tree.rows[level as int][i as int].len() == tree.base.len());
        assert forall|j: int| 0 <= j < after.stack@.len() implies {
            &&& (#[trigger] after.stack@[j]).level == before.key@.len() - (after.stack@.len() - 1
                - j)
            &&& after.stack@[j].next_idx <= tree.rows[after.stack@[j].level as int].len()
        } by {
            assert(before.stack@[j].level == after.stack@[j].level);
        }
        assert(tree.has_path(after.key@));
        lemma_row_push(tree, before.key@, i);
        assert(before.key@.take(level as int) =~= before.key@);
        assert(after.key@.take(level as int + 1) =~= after.key@);
        assert(mask@ =~= tree.row(after.key@));
        assert forall|k: int| after.stack@[0].level <= k <= after.key@.len() implies (
        #[trigger] after.masks@[k])@ == tree.row(after.key@.take(k)) by {
            assert(after.stack@[0].level == before.stack@[0].level);
            if k <= level {
                assert(after.key@.take(k) =~= before.key@.take(k));
            }
        }
        assert(after.key@.take(level as int) =~= before.key@);
        assert forall|j: int| 0 <= j < rest.len() implies before.key@.take(
            (#[trigger] rest[j]).level as int,
        ) == after.key@.take(rest[j].level as int) by {
            assert(rest[j] == before.stack@[j]);
            assert(before.key@.take(rest[j].level as int) =~= after.key@.take(
                rest[j].level as int,
            ));
        }
        lemma_remaining_key(tree, rest, before.key@, after.key@);
        assert(tree.leaves_below(before.key@, (i + 1) as nat) == tree.leaves_of(after.key@)
            + tree.leaves_below(before.key@, i as nat));
        assert(remaining(tree, before.stack@, before.key@) =~= tree.leaves_of(after.key@)
            + remaining(tree, after.stack@, after.key@));
        assert forall|target: Option<usize>, from: Progress| #[trigger]
            unwind(tree, target, from, before.stack@, before.key@) == unwind(
            tree,
            target,
            tree.visit(target, from, after.key@),
            after.stack@,
            after.key@,
        ) by {
            let seen = tree.visit(target, from, after.key@);
            assert(tree.explore(target, from, before.key@, (i + 1) as nat) == tree.explore(
                target,
                seen,
                before.key@,
                i as nat,
            ));
            lemma_unwind_key(
                tree,
                target,
                tree.explore(target, seen, before.key@, i as nat),
                rest,
                before.key@,
                after.key@,
            );
        }
    }

    /// Goes on without a look at what lies below the node.
    pub(crate) fn leave(&mut self, Ghost(tree): Ghost<Tree>)
        requires
            old(self).at_node(tree),
        ensures
            final(self).wf(tree),
            final(self).stack@ == old(self).stack@,
            final(self).key@ == old(self).key@.drop_last(),
            root_key(final(self).stack@, final(self).key@) == root_key(
                old(self).stack@,
                old(self).key@,
            ),
            remaining(tree, final(self).stack@, final(self).key@) == remaining(
                tree,
                old(self).stack@,
                old(self).key@,
            ),
            forall|target: Option<usize>, from: Progress| #[trigger]
                unwind(tree, target, from, final(self).stack@, final(self).key@) == unwind(
                    tree,
                    target,
                    from,
                    old(self).stack@,
                    old(self).key@,
                ),
    {
        let ghost before = *self;
        self.key.pop();
        proof {
            assert(self.key@ =~= before.key@.drop_last());
            let stack = self.stack@;
            assert(stack[0].level == self.key@.len() - (stack.len() - 1));
            assert(root_key(stack, self.key@) =~= root_key(stack, before.key@));
            assert forall|i: int| stack[0].level <= i <= self.key@.len() implies (
            #[trigger] self.masks@[i])@ == tree.row(self.key@.take(i)) by {
                assert(self.key@.take(i) =~= before.key@.take(i));
            }
            assert forall|j: int| 0 <= j < stack.len() implies self.key@.take(
                (#[trigger] stack[j]).level as int,
            ) == before.key@.take(stack[j].level as int) by {
                assert(self.key@.take(stack[j].level as int) =~= before.key@.take(
                    stack[j].level as int,
                ));
            }
            lemma_remaining_key(tree, stack, self.key@, before.key@);
            assert forall|target: Option<usize>, from: Progress| #[trigger]
                unwind(tree, target, from, stack, self.key@) == unwind(
                tree,
                target,
                from,
                stack,
                before.key@,
            ) by {
                lemma_unwind_key(tree, target, from, stack, self.key@, before.key@);
            }
        }
    }

    /// Goes on with the children of the node below `fan`.
    pub(crate) fn enter(&mut self, fan: usize, Ghost(tree): Ghost<Tree>)
        requires
            old(self).at_node(tree),
            old(self).key@.len() < tree.depth,
            fan <= tree.rows[old(self).key@.len() as int].len(),
        ensures
            final(self).wf(tree),
            final(self).stack@ == old(self).stack@.push(
                Frame { level: old(self).key@.len() as usize, next_idx: fan },
            ),
            final(self).key@ == old(self).key@,
            root_key(final(self).stack@, final(self).key@) == root_key(
                old(self).stack@,
                old(self).key@,
            ),
            nodes_ahead(tree, final(self).stack@) == nodes_ahead(tree, old(self).stack@)
                + tree.nodes_below(old(self).key@.len(), fan as nat),
            remaining(tree, final(self).stack@, final(self).key@) == tree.leaves_below(
                old(self).key@,
                fan as nat,
            ) + remaining(tree, old(self).stack@, old(self).key@),
            forall|target: Option<usize>, from: Progress| #[trigger]
                unwind(tree, target, from, final(self).stack@, final(self).key@) == unwind(
                    tree,
                    target,
                    tree.explore(target, from, old(self).key@, fan as nat),
                    old(self).stack@,
                    old(self).key@,
                ),
    {
        let ghost before = *self;
        let level: usize = self.key.len();
        self.stack.push(Frame { level, next_idx: fan });
        proof {
            assert(self.stack@.drop_last() =~= before.stack@);
            assert(self.key@.take(level as int) =~= self.key@);
            assert forall|j: int| 0 <= j < self.stack@.len() implies {
                &&& (#[trigger] self.stack@[j]).level == self.key@.len() - (self.stack@.len() - 1
                    - j)
                &&& self.stack@[j].next_idx <= tree.rows[self.stack@[j].level as int].len()
            } by {
                if j < before.stack@.len() {
                    assert(self.stack@[j] == before.stack@[j]);
                }
            }
            assert(self.stack@[0] == before.stack@[0]);
        }
    }
}

} // verus!
