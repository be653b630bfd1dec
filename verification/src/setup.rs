//! A new search over a shift table.

use vstd::prelude::*;

use crate::bits::ones;
use crate::bitmask::words_for;
use crate::search::State;
use crate::shift_table::{covers, law_path_counts_open_columns, open_columns};

verus! {

impl State {
    /// All `cols` columns are open at the root, and the first `depth` levels have the shift table of
    /// their primes.
    pub open spec fn is_over(&self, depth: usize, cols: usize) -> bool {
        &&& depth <= self.primes@.len()
        &&& self.zero_mask.wf()
        &&& self.zero_mask@ == Seq::new(64 * words_for(cols as nat), |i: int| i < cols)
        &&& self.shift_table@.len() == depth
        &&& forall|l: int|
            0 <= l < depth ==> (#[trigger] self.shift_table@[l])@.len() == self.primes@[l]
        &&& forall|l: int, k: int|
            0 <= l < depth && 0 <= k < self.primes@[l] ==> {
                &&& (#[trigger] self.shift_table@[l]@[k]).wf()
                &&& self.shift_table@[l]@[k]@ == open_columns(self.primes@[l], k as usize, cols)
            }
    }
}

/// A state over a shift table can be searched, and every node of its tree counts the columns that
/// none of the shifted rows on the way to it covers.
pub proof fn law_table_makes_state_ready(state: State, depth: usize, cols: usize)
    requires
        depth < usize::MAX,
        state.is_over(depth, cols),
    ensures
        state.ready(depth),
        forall|path: Seq<usize>|
            path.len() <= depth && (forall|l: int|
                0 <= l < path.len() ==> #[trigger] path[l] < state.primes@[l])
                ==> #[trigger] state.tree(depth).count(path) == ones(
                Seq::new(
                    cols as nat,
                    |col: int|
                        forall|l: int|
                            0 <= l < path.len() ==> !covers(
                                state.primes@[l] as int,
                                #[trigger] path[l] as int,
                                col,
                            ),
                ),
            ),
{
    let tree = state.tree(depth);
    let table = state.shift_table@;
    assert forall|l: int| 0 <= l < tree.depth implies #[trigger] tree.fans[l] <= tree.rows[l].len() by {
        assert(table[l]@.len() == state.primes@[l]);
    }
    assert forall|l: int, s: int|
        0 <= l < tree.depth && 0 <= s < tree.rows[l].len() implies (#[trigger] tree.rows[l][s]).len()
        == tree.base.len() by {
        assert(table[l]@.len() == state.primes@[l]);
        assert(tree.rows[l][s] == table[l]@[s]@);
    }
    assert forall|l: int, s: int| 0 <= l < table.len() && 0 <= s < table[l]@.len() implies (
    #[trigger] table[l]@[s]).wf() by {
        assert(table[l]@.len() == state.primes@[l]);
    }
    assert forall|path: Seq<usize>|
        path.len() <= depth && (forall|l: int|
            0 <= l < path.len() ==> #[trigger] path[l] < state.primes@[l]) implies
    #[trigger] tree.count(path) == ones(
        Seq::new(
            cols as nat,
            |col: int|
                forall|l: int|
                    0 <= l < path.len() ==> !covers(
                        state.primes@[l] as int,
                        #[trigger] path[l] as int,
                        col,
                    ),
        ),
    ) by {
        assert forall|l: int, k: int| 0 <= l < tree.depth && 0 <= k < tree.fans[l] implies
            #[trigger] tree.rows[l][k] == open_columns(tree.fans[l], k as usize, cols) by {
            assert(table[l]@.len() == state.primes@[l]);
            assert(table[l]@[k]@ == open_columns(state.primes@[l], k as usize, cols));
        }
        law_path_counts_open_columns(tree, cols, path);
    }
}

} // verus!
