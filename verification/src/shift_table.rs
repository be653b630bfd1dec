//! The columns that each shift of each prime leaves open.

use vstd::arithmetic::div_mod::{
    lemma_fundamental_div_mod, lemma_fundamental_div_mod_converse, lemma_small_mod,
};
use vstd::prelude::*;

use crate::bitmask::{words_for, BitMask};
use crate::bits::{
    law_ones_is_how_often_true_occurs, lemma_ones_leading, lemma_ones_padded, ones,
};
use crate::tree::Tree;

verus! {

/// The row of `prime`, moved right by `shift`, covers the column `col`: every `prime`-th column is
/// covered, from the column `shift` on.
pub open spec fn covers(prime: int, shift: int, col: int) -> bool {
    col >= shift && (col + 1 - shift) % prime == 1
}

/// The columns that the row of `prime`, moved right by `shift`, leaves open.
pub open spec fn open_columns(prime: usize, shift: usize, cols: usize) -> Seq<bool> {
    Seq::new(
        64 * words_for(cols as nat),
        |col: int| col < cols && !covers(prime as int, shift as int, col),
    )
}

/// The rows of a table of masks.
pub open spec fn table_rows(table: Seq<Vec<BitMask>>) -> Seq<Seq<Seq<bool>>> {
    Seq::new(table.len(), |l: int| Seq::new(table[l]@.len(), |s: int| table[l]@[s]@))
}

/// For each prime and each shift below it, the mask of the columns that the shifted row leaves
/// open.
pub fn build_shift_table(primes: &[usize], cols: usize) -> (table: Vec<Vec<BitMask>>)
    requires
        cols <= usize::MAX - 63,
    ensures
        table@.len() == primes@.len(),
        forall|l: int| 0 <= l < primes@.len() ==> (#[trigger] table@[l])@.len() == primes@[l],
        forall|l: int, k: int|
            0 <= l < primes@.len() && 0 <= k < primes@[l] ==> {
                &&& (#[trigger] table@[l]@[k]).wf()
                &&& table@[l]@[k].size() == cols
                &&& table@[l]@[k]@ == open_columns(primes@[l], k as usize, cols)
                &&& cols <= table@[l]@[k]@.len() < cols + 64
                &&& table@[l]@[k]@.to_multiset().count(true) == cols - (if primes@[l] >= 2 && k
                    < cols {
                    (cols - k - 1) / (primes@[l] as int) + 1
                } else {
                    0
                })
            },
        forall|l: int, k: int, col: int|
            0 <= l < primes@.len() && 0 <= k < primes@[l] && 0 <= col < table@[l]@[k]@.len()
                ==> #[trigger] table@[l]@[k]@[col] == (col < cols && (primes@[l] >= 2 ==> col
                % (primes@[l] as int) != k)),
{
    let mut shift_table: Vec<Vec<BitMask>> = Vec::new();
    let mut level: usize = 0;
    while level < primes.len()
        invariant
            cols <= usize::MAX - 63,
            0 <= level <= primes@.len(),
            shift_table@.len() == level,
            forall|l: int| 0 <= l < level ==> (#[trigger] shift_table@[l])@.len() == primes@[l],
            forall|l: int, k: int|
                0 <= l < level && 0 <= k < primes@[l] ==> {
                    &&& (#[trigger] shift_table@[l]@[k]).wf()
                    &&& shift_table@[l]@[k].size() == cols
                    &&& shift_table@[l]@[k]@ == open_columns(primes@[l], k as usize, cols)
                },
        decreases primes@.len() - level,
    {
        let p: usize = primes[level];
        let mut complement_shifts: Vec<BitMask> = Vec::new();
        let mut k: usize = 0;
        while k < p
            invariant
                cols <= usize::MAX - 63,
                0 <= k <= p,
                complement_shifts@.len() == k,
                forall|s: int|
                    0 <= s < k ==> {
                        &&& (#[trigger] complement_shifts@[s]).wf()
                        &&& complement_shifts@[s].size() == cols
                        &&& complement_shifts@[s]@ == open_columns(p, s as usize, cols)
                    },
            decreases p - k,
        {
            let mut mask = BitMask::new_ones(cols);
            let mut col: usize = 0;
            while col < cols
                invariant
                    k < p,
                    0 <= col <= cols,
                    mask.wf(),
                    mask.size() == cols,
                    mask@.len() == 64 * words_for(cols as nat),
                    forall|c: int|
                        0 <= c < mask@.len() ==> #[trigger] mask@[c] == (c < cols && !(c < col
                            && covers(p as int, k as int, c))),
                decreases cols - col,
            {
                proof {
                    mask.lemma_padded_len();
                }
                let idx: usize = col + 1;
                if col >= k {
                    let orig_idx: usize = idx - k;
                    if orig_idx % p == 1 {
                        mask.set(col, false);
                    }
                }
                col = col + 1;
            }
            assert(mask@ =~= open_columns(p, k, cols));
            complement_shifts.push(mask);
            k = k + 1;
        }
        shift_table.push(complement_shifts);
        level = level + 1;
    }
    proof {
        assert forall|l: int, k: int| 0 <= l < primes@.len() && 0 <= k < primes@[l] implies {
            &&& cols <= (#[trigger] shift_table@[l]@[k])@.len() < cols + 64
            &&& shift_table@[l]@[k]@.to_multiset().count(true) == cols - (if primes@[l] >= 2 && k
                < cols {
                (cols - k - 1) / (primes@[l] as int) + 1
            } else {
                0
            })
        } by {
            law_masks_leave_one_residue_class_out(primes@[l], k as usize, cols);
        }
        assert forall|l: int, k: int, col: int|
            0 <= l < primes@.len() && 0 <= k < primes@[l] && 0 <= col
                < shift_table@[l]@[k]@.len() implies #[trigger] shift_table@[l]@[k]@[col] == (col
            < cols && (primes@[l] >= 2 ==> col % (primes@[l] as int) != k)) by {
            law_masks_leave_one_residue_class_out(primes@[l], k as usize, cols);
        }
    }
    shift_table
}

/// How many of the first `m` columns leave the remainder `k`.
proof fn lemma_residue_count(row: Seq<bool>, p: int, k: int, m: int)
    requires
        p >= 2,
        0 <= k < p,
        0 <= m <= row.len(),
        forall|col: int| 0 <= col < m ==> #[trigger] row[col] == (col % p != k),
    ensures
        ones(row.take(m)) == m - (if k < m {
            (m - k - 1) / p + 1
        } else {
            0
        }),
    decreases m,
{
    if m > 0 {
        let last = m - 1;
        lemma_residue_count(row, p, k, last);
        assert(row.take(m).drop_last() =~= row.take(last));
        assert(row.take(m).last() == row[last]);
        law_shifted_row_covers_a_residue_class(p, k, last);
        if last > k {
            let x = last - k;
            lemma_fundamental_div_mod(x, p);
            let q = x / p;
            let r = x % p;
            assert(p * q == q * p) by (nonlinear_arith);
            if r == 0 {
                assert((q - 1) * p == q * p - p) by (nonlinear_arith);
                lemma_fundamental_div_mod_converse(x - 1, p, q - 1, p - 1);
                lemma_fundamental_div_mod_converse(x + 1, p, q, 1);
            } else {
                lemma_fundamental_div_mod_converse(x - 1, p, q, r - 1);
                if r + 1 < p {
                    lemma_fundamental_div_mod_converse(x + 1, p, q, r + 1);
                } else {
                    assert((q + 1) * p == q * p + p) by (nonlinear_arith);
                    lemma_fundamental_div_mod_converse(x + 1, p, q + 1, 0);
                }
            }
        } else if last == k {
            lemma_small_mod(1, p as nat);
            lemma_fundamental_div_mod_converse(0, p, 0, 0);
        }
    }
}

/// The mask of a shift has exactly the columns set that lie below `cols` and, for a prime of two or
/// more, leave another remainder than the shift. So it counts all columns but every `prime`-th from
/// the shift on.
pub proof fn law_masks_leave_one_residue_class_out(prime: usize, shift: usize, cols: usize)
    requires
        shift < prime,
    ensures
        cols <= open_columns(prime, shift, cols).len() < cols + 64,
        forall|col: int|
            0 <= col < open_columns(prime, shift, cols).len() ==> #[trigger] open_columns(
                prime,
                shift,
                cols,
            )[col] == (col < cols && (prime >= 2 ==> col % (prime as int) != shift)),
        open_columns(prime, shift, cols).to_multiset().count(true) == cols - (if prime >= 2 && shift
            < cols {
            (cols - shift - 1) / (prime as int) + 1
        } else {
            0
        }),
{
    let row = open_columns(prime, shift, cols);
    assert forall|col: int| 0 <= col < row.len() implies #[trigger] row[col] == (col < cols && (prime
        >= 2 ==> col % (prime as int) != shift)) by {
        if prime >= 2 {
            law_shifted_row_covers_a_residue_class(prime as int, shift as int, col);
        }
    }
    lemma_ones_padded(row, cols as nat);
    law_ones_is_how_often_true_occurs(row);
    if prime >= 2 {
        lemma_residue_count(row, prime as int, shift as int, cols as int);
    } else {
        lemma_ones_leading(row, cols as nat);
    }
}

/// A shifted row covers the columns that leave the shift as the remainder when divided by
/// the prime.
pub proof fn law_shifted_row_covers_a_residue_class(prime: int, shift: int, col: int)
    requires
        prime >= 2,
        0 <= shift < prime,
        col >= 0,
    ensures
        covers(prime, shift, col) <==> col % prime == shift,
{
    if col < shift {
        lemma_small_mod(col as nat, prime as nat);
    } else {
        lemma_fundamental_div_mod(col, prime);
        lemma_fundamental_div_mod(col - shift, prime);
        let q = (col - shift) / prime;
        let r = (col - shift) % prime;
        let whole = col / prime;
        assert(prime * whole == whole * prime) by (nonlinear_arith);
        assert(prime * q == q * prime) by (nonlinear_arith);
        if r == 0 {
            lemma_fundamental_div_mod_converse(col, prime, q, shift);
        }
        if col % prime == shift {
            lemma_fundamental_div_mod_converse(col - shift, prime, whole, 0);
        }
        if r + 1 < prime {
            lemma_fundamental_div_mod_converse(col + 1 - shift, prime, q, r + 1);
        } else {
            assert((q + 1) * prime == prime * q + prime) by (nonlinear_arith);
            lemma_fundamental_div_mod_converse(col + 1 - shift, prime, q + 1, 0);
        }
    }
}

/// In the tree of a shift table, a path counts the columns that none of its shifted rows covers.
pub proof fn law_path_counts_open_columns(tree: Tree, cols: usize, path: Seq<usize>)
    requires
        tree.base == Seq::new(64 * words_for(cols as nat), |i: int| i < cols),
        forall|l: int, k: int|
            0 <= l < tree.depth && 0 <= k < tree.fans[l] ==> #[trigger] tree.rows[l][k]
                == open_columns(tree.fans[l], k as usize, cols),
        path.len() <= tree.depth,
        forall|l: int| 0 <= l < path.len() ==> #[trigger] path[l] < tree.fans[l],
    ensures
        tree.count(path) == ones(
            Seq::new(
                cols as nat,
                |col: int|
                    forall|l: int|
                        0 <= l < path.len() ==> !covers(
                            tree.fans[l] as int,
                            #[trigger] path[l] as int,
                            col,
                        ),
            ),
        ),
{
    let row = tree.row(path);
    let direct = Seq::new(
        cols as nat,
        |col: int|
            forall|l: int|
                0 <= l < path.len() ==> !covers(
                    tree.fans[l] as int,
                    #[trigger] path[l] as int,
                    col,
                ),
    );
    assert forall|col: int| 0 <= col < cols implies #[trigger] row[col] == direct[col] by {
        if row[col] {
            assert forall|l: int| 0 <= l < path.len() implies !covers(
                tree.fans[l] as int,
                #[trigger] path[l] as int,
                col,
            ) by {
                assert(tree.rows[l][path[l] as int][col]);
            }
        }
        if direct[col] {
            assert forall|l: int| 0 <= l < path.len() implies (#[trigger] tree.rows[l][path[l] as int])[col] by {
                assert(!covers(tree.fans[l] as int, path[l] as int, col));
            }
        }
    }
    lemma_ones_padded(row, cols as nat);
    assert(row.take(cols as int) =~= direct);
}

} // verus!
