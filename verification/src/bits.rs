//! Bits of 64-bit words and counting of set bits.

use vstd::prelude::*;

verus! {

/// Bit `i` of the word `w`, counted from the least significant one.
pub open spec fn word_bit(w: u64, i: int) -> bool {
    (w >> (i as u64)) & 1 == 1
}

/// The 64 bits of a word, least significant first.
pub open spec fn word_bits(w: u64) -> Seq<bool> {
    Seq::new(64, |i: int| word_bit(w, i))
}

/// How many entries of `bits` are set.
pub open spec fn ones(bits: Seq<bool>) -> nat
    decreases bits.len(),
{
    if bits.len() == 0 {
        0
    } else {
        ones(bits.drop_last()) + if bits.last() {
            1nat
        } else {
            0nat
        }
    }
}

/// Entry-wise conjunction of two rows, as long as the shorter one.
pub open spec fn both(a: Seq<bool>, b: Seq<bool>) -> Seq<bool> {
    Seq::new(
        if a.len() <= b.len() {
            a.len()
        } else {
            b.len()
        },
        |i: int| a[i] && b[i],
    )
}

/// `u64::count_ones` returns the number of ones in the binary representation of the word.
pub assume_specification[ u64::count_ones ](w: u64) -> (n: u32)
    ensures
        n == ones(word_bits(w)),
;

/// The number of set entries of a concatenation is the sum over its parts.
pub proof fn lemma_ones_concat(a: Seq<bool>, b: Seq<bool>)
    ensures
        ones(a + b) == ones(a) + ones(b),
    decreases b.len(),
{
    if b.len() == 0 {
        assert(a + b =~= a);
    } else {
        lemma_ones_concat(a, b.drop_last());
        assert((a + b).drop_last() =~= a + b.drop_last());
        assert((a + b).last() == b.last());
    }
}

/// No row has more set entries than entries.
pub proof fn lemma_ones_bound(a: Seq<bool>)
    ensures
        ones(a) <= a.len(),
    decreases a.len(),
{
    if a.len() > 0 {
        lemma_ones_bound(a.drop_last());
    }
}

/// Clearing entries of a row never raises the number of set ones.
pub proof fn lemma_ones_monotone(a: Seq<bool>, b: Seq<bool>)
    requires
        a.len() == b.len(),
        forall|i: int| 0 <= i < a.len() && #[trigger] a[i] ==> b[i],
    ensures
        ones(a) <= ones(b),
    decreases a.len(),
{
    if a.len() > 0 {
        assert(a.last() ==> b.last());
        assert forall|i: int|
            0 <= i < a.drop_last().len() && #[trigger] a.drop_last()[i] implies b.drop_last()[i] by {
            assert(a[i]);
        }
        lemma_ones_monotone(a.drop_last(), b.drop_last());
    }
}

/// A longer prefix has at least as many set entries.
pub proof fn lemma_ones_prefix(a: Seq<bool>, i: int, j: int)
    requires
        0 <= i <= j <= a.len(),
    ensures
        ones(a.take(i)) <= ones(a.take(j)),
        ones(a.take(j)) == ones(a.take(i)) + ones(a.subrange(i, j)),
{
    assert(a.take(j) =~= a.take(i) + a.subrange(i, j));
    lemma_ones_concat(a.take(i), a.subrange(i, j));
}

/// A row with `n` leading set entries and nothing else set has `n` set entries.
pub proof fn lemma_ones_leading(a: Seq<bool>, n: nat)
    requires
        n <= a.len(),
        forall|i: int| 0 <= i < a.len() ==> (#[trigger] a[i] <==> i < n),
    ensures
        ones(a) == n,
    decreases a.len(),
{
    if a.len() > 0 {
        assert(a.last() == (a.len() - 1 < n));
        assert forall|i: int| 0 <= i < a.drop_last().len() implies (#[trigger] a.drop_last()[i]
            <==> i < if n == a.len() {
            n - 1
        } else {
            n as int
        }) by {
            assert(a.drop_last()[i] == a[i]);
        }
        lemma_ones_leading(
            a.drop_last(),
            if n == a.len() {
                (n - 1) as nat
            } else {
                n
            },
        );
    }
}

pub proof fn lemma_word_and(a: u64, b: u64)
    ensures
        word_bits(a & b) == both(word_bits(a), word_bits(b)),
{
    assert forall|i: int| 0 <= i < 64 implies word_bit(a & b, i) == (word_bit(a, i) && word_bit(
        b,
        i,
    )) by {
        let k = i as u64;
        assert(((a & b) >> k) & 1 == 1 <==> ((a >> k) & 1 == 1 && (b >> k) & 1 == 1)) by (bit_vector);
    }
    assert(word_bits(a & b) =~= both(word_bits(a), word_bits(b)));
}

pub proof fn lemma_word_full(i: int)
    requires
        0 <= i < 64,
    ensures
        word_bit(u64::MAX, i),
{
    let k = i as u64;
    assert(k < 64 ==> (0xffff_ffff_ffff_ffffu64 >> k) & 1 == 1) by (bit_vector);
}

pub proof fn lemma_word_low(r: u64, i: int)
    requires
        0 < r < 64,
        0 <= i < 64,
    ensures
        1u64 << r >= 1,
        word_bit(((1u64 << r) - 1) as u64, i) <==> i < r,
{
    let k = i as u64;
    assert(r < 64 ==> 1u64 << r >= 1) by (bit_vector);
    let m = ((1u64 << r) - 1) as u64;
    assert((m >> k) & 1 == 1 <==> k < r) by (bit_vector)
        requires
            r < 64,
            k < 64,
            m == (1u64 << r) - 1,
    ;
}

pub proof fn lemma_word_set(w: u64, b: u64, i: int)
    requires
        b < 64,
        0 <= i < 64,
    ensures
        word_bit(w | (1u64 << b), i) == (i == b || word_bit(w, i)),
        word_bit(w & !(1u64 << b), i) == (i != b && word_bit(w, i)),
{
    let k = i as u64;
    assert(((w | (1u64 << b)) >> k) & 1 == 1 <==> (k == b || (w >> k) & 1 == 1)) by (bit_vector)
        requires
            b < 64,
            k < 64,
    ;
    assert(((w & !(1u64 << b)) >> k) & 1 == 1 <==> (k != b && (w >> k) & 1 == 1)) by (bit_vector)
        requires
            b < 64,
            k < 64,
    ;
}

/// Padding a row with unset entries does not change how many are set.
pub proof fn lemma_ones_padded(padded: Seq<bool>, n: nat)
    requires
        n <= padded.len(),
        forall|i: int| n <= i < padded.len() ==> !#[trigger] padded[i],
    ensures
        ones(padded) == ones(padded.take(n as int)),
    decreases padded.len() - n,
{
    if padded.len() > n {
        let shorter = padded.drop_last();
        assert(!padded[padded.len() - 1]);
        lemma_ones_padded(shorter, n);
        assert(shorter.take(n as int) =~= padded.take(n as int));
    } else {
        assert(padded.take(n as int) =~= padded);
    }
}

/// The number of set entries is how often `true` occurs in the row.
pub proof fn law_ones_is_how_often_true_occurs(bits: Seq<bool>)
    ensures
        ones(bits) == bits.to_multiset().count(true),
    decreases bits.len(),
{
    broadcast use vstd::multiset::group_multiset_axioms;

    bits.to_multiset_ensures();
    if bits.len() > 0 {
        let rest = bits.drop_last();
        law_ones_is_how_often_true_occurs(rest);
        rest.to_multiset_ensures();
        assert(rest.push(bits.last()) =~= bits);
    }
}

} // verus!
