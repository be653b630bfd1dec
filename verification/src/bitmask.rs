//! Fixed-length rows of bits, packed into 64-bit words.

use vstd::prelude::*;

use crate::bits::{
    both, law_ones_is_how_often_true_occurs, lemma_ones_bound, lemma_ones_concat, lemma_ones_leading, lemma_ones_monotone,
    lemma_ones_padded, lemma_ones_prefix, lemma_word_and, lemma_word_full, lemma_word_low, lemma_word_set, ones,
    word_bit, word_bits,
};

verus! {

/// How many words hold `size` bits.
pub open spec fn words_for(size: nat) -> nat {
    (size + 63) / 64
}

/// The first `n` entries of a row, or all of them where there are fewer.
pub open spec fn clip(row: Seq<bool>, n: nat) -> Seq<bool> {
    if row.len() <= n {
        row
    } else {
        row.take(n as int)
    }
}

/// `out` with its leading entries replaced by those of `row`, as far as both reach.
pub open spec fn overlay(out: Seq<bool>, row: Seq<bool>) -> Seq<bool> {
    Seq::new(
        out.len(),
        |i: int|
            if i < row.len() {
                row[i]
            } else {
                out[i]
            },
    )
}

/// What the conjunction of `lhs` and `rhs` can still count to once `words` words of it are known:
/// the set bits found so far, and what is left of `lhs_count` after the set bits of those words of
/// `lhs`.
pub open spec fn reach(
    lhs: Seq<bool>,
    rhs: Seq<bool>,
    lhs_count: nat,
    words: nat,
) -> nat {
    let seen = ones(lhs.take((64 * words) as int));
    let found = ones(both(lhs, rhs).take((64 * words) as int));
    if lhs_count <= seen {
        found
    } else {
        (found + lhs_count - seen) as nat
    }
}

/// After `words` words, and not before, the conjunction can no longer count to `min_count`.
pub open spec fn falls_short(
    lhs: Seq<bool>,
    rhs: Seq<bool>,
    lhs_count: nat,
    min_count: nat,
    words: nat,
) -> bool {
    &&& 1 <= words
    &&& 64 * words <= lhs.len()
    &&& reach(lhs, rhs, lhs_count, words) < min_count
    &&& forall|k: nat|
        1 <= k < words ==> #[trigger] reach(lhs, rhs, lhs_count, k) >= min_count
}

/// A row of `size` bits. The last word is padded up to a multiple of 64 bits; the view shows the
/// padding too.
#[derive(Debug)]
pub struct BitMask {
    data: Vec<u64>,
    size: usize,
}

impl View for BitMask {
    type V = Seq<bool>;

    closed spec fn view(&self) -> Seq<bool> {
        Seq::new(
            (64 * self.data@.len()) as nat,
            |i: int| word_bit(self.data@[i / 64], i % 64),
        )
    }
}

impl Clone for BitMask {
    fn clone(&self) -> (copy: Self)
        ensures
            copy@ == self@,
            copy.size() == self.size(),
            copy.wf() == self.wf(),
    {
        let data = self.data.clone();
        assert(data@ =~= self.data@);
        BitMask { data, size: self.size }
    }
}

impl BitMask {
    /// The number of bits, without padding.
    pub closed spec fn spec_size(&self) -> usize {
        self.size
    }

    /// There are as many words as the bits need, and their bits can be counted in a `usize`.
    pub closed spec fn wf(&self) -> bool {
        &&& self.data@.len() == words_for(self.size as nat)
        &&& self.size <= usize::MAX - 63
    }

    /// The view of a well-formed mask is the mask's size rounded up to whole words.
    pub proof fn lemma_padded_len(&self)
        requires
            self.wf(),
        ensures
            self@.len() == 64 * words_for(self.size() as nat),
            self.size() <= self@.len() <= usize::MAX,
    {
    }

    proof fn lemma_take_word(&self, k: int)
        requires
            0 <= k < self.data@.len(),
        ensures
            self@.take(64 * (k + 1)) == self@.take(64 * k) + word_bits(self.data@[k]),
            ones(self@.take(64 * (k + 1))) == ones(self@.take(64 * k)) + ones(
                word_bits(self.data@[k]),
            ),
    {
        assert(self@.take(64 * (k + 1)) =~= self@.take(64 * k) + word_bits(self.data@[k]));
        lemma_ones_concat(self@.take(64 * k), word_bits(self.data@[k]));
    }

    proof fn lemma_both_take_word(lhs: &Self, rhs: &Self, k: int)
        requires
            0 <= k < lhs.data@.len(),
            k < rhs.data@.len(),
        ensures
            both(lhs@, rhs@).take(64 * (k + 1)) == both(lhs@, rhs@).take(64 * k) + word_bits(
                lhs.data@[k] & rhs.data@[k],
            ),
            ones(both(lhs@, rhs@).take(64 * (k + 1))) == ones(both(lhs@, rhs@).take(64 * k))
                + ones(word_bits(lhs.data@[k] & rhs.data@[k])),
    {
        lemma_word_and(lhs.data@[k], rhs.data@[k]);
        let w = word_bits(lhs.data@[k] & rhs.data@[k]);
        assert(w =~= both(word_bits(lhs.data@[k]), word_bits(rhs.data@[k])));
        assert(both(lhs@, rhs@).take(64 * (k + 1)) =~= both(lhs@, rhs@).take(64 * k) + w);
        lemma_ones_concat(both(lhs@, rhs@).take(64 * k), w);
    }

    /// A mask of `size` bits, all of them set, with nothing set in the padding.
    pub fn new_ones(size: usize) -> (mask: Self)
        requires
            size <= usize::MAX - 63,
        ensures
            mask.wf(),
            mask.size() == size,
            mask@ == Seq::new(64 * words_for(size as nat), |i: int| i < size),
            ones(mask@) == size,
            size <= mask@.len() < size + 64,
            forall|i: int| 0 <= i < mask@.len() ==> #[trigger] mask@[i] == (i < size),
            mask@.to_multiset().count(true) == size,
    {
        let remainder: usize = size % 64;
        let num_words: usize = size / 64 + if remainder == 0 {
            0
        } else {
            1
        };
        let mut data = vec![u64::MAX; num_words];
        if remainder != 0 {
            proof {
                lemma_word_low(remainder as u64, 0);
            }
            data[num_words - 1] = (1u64 << remainder) - 1;
        }
        let mask = BitMask { data, size };
        proof {
            assert forall|i: int| 0 <= i < mask@.len() implies mask@[i] == (i < size) by {
                if remainder != 0 && i / 64 == num_words - 1 {
                    lemma_word_low(remainder as u64, i % 64);
                } else {
                    lemma_word_full(i % 64);
                }
            }
            assert(mask@ =~= Seq::new(64 * words_for(size as nat), |i: int| i < size));
            lemma_ones_leading(mask@, size as nat);
            law_ones_is_how_often_true_occurs(mask@);
        }
        mask
    }

    /// Stores the conjunction of `lhs` and `rhs` over the words that all three masks have and
    /// returns the number of bits set there. Other words keep their value.
    pub fn bitand_into_count(&mut self, lhs: &Self, rhs: &Self) -> (count: usize)
        requires
            old(self).wf(),
            lhs.wf(),
            rhs.wf(),
        ensures
            final(self).wf(),
            final(self).size() == old(self).size(),
            final(self)@ == overlay(old(self)@, both(lhs@, rhs@)),
            count == ones(clip(both(lhs@, rhs@), old(self)@.len())),
            final(self)@.len() == old(self)@.len(),
            forall|i: int|
                0 <= i < old(self)@.len() ==> #[trigger] final(self)@[i] == if i < lhs@.len() && i
                    < rhs@.len() {
                    lhs@[i] && rhs@[i]
                } else {
                    old(self)@[i]
                },
            old(self)@.len() <= lhs@.len() && old(self)@.len() <= rhs@.len() ==> count
                == final(self)@.to_multiset().count(true),
            forall|n: int|
                n <= old(self)@.len() && n <= lhs@.len() && n <= rhs@.len() && (n
                    == old(self)@.len() || n == lhs@.len() || n == rhs@.len()) ==> count
                    == #[trigger] final(self)@.take(n).to_multiset().count(true),
    {
        let ghost before = *self;
        let ghost meet = both(lhs@, rhs@);
        let own: usize = self.data.len();
        let left_len: usize = lhs.data.len();
        let right_len: usize = rhs.data.len();
        let shorter: usize = if left_len <= right_len {
            left_len
        } else {
            right_len
        };
        let n: usize = if own <= shorter {
            own
        } else {
            shorter
        };
        let mut count: usize = 0;
        let mut i: usize = 0;
        assert(meet.take(0) =~= Seq::<bool>::empty());
        while i < n
            invariant
                before.wf(),
                lhs.wf(),
                rhs.wf(),
                meet == both(lhs@, rhs@),
                0 <= i <= n,
                n <= before.data@.len(),
                n <= lhs.data@.len(),
                n <= rhs.data@.len(),
                self.size == before.size,
                self.data@.len() == before.data@.len(),
                forall|k: int|
                    0 <= k < i ==> #[trigger] self.data@[k] == lhs.data@[k] & rhs.data@[k],
                forall|k: int|
                    i <= k < self.data@.len() ==> #[trigger] self.data@[k] == before.data@[k],
                count == ones(meet.take(64 * i)),
            decreases n - i,
        {
            let value: u64 = lhs.data[i] & rhs.data[i];
            self.data[i] = value;
            proof {
                Self::lemma_both_take_word(lhs, rhs, i as int);
                lemma_ones_bound(meet.take(64 * (i + 1)));
            }
            count = count + value.count_ones() as usize;
            i = i + 1;
        }
        proof {
            assert(meet.take(64 * n) =~= clip(meet, before@.len()));
            Self::lemma_stored(&before, self, lhs, rhs, n as int);
            assert(self@ =~= overlay(before@, meet));
            if before@.len() <= lhs@.len() && before@.len() <= rhs@.len() {
                assert(self@ =~= clip(meet, before@.len()));
                law_ones_is_how_often_true_occurs(self@);
            }
            assert forall|m: int|
                m <= before@.len() && m <= lhs@.len() && m <= rhs@.len() && (m == before@.len()
                    || m == lhs@.len() || m == rhs@.len()) implies count
                == #[trigger] self@.take(m).to_multiset().count(true) by {
                assert(self@.take(m) =~= clip(meet, before@.len()));
                law_ones_is_how_often_true_occurs(self@.take(m));
            }
        }
        count
    }

    /// Stores the conjunction of `lhs` and `rhs` and returns the number of bits set in it, unless
    /// the words seen so far and the rest of `lhs_count` together cannot reach `min_count`: then
    /// the result is `None`, and only the words up to that point are stored. Masks without any bit
    /// reach nothing.
    pub fn bitand_into_count_bounded(
        &mut self,
        lhs: &Self,
        rhs: &Self,
        lhs_count: usize,
        min_count: usize,
    ) -> (count: Option<usize>)
        requires
            old(self).wf(),
            lhs.wf(),
            rhs.wf(),
            old(self)@.len() == lhs@.len(),
            old(self)@.len() == rhs@.len(),
        ensures
            final(self).wf(),
            final(self).size() == old(self).size(),
            match count {
                Some(n) => {
                    &&& min_count > 0 ==> lhs@.len() > 0
                    &&& min_count == 0 || forall|k: nat|
                        1 <= k && 64 * k <= lhs@.len() ==> #[trigger] reach(
                            lhs@,
                            rhs@,
                            lhs_count as nat,
                            k,
                        ) >= min_count
                    &&& n == ones(both(lhs@, rhs@))
                    &&& final(self)@ == both(lhs@, rhs@)
                },
                None => {
                    &&& min_count > 0
                    &&& {
                        ||| lhs@.len() == 0 && final(self)@ == old(self)@
                        ||| exists|k: nat|
                            {
                                &&& #[trigger] falls_short(
                                    lhs@,
                                    rhs@,
                                    lhs_count as nat,
                                    min_count as nat,
                                    k,
                                )
                                &&& final(self)@ == overlay(
                                    old(self)@,
                                    both(lhs@, rhs@).take((64 * k) as int),
                                )
                            }
                    }
                },
            },
            count matches Some(n) ==> {
                &&& forall|i: int|
                    0 <= i < lhs@.len() ==> #[trigger] final(self)@[i] == (lhs@[i] && rhs@[i])
                &&& n == final(self)@.to_multiset().count(true)
            },
            lhs_count == lhs@.to_multiset().count(true) ==> (count is None <==> Seq::new(
                lhs@.len(),
                |i: int| lhs@[i] && rhs@[i],
            ).to_multiset().count(true) < min_count),
    {
        proof {
            Self::lemma_bounded(lhs@, rhs@, lhs_count, min_count);
        }
        let ghost before = *self;
        let ghost meet = both(lhs@, rhs@);
        if min_count == 0 {
            let total: usize = self.bitand_into_count(lhs, rhs);
            assert(clip(meet, before@.len()) =~= meet);
            assert(self@ =~= meet);
            proof {
                law_ones_is_how_often_true_occurs(self@);
            }
            return Some(total);
        }
        let n: usize = self.data.len();
        if n == 0 {
            return None;
        }
        let mut count: usize = 0;
        let mut remaining_lhs: usize = lhs_count;
        let mut i: usize = 0;
        assert(meet.take(0) =~= Seq::<bool>::empty());
        assert(lhs@.take(0) =~= Seq::<bool>::empty());
        while i < n
            invariant
                before == *old(self),
                before.wf(),
                lhs.wf(),
                rhs.wf(),
                meet == both(lhs@, rhs@),
                min_count > 0,
                0 < n,
                0 <= i <= n,
                n == before.data@.len(),
                n == lhs.data@.len(),
                n == rhs.data@.len(),
                self.size == before.size,
                self.data@.len() == n,
                forall|k: int|
                    0 <= k < i ==> #[trigger] self.data@[k] == lhs.data@[k] & rhs.data@[k],
                forall|k: int| i <= k < n ==> #[trigger] self.data@[k] == before.data@[k],
                count == ones(meet.take(64 * i)),
                remaining_lhs == if lhs_count <= ones(lhs@.take(64 * i)) {
                    0
                } else {
                    lhs_count - ones(lhs@.take(64 * i))
                },
                forall|k: nat|
                    1 <= k <= i ==> #[trigger] reach(lhs@, rhs@, lhs_count as nat, k) >= min_count,
            decreases n - i,
        {
            let left: u64 = lhs.data[i];
            remaining_lhs = remaining_lhs.saturating_sub(left.count_ones() as usize);
            let value: u64 = left & rhs.data[i];
            self.data[i] = value;
            proof {
                Self::lemma_both_take_word(lhs, rhs, i as int);
                lhs.lemma_take_word(i as int);
                lemma_ones_bound(meet.take(64 * (i + 1)));
                lemma_ones_bound(lhs@.take(64 * (i + 1)));
                lemma_ones_monotone(meet.take(64 * (i + 1)), lhs@.take(64 * (i + 1)));
            }
            count = count + value.count_ones() as usize;
            i = i + 1;
            assert(count + remaining_lhs == reach(lhs@, rhs@, lhs_count as nat, i as nat));
            if count + remaining_lhs < min_count {
                proof {
                    Self::lemma_stored(&before, self, lhs, rhs, i as int);
                    assert(falls_short(
                        lhs@,
                        rhs@,
                        lhs_count as nat,
                        min_count as nat,
                        i as nat,
                    ));
                    Self::lemma_bounded(lhs@, rhs@, lhs_count, min_count);
                }
                return None;
            }
        }
        proof {
            Self::lemma_stored(&before, self, lhs, rhs, n as int);
            assert(meet.take(64 * n) =~= meet);
            assert(self@ =~= meet);
            law_ones_is_how_often_true_occurs(self@);
            assert forall|k: nat| 1 <= k && 64 * k <= lhs@.len() implies #[trigger] reach(
                lhs@,
                rhs@,
                lhs_count as nat,
                k,
            ) >= min_count by {
                assert(k <= n);
            }
        }
        Some(count)
    }

    proof fn lemma_bounded(lhs: Seq<bool>, rhs: Seq<bool>, lhs_count: usize, min_count: usize)
        requires
            lhs.len() == rhs.len(),
            lhs.len() % 64 == 0,
        ensures
            lhs_count == lhs.to_multiset().count(true) && min_count > 0 ==> (Seq::new(
                lhs.len(),
                |i: int| lhs[i] && rhs[i],
            ).to_multiset().count(true) < min_count <==> lhs.len() == 0 || exists|k: nat|
                #[trigger] falls_short(lhs, rhs, lhs_count as nat, min_count as nat, k)),
    {
        let direct = Seq::new(lhs.len(), |i: int| lhs[i] && rhs[i]);
        assert(direct =~= both(lhs, rhs));
        law_ones_is_how_often_true_occurs(lhs);
        law_ones_is_how_often_true_occurs(direct);
        if min_count > 0 {
            law_bounded_count_is_exact(lhs, rhs, min_count as nat);
        }
    }

    proof fn lemma_stored(before: &Self, after: &Self, lhs: &Self, rhs: &Self, n: int)
        requires
            before.data@.len() == after.data@.len(),
            0 <= n <= before.data@.len(),
            n <= lhs.data@.len(),
            n <= rhs.data@.len(),
            forall|k: int| 0 <= k < n ==> #[trigger] after.data@[k] == lhs.data@[k] & rhs.data@[k],
            forall|k: int|
                n <= k < after.data@.len() ==> #[trigger] after.data@[k] == before.data@[k],
        ensures
            after@ == overlay(before@, both(lhs@, rhs@).take(64 * n)),
    {
        let meet = both(lhs@, rhs@).take(64 * n);
        assert forall|j: int| 0 <= j < after@.len() implies after@[j] == overlay(
            before@,
            meet,
        )[j] by {
            if j / 64 < n {
                lemma_word_and(lhs.data@[j / 64], rhs.data@[j / 64]);
                assert(word_bits(lhs.data@[j / 64] & rhs.data@[j / 64])[j % 64] == both(
                    word_bits(lhs.data@[j / 64]),
                    word_bits(rhs.data@[j / 64]),
                )[j % 64]);
            }
        }
        assert(after@ =~= overlay(before@, meet));
    }

    /// The number of set bits.
    pub fn count_ones(&self) -> (count: usize)
        requires
            self.wf(),
        ensures
            count == ones(self@),
            count == self@.to_multiset().count(true),
    {
        let n: usize = self.data.len();
        let mut count: usize = 0;
        let mut i: usize = 0;
        assert(self@.take(0) =~= Seq::<bool>::empty());
        while i < n
            invariant
                self.wf(),
                0 <= i <= n,
                n == self.data@.len(),
                count == ones(self@.take(64 * i)),
            decreases n - i,
        {
            proof {
                self.lemma_take_word(i as int);
                lemma_ones_bound(self@.take(64 * (i + 1)));
            }
            count = count + self.data[i].count_ones() as usize;
            i = i + 1;
        }
        assert(self@.take(64 * n) =~= self@);
        proof {
            law_ones_is_how_often_true_occurs(self@);
        }
        count
    }

    /// The number of bits, without padding.
    #[verifier::when_used_as_spec(spec_size)]
    pub fn size(&self) -> (size: usize)
        ensures
            size == self.spec_size(),
    {
        self.size
    }

    /// Sets or clears the bit at `idx`. An index at or past the size changes nothing.
    pub fn set(&mut self, idx: usize, val: bool)
        requires
            old(self).wf(),
        ensures
            final(self).wf(),
            final(self).size() == old(self).size(),
            final(self)@ == if idx < old(self).size() {
                old(self)@.update(idx as int, val)
            } else {
                old(self)@
            },
    {
        if idx >= self.size {
            return ;
        }
        let ghost before = *self;
        let word: usize = idx / 64;
        let bit: usize = idx % 64;
        let old_word: u64 = self.data[word];
        if val {
            self.data[word] = old_word | (1u64 << bit);
        } else {
            self.data[word] = old_word & !(1u64 << bit);
        }
        proof {
            assert forall|i: int| 0 <= i < self@.len() implies self@[i] == before@.update(
                idx as int,
                val,
            )[i] by {
                if i / 64 == word {
                    lemma_word_set(old_word, bit as u64, i % 64);
                    assert(1u64 << bit == 1u64 << (bit as u64));
                }
            }
            assert(self@ =~= before@.update(idx as int, val));
        }
    }
}

/// With the right count for `lhs`, the bounded conjunction gives up exactly where the full
/// conjunction counts to less than `min_count`.
pub proof fn law_bounded_count_is_exact(lhs: Seq<bool>, rhs: Seq<bool>, min_count: nat)
    requires
        lhs.len() == rhs.len(),
        lhs.len() % 64 == 0,
        min_count > 0,
    ensures
        ones(both(lhs, rhs)) < min_count <==> lhs.len() == 0 || exists|k: nat|
            #[trigger] falls_short(lhs, rhs, ones(lhs), min_count, k),
{
    let meet = both(lhs, rhs);
    let n = lhs.len() / 64;
    assert forall|k: nat| 1 <= k <= n implies #[trigger] reach(lhs, rhs, ones(lhs), k) >= ones(
        meet,
    ) by {
        let cut = (64 * k) as int;
        lemma_ones_prefix(lhs, cut, lhs.len() as int);
        lemma_ones_prefix(meet, cut, lhs.len() as int);
        assert(lhs.take(lhs.len() as int) =~= lhs);
        assert(meet.take(lhs.len() as int) =~= meet);
        lemma_ones_monotone(
            meet.subrange(cut, lhs.len() as int),
            lhs.subrange(cut, lhs.len() as int),
        );
    }
    assert(reach(lhs, rhs, ones(lhs), n) == ones(meet)) by {
        assert(lhs.take((64 * n) as int) =~= lhs);
        assert(meet.take((64 * n) as int) =~= meet);
    }
    if ones(meet) < min_count && lhs.len() > 0 {
        lemma_first_shortfall(lhs, rhs, ones(lhs), min_count, n);
    }
}

/// What a conjunction can still reach is what has been found in the words so far, and what is left of
/// the count of `lhs` after its set bits in those words. It falls short at the first word after which
/// that is too little.
pub proof fn law_reach_is_found_plus_left(
    lhs: Seq<bool>,
    rhs: Seq<bool>,
    lhs_count: nat,
    min_count: nat,
    words: nat,
)
    requires
        lhs.len() == rhs.len(),
        64 * words <= lhs.len(),
    ensures
        reach(lhs, rhs, lhs_count, words) == Seq::new(
            64 * words,
            |i: int| lhs[i] && rhs[i],
        ).to_multiset().count(true) + (if lhs_count > lhs.take(
            (64 * words) as int,
        ).to_multiset().count(true) {
            lhs_count - lhs.take((64 * words) as int).to_multiset().count(true)
        } else {
            0
        }),
        falls_short(lhs, rhs, lhs_count, min_count, words) <==> {
            &&& words > 0
            &&& reach(lhs, rhs, lhs_count, words) < min_count
            &&& forall|k: nat|
                0 < k < words ==> #[trigger] reach(lhs, rhs, lhs_count, k) >= min_count
        },
{
    let cut = (64 * words) as int;
    let direct = Seq::new(64 * words, |i: int| lhs[i] && rhs[i]);
    assert(both(lhs, rhs).take(cut) =~= direct);
    law_ones_is_how_often_true_occurs(direct);
    law_ones_is_how_often_true_occurs(lhs.take(cut));
}

/// Nothing is set in the padding of a row of `size` bits.
pub open spec fn padding_clear(row: Seq<bool>, size: usize) -> bool {
    &&& row.len() == 64 * words_for(size as nat)
    &&& forall|i: int| size <= i < row.len() ==> !#[trigger] row[i]
}

/// No bit beyond the size is ever counted: the padding of a new mask is clear, setting a bit and
/// storing the conjunction of masks of one size keep it clear, and a mask with clear padding counts
/// the set bits of its size alone.
pub proof fn law_padding_is_never_counted(
    size: usize,
    out: Seq<bool>,
    lhs: Seq<bool>,
    rhs: Seq<bool>,
    idx: usize,
    val: bool,
)
    requires
        padding_clear(out, size),
        padding_clear(lhs, size),
        padding_clear(rhs, size),
    ensures
        padding_clear(Seq::new(64 * words_for(size as nat), |i: int| i < size), size),
        idx < size ==> padding_clear(out.update(idx as int, val), size),
        padding_clear(overlay(out, both(lhs, rhs)), size),
        ones(out) == ones(out.take(size as int)),
        ones(out) <= size,
{
    lemma_ones_padded(out, size as nat);
    lemma_ones_bound(out.take(size as int));
}

/// Where the conjunction cannot reach `min_count` after `words` words, there is a first such
/// point.
proof fn lemma_first_shortfall(
    lhs: Seq<bool>,
    rhs: Seq<bool>,
    lhs_count: nat,
    min_count: nat,
    words: nat,
)
    requires
        1 <= words,
        64 * words <= lhs.len(),
        reach(lhs, rhs, lhs_count, words) < min_count,
    ensures
        exists|k: nat| #[trigger] falls_short(lhs, rhs, lhs_count, min_count, k),
    decreases words,
{
    if forall|k: nat|
        1 <= k < words ==> #[trigger] reach(lhs, rhs, lhs_count, k) >= min_count {
        assert(falls_short(lhs, rhs, lhs_count, min_count, words));
    } else {
        let k = choose|k: nat|
            1 <= k < words && #[trigger] reach(lhs, rhs, lhs_count, k) < min_count;
        lemma_first_shortfall(lhs, rhs, lhs_count, min_count, k);
    }
}

} // verus!
