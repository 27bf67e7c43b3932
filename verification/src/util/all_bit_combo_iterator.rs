//! The enumerator of the k-bit parts of a word.
//!
//! It starts from the k lowest set bits and steps, without allocating, to the
//! next selection each time: the lowest selected bit that has a free bit of
//! the word right above it moves up, and the selected bits below it fall back
//! to the lowest bits of the word. Where no bit can move, the selection was
//! the last. The selection of no bit at all is one selection like any other.

use crate::util::bit_iterator::IntoFromRightBitIterator;
use crate::util::bits::{
    bit_at, bits_below, bottom_bits, count_below, lemma_bits_below_skip, lemma_bottom_bits_skip,
    lemma_bit_consts, lemma_count_below_range, lemma_count_below_skip, lemma_test_single,
    lemma_word_algebra, lowest_bits, popcount,
};
use crate::util::combinations::{
    combinations, is_combo, lemma_combos_first, lemma_combos_increasing, lemma_combos_members,
    lemma_successor, lemma_successor_skip, movable, successor, successor_from,
};
use vstd::prelude::*;

verus! {

/// Yields every `k`-bit part of a word once, in increasing order.
pub struct AllBitIterator {
    mask: u64,
    /// The selection to yield next, or `None` once the last one was yielded.
    next: Option<u64>,
    size: Ghost<nat>,
    done: Ghost<int>,
}

/// The `count` lowest set bits of `word`, or all of `word` where it has fewer.
pub fn lowest(word: u64, count: u32) -> (low: u64)
    ensures
        low == lowest_bits(word, count as nat),
{
    let mut low: u64 = 0;
    let mut taken: u32 = 0;
    let mut scan = word.iter_from_right();
    proof {
        lemma_bottom_bits_skip(word, count as nat, 0, scan.position());
        lemma_word_algebra(lowest_bits(word, count as nat), 0, 0);
    }
    while taken < count
        invariant
            scan.source() == word,
            0 <= scan.position() <= 64,
            taken <= count,
            low | bottom_bits(word, (count - taken) as nat, scan.position()) == lowest_bits(
                word,
                count as nat,
            ),
        decreases 64 - scan.position(), count - taken,
    {
        let ghost before = scan.position();
        match scan.next() {
            Some(bit) => {
                proof {
                    let q = scan.position() - 1;
                    lemma_bottom_bits_skip(word, (count - taken) as nat, before, q);
                    lemma_word_algebra(
                        low,
                        bit,
                        bottom_bits(word, (count - taken - 1) as nat, q + 1),
                    );
                }
                low = low | bit;
                taken = taken + 1;
            },
            None => {
                proof {
                    lemma_bottom_bits_skip(word, (count - taken) as nat, before, 64);
                    lemma_word_algebra(low, 0, 0);
                }
                return low;
            },
        }
    }
    proof {
        lemma_word_algebra(low, 0, 0);
    }
    low
}

impl View for AllBitIterator {
    type V = Seq<u64>;

    /// The selections still to come, in the order in which they will come.
    closed spec fn view(&self) -> Seq<u64> {
        combinations(self.mask, self.size@).skip(self.done@)
    }
}

impl AllBitIterator {
    /// The word whose parts are enumerated.
    pub closed spec fn source(&self) -> u64 {
        self.mask
    }

    /// The number of bits of each selection.
    pub closed spec fn size(&self) -> nat {
        self.size@
    }

    #[verifier::type_invariant]
    spec fn inv(&self) -> bool {
        &&& 0 <= self.done@ <= combinations(self.mask, self.size@).len()
        &&& self.next == if self.done@ < combinations(self.mask, self.size@).len() {
            Some(combinations(self.mask, self.size@)[self.done@])
        } else {
            None
        }
    }

    /// The next selection, or `None` once the last one was yielded.
    pub fn next(&mut self) -> (r: Option<u64>)
        ensures
            final(self).source() == old(self).source(),
            final(self).size() == old(self).size(),
            match r {
                Some(current) => {
                    &&& old(self)@.len() > 0
                    &&& current == old(self)@[0]
                    &&& final(self)@ == old(self)@.skip(1)
                },
                None => old(self)@.len() == 0 && final(self)@.len() == 0,
            },
    {
        proof {
            use_type_invariant(&*self);
        }
        let current = match self.next {
            Some(current) => current,
            None => {
                return None;
            },
        };
        let mask = self.mask;
        let ghost size = self.size@;
        let ghost done = self.done@;
        let ghost all = combinations(mask, size);
        proof {
            lemma_combos_members(mask, size, 64);
            assert(is_combo(mask, size, 64, all[done]));
            lemma_combos_increasing(mask, size, 64);
            lemma_successor(mask, size, done);
            assert(all.skip(done + 1) =~= all.skip(done).skip(1));
        }
        let mut scan = mask.iter_from_right();
        let mut selected_below: u64 = 0;
        let mut seen: u32 = 0;
        proof {
            assert forall|q: int| 0 <= q < scan.position() implies !movable(mask, current, q) by {}
            lemma_successor_skip(mask, current, 0, scan.position());
            assert forall|q: int| 0 <= q < scan.position() implies !bit_at(current, q) by {}
            lemma_count_below_skip(current, 0, scan.position());
            lemma_bits_below_skip(current, 0, scan.position());
        }
        loop
            invariant
                mask == old(self).mask,
                size == old(self).size@,
                done == old(self).done@,
                all == combinations(mask, size),
                0 <= done < all.len(),
                current == all[done],
                is_combo(mask, size, 64, current),
                all.skip(done + 1) == all.skip(done).skip(1),
                done + 1 < all.len() ==> current < all[done + 1],
                successor(mask, current) == if done + 1 < all.len() {
                    all[done + 1]
                } else {
                    0
                },
                scan.source() == mask,
                0 <= scan.position() <= 64,
                successor(mask, current) == successor_from(mask, current, scan.position()),
                selected_below == bits_below(current, scan.position()),
                seen == count_below(current, scan.position()),
            decreases 64 - scan.position(),
        {
            let ghost before = scan.position();
            match scan.next() {
                Some(bit) => {
                    proof {
                        let q = scan.position() - 1;
                        assert forall|j: int| before <= j < q implies !movable(
                            mask,
                            current,
                            j,
                        ) by {}
                        lemma_successor_skip(mask, current, before, q);
                        assert forall|j: int| before <= j < q implies !bit_at(current, j) by {}
                        lemma_count_below_skip(current, before, q);
                        lemma_bits_below_skip(current, before, q);
                        lemma_test_single(current, q);
                        lemma_count_below_range(current, q, 64);
                    }
                    if current & bit == 0 {
                        if seen > 0 {
                            let low = lowest(mask, seen - 1);
                            let following = (current & !selected_below) | bit | low;
                            proof {
                                lemma_bit_consts();
                                lemma_word_algebra(current & !selected_below, bit, low);
                            }
                            *self = AllBitIterator {
                                mask,
                                next: Some(following),
                                size: Ghost(size),
                                done: Ghost(done + 1),
                            };
                            return Some(current);
                        }
                    } else {
                        selected_below = bit | selected_below;
                        seen = seen + 1;
                    }
                },
                None => {
                    proof {
                        assert forall|j: int| before <= j < 64 implies !movable(
                            mask,
                            current,
                            j,
                        ) by {}
                        lemma_successor_skip(mask, current, before, 64);
                    }
                    *self = AllBitIterator {
                        mask,
                        next: None,
                        size: Ghost(size),
                        done: Ghost(done + 1),
                    };
                    return Some(current);
                },
            }
        }
    }
}

/// Words whose k-bit parts can be enumerated.
pub trait IntoAllBitIterator: Sized {
    /// The word whose parts the enumeration will yield.
    spec fn mask(self) -> u64;

    /// An enumeration of every word made of `combo_size` of the set bits of
    /// this word, each once, in increasing order. Asking for more bits than
    /// the word has is not allowed; asking for none yields the one word
    /// without a bit.
    fn iter_gosper(self, combo_size: usize) -> (it: AllBitIterator)
        requires
            combo_size <= popcount(self.mask()),
        ensures
            it.source() == self.mask(),
            it.size() == combo_size,
            it@ == combinations(self.mask(), combo_size as nat),
    ;
}

impl IntoAllBitIterator for u64 {
    open spec fn mask(self) -> u64 {
        self
    }

    fn iter_gosper(self, combo_size: usize) -> (it: AllBitIterator) {
        proof {
            lemma_count_below_range(self, 64, 64);
            lemma_combos_first(self, combo_size as nat, 64);
        }
        let current = lowest(self, combo_size as u32);
        proof {
            assert(combinations(self, combo_size as nat).skip(0) =~= combinations(
                self,
                combo_size as nat,
            ));
        }
        AllBitIterator {
            mask: self,
            next: Some(current),
            size: Ghost(combo_size as nat),
            done: Ghost(0),
        }
    }
}

} // verus!
