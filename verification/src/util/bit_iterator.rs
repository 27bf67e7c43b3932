//! Scanners that hand out the set bits of a word one at a time, each as a
//! single-bit word: highest first or lowest first.

use crate::util::bits::{
    bit_at, count_below, lemma_below_single, lemma_bit_consts, lemma_test_single, popcount, single,
};
use vstd::prelude::*;
use vstd::std_specs::bits::{axiom_u64_leading_zeros, axiom_u64_trailing_zeros};

verus! {

/// The set bits of `x` below position `i`, each as a single-bit word, highest first.
pub open spec fn bits_down_from(x: u64, i: int) -> Seq<u64>
    decreases i,
{
    if i <= 0 {
        Seq::empty()
    } else if bit_at(x, i - 1) {
        seq![single(i - 1)] + bits_down_from(x, i - 1)
    } else {
        bits_down_from(x, i - 1)
    }
}

/// The set bits of `x` from position `i` on, each as a single-bit word, lowest first.
pub open spec fn bits_up_from(x: u64, i: int) -> Seq<u64>
    decreases 64 - i,
{
    if i >= 64 {
        Seq::empty()
    } else if bit_at(x, i) {
        seq![single(i)] + bits_up_from(x, i + 1)
    } else {
        bits_up_from(x, i + 1)
    }
}

/// All set bits of `x`, most significant first.
pub open spec fn bits_descending(x: u64) -> Seq<u64> {
    bits_down_from(x, 64)
}

/// All set bits of `x`, least significant first.
pub open spec fn bits_ascending(x: u64) -> Seq<u64> {
    bits_up_from(x, 0)
}

proof fn lemma_bv_cursor(i: u64, z: u32)
    by (bit_vector)
    requires
        i < 64,
    ensures
        (1u64 << i) >> 1 == (if i == 0 { 0u64 } else { 1u64 << ((i - 1) as u64) }),
        (1u64 << i) << 1 == (if i == 63 { 0u64 } else { 1u64 << ((i + 1) as u64) }),
        z < 64 ==> 0x8000_0000_0000_0000u64 >> z == 1u64 << ((63 - z) as u64),
        z < 64 ==> 1u64 << z == 1u64 << (z as u64),
        0x8000_0000_0000_0000u64 == 1u64 << 63,
        1u64 == 1u64 << 0,
{
}

/// A descending scan has nothing to report while it only crosses unset bits.
pub proof fn lemma_bits_down_skip(x: u64, lo: int, hi: int)
    requires
        lo <= hi,
        forall|j: int| lo <= j < hi ==> !bit_at(x, j),
    ensures
        bits_down_from(x, hi) == bits_down_from(x, lo),
    decreases hi - lo,
{
    if lo < hi {
        lemma_bits_down_skip(x, lo, hi - 1);
    }
}

/// An ascending scan has nothing to report while it only crosses unset bits.
pub proof fn lemma_bits_up_skip(x: u64, lo: int, hi: int)
    requires
        0 <= lo <= hi,
        forall|j: int| lo <= j < hi ==> !bit_at(x, j),
    ensures
        bits_up_from(x, lo) == bits_up_from(x, hi),
    decreases hi - lo,
{
    if lo < hi {
        lemma_bits_up_skip(x, lo + 1, hi);
    }
}

/// An ascending scan from `i` reports as many bits as are set from `i` on.
pub proof fn lemma_bits_up_len(x: u64, i: int)
    requires
        0 <= i <= 64,
    ensures
        bits_up_from(x, i).len() == popcount(x) - count_below(x, i),
    decreases 64 - i,
{
    if i < 64 {
        lemma_bits_up_len(x, i + 1);
    }
}

/// Whether `v` is a single set bit of `x` at a position from `lo` up to but
/// not including `hi`.
pub open spec fn is_bit_of(v: u64, x: u64, lo: int, hi: int) -> bool {
    exists|q: int| lo <= q < hi && bit_at(x, q) && v == #[trigger] single(q)
}

/// Whether `s` lists single set bits of `x` at positions from `lo` up to
/// but not including `hi`.
pub open spec fn lists_bits(s: Seq<u64>, x: u64, lo: int, hi: int) -> bool {
    forall|j: int| 0 <= j < s.len() ==> is_bit_of(#[trigger] s[j], x, lo, hi)
}

/// What an ascending scan from position `i` reports: single set bits of
/// the word, each greater than the one before, and every set bit from `i` on.
pub proof fn lemma_bits_up(x: u64, i: int)
    requires
        0 <= i <= 64,
    ensures
        lists_bits(bits_up_from(x, i), x, i, 64),
        forall|a: int, b: int|
            0 <= a < b < bits_up_from(x, i).len() ==> #[trigger] bits_up_from(x, i)[a]
                < #[trigger] bits_up_from(x, i)[b],
        forall|q: int| i <= q && bit_at(x, q) ==> bits_up_from(x, i).contains(#[trigger] single(q)),
    decreases 64 - i,
{
    let all = bits_up_from(x, i);
    if i < 64 {
        let rest = bits_up_from(x, i + 1);
        lemma_bits_up(x, i + 1);
        assert forall|j: int| 0 <= j < all.len() implies is_bit_of(#[trigger] all[j], x, i, 64) by {
            if bit_at(x, i) && j == 0 {
                assert(all[0] == single(i));
            } else {
                let k = if bit_at(x, i) {
                    j - 1
                } else {
                    j
                };
                assert(is_bit_of(rest[k], x, i + 1, 64));
                let q = choose|q: int|
                    i + 1 <= q < 64 && bit_at(x, q) && rest[k] == #[trigger] single(q);
                assert(all[j] == single(q));
            }
        }
        assert forall|a: int, b: int| 0 <= a < b < all.len() implies #[trigger] all[a]
            < #[trigger] all[b] by {
            if bit_at(x, i) {
                if a == 0 {
                    assert(is_bit_of(rest[b - 1], x, i + 1, 64));
                    let q = choose|q: int|
                        i + 1 <= q < 64 && bit_at(x, q) && rest[b - 1] == #[trigger] single(q);
                    lemma_bit_consts();
                    lemma_below_single(single(i), q);
                } else {
                    assert(rest[a - 1] < rest[b - 1]);
                }
            }
        }
        assert forall|q: int| i <= q && bit_at(x, q) implies all.contains(
            #[trigger] single(q),
        ) by {
            if q == i {
                assert(all[0] == single(q));
            } else {
                let k = choose|k: int| 0 <= k < rest.len() && rest[k] == single(q);
                if bit_at(x, i) {
                    assert(all[k + 1] == single(q));
                } else {
                    assert(all[k] == single(q));
                }
            }
        }
    }
}

/// What a descending scan below position `i` reports: single set bits of
/// the word, each less than the one before, and every set bit below `i`.
pub proof fn lemma_bits_down(x: u64, i: int)
    requires
        0 <= i <= 64,
    ensures
        lists_bits(bits_down_from(x, i), x, 0, i),
        forall|a: int, b: int|
            0 <= a < b < bits_down_from(x, i).len() ==> #[trigger] bits_down_from(x, i)[a]
                > #[trigger] bits_down_from(x, i)[b],
        forall|q: int|
            q < i && bit_at(x, q) ==> bits_down_from(x, i).contains(#[trigger] single(q)),
    decreases i,
{
    let all = bits_down_from(x, i);
    if i > 0 {
        let rest = bits_down_from(x, i - 1);
        lemma_bits_down(x, i - 1);
        assert forall|j: int| 0 <= j < all.len() implies is_bit_of(#[trigger] all[j], x, 0, i) by {
            if bit_at(x, i - 1) && j == 0 {
                assert(all[0] == single(i - 1));
            } else {
                let k = if bit_at(x, i - 1) {
                    j - 1
                } else {
                    j
                };
                assert(is_bit_of(rest[k], x, 0, i - 1));
                let q = choose|q: int|
                    0 <= q < i - 1 && bit_at(x, q) && rest[k] == #[trigger] single(q);
                assert(all[j] == single(q));
            }
        }
        assert forall|a: int, b: int| 0 <= a < b < all.len() implies #[trigger] all[a]
            > #[trigger] all[b] by {
            if bit_at(x, i - 1) {
                if a == 0 {
                    assert(is_bit_of(rest[b - 1], x, 0, i - 1));
                    let q = choose|q: int|
                        0 <= q < i - 1 && bit_at(x, q) && rest[b - 1] == #[trigger] single(q);
                    lemma_bit_consts();
                    lemma_below_single(single(q), i - 1);
                } else {
                    assert(rest[a - 1] > rest[b - 1]);
                }
            }
        }
        assert forall|q: int| q < i && bit_at(x, q) implies all.contains(
            #[trigger] single(q),
        ) by {
            if q == i - 1 {
                assert(all[0] == single(q));
            } else {
                let k = choose|k: int| 0 <= k < rest.len() && rest[k] == single(q);
                if bit_at(x, i - 1) {
                    assert(all[k + 1] == single(q));
                } else {
                    assert(all[k] == single(q));
                }
            }
        }
    }
}

/// What the scans of a word report: as many single bits as the word has
/// set bits, each a set bit of the word, in strictly ascending or strictly
/// descending order, and none of its set bits left out.
pub proof fn lemma_scans(x: u64)
    ensures
        bits_ascending(x).len() == popcount(x),
        bits_descending(x).len() == popcount(x),
        lists_bits(bits_ascending(x), x, 0, 64),
        lists_bits(bits_descending(x), x, 0, 64),
        forall|a: int, b: int|
            0 <= a < b < bits_ascending(x).len() ==> #[trigger] bits_ascending(x)[a]
                < #[trigger] bits_ascending(x)[b],
        forall|a: int, b: int|
            0 <= a < b < bits_descending(x).len() ==> #[trigger] bits_descending(x)[a]
                > #[trigger] bits_descending(x)[b],
        forall|q: int| bit_at(x, q) ==> bits_ascending(x).contains(#[trigger] single(q)),
        forall|q: int| bit_at(x, q) ==> bits_descending(x).contains(#[trigger] single(q)),
{
    lemma_bits_up(x, 0);
    lemma_bits_down(x, 64);
    lemma_bits_up_len(x, 0);
    lemma_bits_down_len(x, 64);
}

/// A descending scan below `i` reports as many bits as are set below `i`.
pub proof fn lemma_bits_down_len(x: u64, i: int)
    ensures
        bits_down_from(x, i).len() == count_below(x, i),
    decreases i,
{
    if i > 0 {
        lemma_bits_down_len(x, i - 1);
    }
}

/// Scans a word from its most significant set bit down.
pub struct FormLeftBitIterator {
    cards: u64,
    bit_cursor: u64,
    below: Ghost<int>,
}

/// Scans a word from its least significant set bit up.
pub struct FromRightBitIterator {
    cards: u64,
    bit_cursor: u64,
    at: Ghost<int>,
}

impl View for FormLeftBitIterator {
    type V = Seq<u64>;

    /// What the scan has yet to report.
    open spec fn view(&self) -> Seq<u64> {
        bits_down_from(self.source(), self.bound())
    }
}

impl View for FromRightBitIterator {
    type V = Seq<u64>;

    /// What the scan has yet to report.
    open spec fn view(&self) -> Seq<u64> {
        bits_up_from(self.source(), self.position())
    }
}

impl FormLeftBitIterator {
    /// The word being scanned.
    pub closed spec fn source(&self) -> u64 {
        self.cards
    }

    /// The positions still to scan are those below this one.
    pub closed spec fn bound(&self) -> int {
        self.below@
    }

    #[verifier::type_invariant]
    spec fn inv(&self) -> bool {
        &&& 0 <= self.below@ <= 64
        &&& self.bit_cursor == if self.below@ == 0 {
            0
        } else {
            single(self.below@ - 1)
        }
    }

    /// The highest set bit not yet reported, or `None` once every set bit was.
    pub fn next(&mut self) -> (r: Option<u64>)
        ensures
            final(self).source() == old(self).source(),
            0 <= final(self).bound() <= old(self).bound() <= 64,
            match r {
                Some(b) => {
                    &&& final(self).bound() < old(self).bound()
                    &&& b == single(final(self).bound())
                    &&& bit_at(old(self).source(), final(self).bound())
                    &&& forall|j: int|
                        final(self).bound() < j < old(self).bound() ==> !bit_at(
                            old(self).source(),
                            j,
                        )
                    &&& old(self)@.len() > 0
                    &&& b == old(self)@[0]
                    &&& final(self)@ == old(self)@.skip(1)
                },
                None => {
                    &&& final(self).bound() == 0
                    &&& forall|j: int| 0 <= j < old(self).bound() ==> !bit_at(old(self).source(), j)
                    &&& old(self)@.len() == 0
                    &&& final(self)@.len() == 0
                },
            },
    {
        proof {
            use_type_invariant(&*self);
        }
        let cards = self.cards;
        let mut cursor = self.bit_cursor;
        let ghost start = self.below@;
        let ghost mut below = self.below@;
        while cursor != 0
            invariant
                cards == old(self).cards,
                start == old(self).below@,
                0 <= below <= start <= 64,
                cursor == if below == 0 {
                    0
                } else {
                    single(below - 1)
                },
                forall|j: int| below <= j < start ==> !bit_at(cards, j),
            decreases below,
        {
            proof {
                lemma_bv_cursor((below - 1) as u64, 0);
                lemma_test_single(cards, below - 1);
            }
            if cards & cursor != 0 {
                let found = cursor;
                proof {
                    lemma_bits_down_skip(cards, below, start);
                    assert(bits_down_from(cards, below - 1) =~= bits_down_from(cards, below).skip(
                        1,
                    ));
                }
                *self = FormLeftBitIterator {
                    cards,
                    bit_cursor: cursor >> 1,
                    below: Ghost(below - 1),
                };
                return Some(found);
            }
            cursor = cursor >> 1;
            proof {
                below = below - 1;
            }
        }
        proof {
            lemma_bit_consts();
            lemma_bits_down_skip(cards, 0, start);
        }
        *self = FormLeftBitIterator { cards, bit_cursor: 0, below: Ghost(0) };
        None
    }
}

impl FromRightBitIterator {
    /// The word being scanned.
    pub closed spec fn source(&self) -> u64 {
        self.cards
    }

    /// The positions still to scan are this one and those above it.
    pub closed spec fn position(&self) -> int {
        self.at@
    }

    #[verifier::type_invariant]
    spec fn inv(&self) -> bool {
        &&& 0 <= self.at@ <= 64
        &&& self.bit_cursor == if self.at@ == 64 {
            0
        } else {
            single(self.at@)
        }
    }

    /// The lowest set bit not yet reported, or `None` once every set bit was.
    pub fn next(&mut self) -> (r: Option<u64>)
        ensures
            final(self).source() == old(self).source(),
            0 <= old(self).position() <= final(self).position() <= 64,
            match r {
                Some(b) => {
                    &&& old(self).position() < final(self).position()
                    &&& b == single(final(self).position() - 1)
                    &&& bit_at(old(self).source(), final(self).position() - 1)
                    &&& forall|j: int|
                        old(self).position() <= j < final(self).position() - 1 ==> !bit_at(
                            old(self).source(),
                            j,
                        )
                    &&& old(self)@.len() > 0
                    &&& b == old(self)@[0]
                    &&& final(self)@ == old(self)@.skip(1)
                },
                None => {
                    &&& final(self).position() == 64
                    &&& forall|j: int|
                        old(self).position() <= j < 64 ==> !bit_at(old(self).source(), j)
                    &&& old(self)@.len() == 0
                    &&& final(self)@.len() == 0
                },
            },
    {
        proof {
            use_type_invariant(&*self);
        }
        let cards = self.cards;
        let mut cursor = self.bit_cursor;
        let ghost start = self.at@;
        let ghost mut at = self.at@;
        while cursor != 0
            invariant
                cards == old(self).cards,
                start == old(self).at@,
                0 <= start <= at <= 64,
                cursor == if at == 64 {
                    0
                } else {
                    single(at)
                },
                forall|j: int| start <= j < at ==> !bit_at(cards, j),
            decreases 64 - at,
        {
            proof {
                lemma_bv_cursor(at as u64, 0);
                lemma_test_single(cards, at);
            }
            if cards & cursor != 0 {
                let found = cursor;
                proof {
                    lemma_bits_up_skip(cards, start, at);
                    assert(bits_up_from(cards, at + 1) =~= bits_up_from(cards, at).skip(1));
                }
                *self = FromRightBitIterator { cards, bit_cursor: cursor << 1, at: Ghost(at + 1) };
                return Some(found);
            }
            cursor = cursor << 1;
            proof {
                at = at + 1;
            }
        }
        proof {
            lemma_bit_consts();
            lemma_bits_up_skip(cards, start, 64);
        }
        *self = FromRightBitIterator { cards, bit_cursor: 0, at: Ghost(64) };
        None
    }
}

/// Words that can be scanned from their most significant set bit down.
pub trait IntoFromLeftBitIterator: Sized {
    /// The word that the scan will run over.
    spec fn word(self) -> u64;

    /// A fresh scan that reports every set bit, most significant first.
    fn iter_from_left(self) -> (it: FormLeftBitIterator)
        ensures
            it.source() == self.word(),
            it@ == bits_descending(self.word()),
            0 <= it.bound() <= 64,
            forall|j: int| it.bound() <= j < 64 ==> !bit_at(self.word(), j),
    ;
}

/// Words that can be scanned from their least significant set bit up.
pub trait IntoFromRightBitIterator: Sized {
    /// The word that the scan will run over.
    spec fn word(self) -> u64;

    /// A fresh scan that reports every set bit, least significant first.
    fn iter_from_right(self) -> (it: FromRightBitIterator)
        ensures
            it.source() == self.word(),
            it@ == bits_ascending(self.word()),
            0 <= it.position() <= 64,
            forall|j: int| 0 <= j < it.position() ==> !bit_at(self.word(), j),
    ;
}

impl IntoFromLeftBitIterator for u64 {
    open spec fn word(self) -> u64 {
        self
    }

    fn iter_from_left(self) -> (it: FormLeftBitIterator) {
        let mut bit_cursor: u64 = 0x8000_0000_0000_0000;
        let ghost mut below: int = 64;
        proof {
            lemma_bv_cursor(0, 0);
        }
        if self != 0 {
            let zeros: u32 = self.leading_zeros();
            proof {
                axiom_u64_leading_zeros(self);
                lemma_bv_cursor(0, zeros);
                below = 64 - zeros;
                assert forall|j: int| below <= j < 64 implies !bit_at(self, j) by {
                    assert((self >> (j as u64)) & 1u64 == 0u64);
                }
                lemma_bits_down_skip(self, below, 64);
            }
            bit_cursor = bit_cursor >> zeros;
        }
        FormLeftBitIterator { cards: self, bit_cursor, below: Ghost(below) }
    }
}

impl IntoFromRightBitIterator for u64 {
    open spec fn word(self) -> u64 {
        self
    }

    fn iter_from_right(self) -> (it: FromRightBitIterator) {
        let mut bit_cursor: u64 = 1;
        let ghost mut at: int = 0;
        proof {
            lemma_bv_cursor(0, 0);
        }
        if self != 0 {
            let zeros: u32 = self.trailing_zeros();
            proof {
                axiom_u64_trailing_zeros(self);
                at = zeros as int;
                assert forall|j: int| 0 <= j < at implies !bit_at(self, j) by {
                    assert((self >> (j as u64)) & 1u64 == 0u64);
                }
                lemma_bits_up_skip(self, 0, at);
            }
            bit_cursor = bit_cursor << zeros;
        }
        FromRightBitIterator { cards: self, bit_cursor, at: Ghost(at) }
    }
}

} // verus!
