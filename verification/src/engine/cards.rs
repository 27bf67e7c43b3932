//! Sets of cards as bit masks, and the rank- and suit-aware queries on them.

use crate::engine::constants::{
    lemma_layout, lemma_names, lemma_tables, rank_letter, rank_mask, rank_of, suit_letter,
    suit_mask, suit_of, FULL_DECK, RANKS, RANK_NAMES, SUITS, SUIT_NAMES,
};
use crate::util::bit_iterator::{
    bits_ascending, lemma_bits_up_len, IntoFromLeftBitIterator, IntoFromRightBitIterator,
};
use crate::util::bits::{
    bit_at, count_below, highest_bits, lemma_count_below_range, lemma_count_below_skip,
    lemma_count_below_zero, lemma_popcount_remove, lemma_popcount_single, lemma_popcount_zero,
    lemma_test_single, lemma_top_bits_skip, lemma_word_algebra, popcount, single, subset_of,
    top_bits,
};
use std::cmp::Ordering;
use vstd::prelude::*;
use vstd::string::StringExecFns;

verus! {

/// A set of cards: bit `q` of the word stands for one card of the deck.
#[derive(Clone, Copy, PartialEq, Eq, Structural, Debug)]
pub struct Cards {
    pub bits: u64,
}

/// Why a set of cards was refused.
#[derive(Clone, Copy, PartialEq, Eq, Structural, Debug)]
pub enum CardsError {
    /// The word is empty or has bits outside the deck.
    InvalidCards(Cards),
    /// A card was to be drawn from an empty set.
    NoCards,
}

impl View for Cards {
    type V = u64;

    open spec fn view(&self) -> u64 {
        self.bits
    }
}

/// A word is a valid hand when it holds at least one card and nothing but cards.
pub open spec fn valid_word(word: u64) -> bool {
    word != 0 && FULL_DECK & word == word
}

/// The flush that `word` holds in the suits from index `s` on, in the order of
/// `SUITS`: the five highest cards of the first suit that has five.
pub open spec fn flush_from(word: u64, s: int) -> Option<Cards>
    decreases 4 - s,
{
    if s >= 4 {
        None
    } else if popcount(word & suit_mask(s)) >= 5 {
        Some(Cards::of(highest_bits(word & suit_mask(s), 5)))
    } else {
        flush_from(word, s + 1)
    }
}

/// The flush of a hand, if it has one.
pub open spec fn flush_of(word: u64) -> Option<Cards> {
    flush_from(word, 0)
}

/// The rank in slot `k` of the straight window `w`. Window `0` runs from the
/// Ace down to the Ten, window `8` from the Six down to the Two, and window
/// `9` is the wheel, whose last slot is the Ace.
pub open spec fn window_rank(w: int, k: int) -> int {
    if w + k < 13 {
        w + k
    } else {
        0
    }
}

/// The highest card that `word` holds of rank `r`, or nothing.
pub open spec fn best_of_rank(word: u64, r: int) -> u64 {
    highest_bits(word & rank_mask(r), 1)
}

/// Whether `word` holds a card of each of the five ranks of window `w`.
pub open spec fn window_filled(word: u64, w: int) -> bool {
    &&& word & rank_mask(window_rank(w, 0)) != 0
    &&& word & rank_mask(window_rank(w, 1)) != 0
    &&& word & rank_mask(window_rank(w, 2)) != 0
    &&& word & rank_mask(window_rank(w, 3)) != 0
    &&& word & rank_mask(window_rank(w, 4)) != 0
}

/// The highest card of each of the five ranks of window `w`.
pub open spec fn window_cards(word: u64, w: int) -> u64 {
    best_of_rank(word, window_rank(w, 0)) | best_of_rank(word, window_rank(w, 1)) | best_of_rank(
        word,
        window_rank(w, 2),
    ) | best_of_rank(word, window_rank(w, 3)) | best_of_rank(word, window_rank(w, 4))
}

/// The straight that `word` holds in the windows from `w` on: the cards of
/// the first window that is filled.
pub open spec fn straight_from(word: u64, w: int) -> Option<Cards>
    decreases 10 - w,
{
    if w >= 10 {
        None
    } else if window_filled(word, w) {
        Some(Cards::of(window_cards(word, w)))
    } else {
        straight_from(word, w + 1)
    }
}

/// The highest straight of a hand, if it has one.
pub open spec fn straight_of(word: u64) -> Option<Cards> {
    straight_from(word, 0)
}

/// The groups of two or more cards of one rank that `word` holds among the
/// first `r` ranks, the highest rank first.
pub open spec fn kinds_upto(word: u64, r: int) -> Seq<Cards>
    decreases r,
{
    if r <= 0 {
        Seq::empty()
    } else if popcount(word & rank_mask(r - 1)) > 1 {
        kinds_upto(word, r - 1).push(Cards::of(word & rank_mask(r - 1)))
    } else {
        kinds_upto(word, r - 1)
    }
}

/// All groups of two or more cards of one rank, the highest rank first.
pub open spec fn kinds_of(word: u64) -> Seq<Cards> {
    kinds_upto(word, 13)
}

/// How two hands compare by the ranks they hold, from rank `r` down: the
/// first rank that only one of them holds decides for that hand.
pub open spec fn rank_order_from(a: u64, b: u64, r: int) -> Ordering
    decreases 13 - r,
{
    if r >= 13 {
        Ordering::Equal
    } else if a & rank_mask(r) != 0 && b & rank_mask(r) == 0 {
        Ordering::Greater
    } else if a & rank_mask(r) == 0 && b & rank_mask(r) != 0 {
        Ordering::Less
    } else {
        rank_order_from(a, b, r + 1)
    }
}

/// How two hands compare by the ranks they hold; suits and how many cards a
/// hand has of a rank play no part.
pub open spec fn rank_order(a: u64, b: u64) -> Ordering {
    rank_order_from(a, b, 0)
}

/// The order seen from the other side.
pub open spec fn opposite(order: Ordering) -> Ordering {
    match order {
        Ordering::Less => Ordering::Greater,
        Ordering::Equal => Ordering::Equal,
        Ordering::Greater => Ordering::Less,
    }
}

/// The two letters of the card at bit position `q`: its rank, then its suit.
pub open spec fn card_name(q: int) -> Seq<char> {
    seq![rank_letter(rank_of(q)), suit_letter(suit_of(q))]
}

/// The names of the cards of `word` below position `i`, the highest first,
/// with `", "` between them; `first` tells that no name stands before them.
/// Bits outside the deck have no name.
pub open spec fn names_below(word: u64, i: int, first: bool) -> Seq<char>
    decreases i,
{
    if i <= 0 {
        Seq::empty()
    } else if bit_at(word, i - 1) && i - 1 < 52 {
        (if first {
            Seq::empty()
        } else {
            ", "@
        }) + card_name(i - 1) + names_below(word, i - 1, false)
    } else {
        names_below(word, i - 1, first)
    }
}

/// How a set of cards reads: the names of its cards, the highest first,
/// with `", "` between them and nothing around them.
pub open spec fn text_of(word: u64) -> Seq<char> {
    names_below(word, 64, true)
}

impl vstd::std_specs::convert::FromSpecImpl<u64> for Cards {
    open spec fn obeys_from_spec() -> bool {
        true
    }

    open spec fn from_spec(value: u64) -> Cards {
        Cards { bits: value }
    }
}

impl From<u64> for Cards {
    /// The set that `value` encodes, valid or not.
    fn from(value: u64) -> (cards: Cards) {
        Cards { bits: value }
    }
}

impl Default for Cards {
    /// The empty set.
    fn default() -> (cards: Cards)
        ensures
            cards@ == 0,
    {
        Cards { bits: 0 }
    }
}

impl Cards {
    /// The set that `word` encodes.
    pub open spec fn of(word: u64) -> Cards {
        Cards { bits: word }
    }

    /// The cards of either set.
    pub open spec fn joined(self, other: Cards) -> Cards {
        Cards::of(self@ | other@)
    }

    /// The cards of this set that `other` does not hold.
    pub open spec fn without(self, other: Cards) -> Cards {
        Cards::of(self@ & !other@)
    }

    /// The set that `value` encodes, if it is a valid one.
    pub fn new(value: u64) -> (r: Result<Cards, CardsError>)
        ensures
            r == if valid_word(value) {
                Ok::<Cards, CardsError>(Cards::of(value))
            } else {
                Err::<Cards, CardsError>(CardsError::InvalidCards(Cards::of(value)))
            },
    {
        let cards = Cards { bits: value };
        if Cards::is_valid(value) {
            Ok(cards)
        } else {
            Err(CardsError::InvalidCards(cards))
        }
    }

    /// The word behind the set.
    pub fn value(&self) -> (word: u64)
        ensures
            word == self@,
    {
        self.bits
    }

    /// Replaces the whole set.
    pub fn set_value(&mut self, new_value: u64)
        ensures
            final(self)@ == new_value,
    {
        self.bits = new_value;
    }

    /// Adds every card of `cards` to the set.
    pub fn add_cards(&mut self, cards: u64)
        ensures
            final(self)@ == old(self)@ | cards,
    {
        self.set_value(self.bits | cards)
    }

    /// Takes every card of `cards` out of the set. Cards that the set does
    /// not hold are left alone: nothing is ever added.
    pub fn remove_cards(&mut self, cards: u64)
        ensures
            final(self)@ == old(self)@ & !cards,
    {
        self.set_value(self.bits & !cards);
    }

    /// Whether `cards` holds at least one card and nothing outside the deck.
    pub fn is_valid(cards: u64) -> (valid: bool)
        ensures
            valid == valid_word(cards),
    {
        cards != 0 && (FULL_DECK & cards) == cards
    }

    /// The number of cards in the set.
    pub fn card_count(&self) -> (count: u32)
        ensures
            count == popcount(self@),
    {
        self.value().count_ones()
    }

    /// Draws the card at place `index`, counted from the lowest card of the
    /// set, and takes it out of the set. Where the set has no card at that
    /// place it stays as it is and `NoCards` is returned.
    pub fn take_nth(&mut self, index: u32) -> (r: Result<Cards, CardsError>)
        ensures
            match r {
                Ok(card) => {
                    &&& index < popcount(old(self)@)
                    &&& card@ == bits_ascending(old(self)@)[index as int]
                    &&& popcount(card@) == 1
                    &&& subset_of(card@, old(self)@)
                    &&& final(self)@ == old(self)@ & !card@
                    &&& popcount(final(self)@) == popcount(old(self)@) - 1
                },
                Err(error) => {
                    &&& error == CardsError::NoCards
                    &&& index >= popcount(old(self)@)
                    &&& final(self)@ == old(self)@
                },
            },
    {
        let word = self.value();
        let mut scan = word.iter_from_right();
        let ghost all = scan@;
        let mut passed: u32 = 0;
        proof {
            lemma_bits_up_len(word, 0);
            assert(all.skip(0) =~= all);
        }
        loop
            invariant
                word == old(self)@,
                self@ == word,
                all == bits_ascending(word),
                all.len() == popcount(word),
                scan.source() == word,
                passed <= index,
                passed <= all.len(),
                scan@ == all.skip(passed as int),
            decreases all.len() - passed,
        {
            match scan.next() {
                Some(card) => {
                    if passed == index {
                        proof {
                            let q = scan.position() - 1;
                            lemma_popcount_single(q);
                            lemma_test_single(word, q);
                            lemma_word_algebra(word, card, 0);
                            lemma_popcount_remove(word, card);
                        }
                        self.remove_cards(card);
                        return Ok(Cards::from(card));
                    }
                    proof {
                        assert(all.skip(passed + 1) =~= all.skip(passed as int).skip(1));
                    }
                    passed = passed + 1;
                },
                None => {
                    return Err(CardsError::NoCards);
                },
            }
        }
    }

    /// Draws one card of the set at random and takes it out of the set. An
    /// empty set is refused with `NoCards`.
    pub fn take_random(&mut self) -> (r: Result<Cards, CardsError>)
        ensures
            match r {
                Ok(card) => {
                    &&& popcount(card@) == 1
                    &&& subset_of(card@, old(self)@)
                    &&& bits_ascending(old(self)@).contains(card@)
                    &&& final(self)@ == old(self)@ & !card@
                    &&& popcount(final(self)@) == popcount(old(self)@) - 1
                },
                Err(error) => {
                    &&& error == CardsError::NoCards
                    &&& old(self)@ == 0
                    &&& final(self)@ == 0
                },
            },
    {
        let card_count = self.card_count();
        if card_count == 0 {
            proof {
                lemma_popcount_zero(self@);
            }
            return Err(CardsError::NoCards);
        }
        let pick = random_word() % (card_count as u64);
        proof {
            lemma_bits_up_len(self@, 0);
        }
        self.take_nth(pick as u32)
    }

    /// The set as text: its cards by name, the highest first, with `", "`
    /// between them, such as `As, Td, 4c`. The empty set reads as the empty
    /// text.
    pub fn to_string(&self) -> (text: String)
        ensures
            text@ == text_of(self@),
    {
        let word = self.value();
        let mut text = String::new();
        let mut first = true;
        let mut scan = word.iter_from_left();
        proof {
            lemma_names_skip(word, scan.bound(), 64, true);
            assert(text@ + names_below(word, 64, true) =~= names_below(word, 64, true));
        }
        loop
            invariant
                word == self@,
                scan.source() == word,
                0 <= scan.bound() <= 64,
                text@ + names_below(word, scan.bound(), first) == text_of(word),
            decreases scan.bound(),
        {
            let ghost before = scan.bound();
            let ghost written = text@;
            match scan.next() {
                None => {
                    proof {
                        lemma_names_skip(word, 0, before, first);
                        assert(written + Seq::<char>::empty() =~= written);
                    }
                    return text;
                },
                Some(card) => {
                    let ghost q = scan.bound();
                    proof {
                        lemma_names_skip(word, q + 1, before, first);
                    }
                    let rank = rank_index(card, Ghost(q));
                    let suit = suit_index(card, Ghost(q));
                    if let (Some(rank), Some(suit)) = (rank, suit) {
                        if !first {
                            text.append(", ");
                        }
                        text.append(RANK_NAMES[rank]);
                        text.append(SUIT_NAMES[suit]);
                        proof {
                            lemma_names();
                            let separator = if first {
                                Seq::<char>::empty()
                            } else {
                                ", "@
                            };
                            assert(text@ =~= written + separator + card_name(q));
                            assert(text@ + names_below(word, q, false) =~= written + (separator
                                + card_name(q) + names_below(word, q, false)));
                        }
                        first = false;
                    }
                },
            }
        }
    }

    /// Whether the set holds at least one card of `cards`.
    pub fn has_any(&self, cards: u64) -> (any: bool)
        ensures
            any == (self@ & cards != 0),
    {
        self.value() & cards != 0
    }

    /// The cards of either set.
    pub fn union(self, other: Cards) -> (both: Cards)
        ensures
            both == self.joined(other),
    {
        Cards { bits: self.bits | other.bits }
    }

    /// The cards of this set that `other` does not hold.
    pub fn remove(self, other: Cards) -> (rest: Cards)
        ensures
            rest == self.without(other),
    {
        Cards { bits: self.bits & !other.bits }
    }

    /// The union of two valid sets; an invalid operand is handed back as the error.
    pub fn try_union(self, other: Cards) -> (r: Result<Cards, CardsError>)
        ensures
            r == if !valid_word(self@) {
                Err::<Cards, CardsError>(CardsError::InvalidCards(self))
            } else if !valid_word(other@) {
                Err::<Cards, CardsError>(CardsError::InvalidCards(other))
            } else {
                Ok::<Cards, CardsError>(self.joined(other))
            },
            r is Ok ==> valid_word(r->Ok_0@),
    {
        if !Cards::is_valid(self.bits) {
            return Err(CardsError::InvalidCards(self));
        }
        if !Cards::is_valid(other.bits) {
            return Err(CardsError::InvalidCards(other));
        }
        proof {
            lemma_union_valid(self.bits, other.bits);
        }
        Ok(Cards { bits: self.bits | other.bits })
    }

    /// The difference of two valid sets; an invalid operand, or the empty
    /// difference, is handed back as the error.
    pub fn try_remove(self, other: Cards) -> (r: Result<Cards, CardsError>)
        ensures
            r == if !valid_word(self@) {
                Err::<Cards, CardsError>(CardsError::InvalidCards(self))
            } else if !valid_word(other@) {
                Err::<Cards, CardsError>(CardsError::InvalidCards(other))
            } else if self@ & !other@ == 0 {
                Err::<Cards, CardsError>(CardsError::InvalidCards(Cards::of(0)))
            } else {
                Ok::<Cards, CardsError>(self.without(other))
            },
            r is Ok ==> valid_word(r->Ok_0@),
    {
        if !Cards::is_valid(self.bits) {
            return Err(CardsError::InvalidCards(self));
        }
        if !Cards::is_valid(other.bits) {
            return Err(CardsError::InvalidCards(other));
        }
        let rest = Cards { bits: self.bits & !other.bits };
        if rest.bits == 0 {
            return Err(CardsError::InvalidCards(rest));
        }
        proof {
            lemma_union_valid(self.bits, other.bits);
        }
        Ok(rest)
    }

    /// The `num` highest cards of the set, or `None` where `num` is zero or
    /// the set holds fewer.
    pub fn get_highest(&self, num: usize) -> (r: Option<Cards>)
        ensures
            r == if num == 0 || popcount(self@) < num {
                None::<Cards>
            } else {
                Some(Cards::of(highest_bits(self@, num as nat)))
            },
    {
        if num == 0 || num > 64 || self.card_count() < num as u32 {
            proof {
                lemma_count_below_range(self@, 64, 64);
            }
            return None;
        }
        let word = self.value();
        let mut highest: u64 = 0;
        let mut card_count: usize = 0;
        let mut scan = word.iter_from_left();
        proof {
            lemma_top_bits_skip(word, num as nat, scan.bound(), 64);
            lemma_count_below_skip(word, scan.bound(), 64);
            lemma_word_algebra(top_bits(word, num as nat, scan.bound()), 0, 0);
        }
        loop
            invariant
                word == self@,
                scan.source() == word,
                0 <= scan.bound() <= 64,
                card_count < num <= popcount(word),
                card_count + count_below(word, scan.bound()) == popcount(word),
                highest | top_bits(word, (num - card_count) as nat, scan.bound()) == highest_bits(
                    word,
                    num as nat,
                ),
            decreases scan.bound(),
        {
            let ghost before = scan.bound();
            match scan.next() {
                Some(card) => {
                    proof {
                        let q = scan.bound();
                        lemma_top_bits_skip(word, (num - card_count) as nat, q + 1, before);
                        lemma_count_below_skip(word, q + 1, before);
                        lemma_word_algebra(
                            highest,
                            card,
                            top_bits(word, (num - card_count - 1) as nat, q),
                        );
                    }
                    highest = highest | card;
                    card_count = card_count + 1;
                    if card_count >= num {
                        proof {
                            lemma_word_algebra(highest, 0, 0);
                        }
                        return Some(Cards { bits: highest });
                    }
                },
                None => {
                    proof {
                        lemma_count_below_zero(word, before);
                    }
                    return None;
                },
            }
        }
    }

    /// Compares two hands rank by rank from the Ace down.
    pub fn compare_rank(&self, other: &Cards) -> (order: Ordering)
        ensures
            order == rank_order(self@, other@),
    {
        let mut i: usize = 0;
        let ghost mut r: int = 0;
        proof {
            lemma_tables();
        }
        while i < 13
            invariant
                0 <= i <= 13,
                r == i,
                rank_order(self@, other@) == rank_order_from(self@, other@, r),
                forall|k: int| 0 <= k < 13 ==> #[trigger] RANKS[k] == rank_mask(k),
            decreases 13 - i,
        {
            let rank = RANKS[i];
            if (self.value() & rank) != 0 && (other.value() & rank) == 0 {
                return Ordering::Greater;
            } else if (self.value() & rank) == 0 && (other.value() & rank) != 0 {
                return Ordering::Less;
            }
            i = i + 1;
            proof {
                r = r + 1;
            }
        }
        Ordering::Equal
    }

    /// The five highest cards of the first suit, in the order Spade, Heart,
    /// Diamond, Club, of which the set holds five or more.
    pub fn get_flush(&self) -> (r: Option<Cards>)
        ensures
            r == flush_of(self@),
    {
        let mut i: usize = 0;
        proof {
            lemma_tables();
        }
        while i < 4
            invariant
                0 <= i <= 4,
                flush_of(self@) == flush_from(self@, i as int),
                forall|k: int| 0 <= k < 4 ==> #[trigger] SUITS[k] == suit_mask(k),
            decreases 4 - i,
        {
            let suited = Cards { bits: self.value() & SUITS[i] };
            if let Some(flush) = suited.get_highest(5) {
                return Some(flush);
            }
            i = i + 1;
        }
        None
    }

    /// The cards of the rank with index `r` that the set holds, reduced to
    /// the highest of them; `None` where it holds none.
    fn best_card_of(&self, r: usize) -> (card: Option<Cards>)
        requires
            r < 13,
        ensures
            card == if self@ & rank_mask(r as int) != 0 {
                Some(Cards::of(best_of_rank(self@, r as int)))
            } else {
                None::<Cards>
            },
    {
        proof {
            lemma_tables();
            lemma_popcount_zero(self@ & rank_mask(r as int));
        }
        let group = Cards { bits: self.value() & RANKS[r] };
        group.get_highest(1)
    }

    /// The highest straight of the set: for the first of the ten windows,
    /// from Ace-high down to the wheel, of which the set holds every rank,
    /// the highest card of each of its ranks.
    pub fn get_straight(&self) -> (r: Option<Cards>)
        ensures
            r == straight_of(self@),
    {
        let mut i: usize = 0;
        while i < 10
            invariant
                0 <= i <= 10,
                straight_of(self@) == straight_from(self@, i as int),
            decreases 10 - i,
        {
            let last: usize = if i + 4 < 13 {
                i + 4
            } else {
                0
            };
            if let Some(one) = self.best_card_of(i) {
                if let Some(two) = self.best_card_of(i + 1) {
                    if let Some(three) = self.best_card_of(i + 2) {
                        if let Some(four) = self.best_card_of(i + 3) {
                            if let Some(five) = self.best_card_of(last) {
                                return Some(
                                    Cards::from(
                                        one.value() | two.value() | three.value() | four.value()
                                            | five.value(),
                                    ),
                                );
                            }
                        }
                    }
                }
            }
            i = i + 1;
        }
        None
    }

    /// The groups of two or more cards of one rank, the highest rank first.
    pub fn get_kinds(&self) -> (kinds: Vec<Cards>)
        ensures
            kinds@ == kinds_of(self@),
    {
        let mut kinds: Vec<Cards> = Vec::new();
        let mut i: usize = 0;
        proof {
            lemma_tables();
        }
        while i < 13
            invariant
                0 <= i <= 13,
                kinds@ == kinds_upto(self@, i as int),
                forall|k: int| 0 <= k < 13 ==> #[trigger] RANKS[k] == rank_mask(k),
            decreases 13 - i,
        {
            let group = Cards { bits: self.value() & RANKS[i] };
            if group.card_count() > 1 {
                kinds.push(group);
            }
            i = i + 1;
        }
        kinds
    }
}

/// The index into `RANKS` of the rank of a single card, if it is one of the deck.
fn rank_index(card: u64, Ghost(q): Ghost<int>) -> (found: Option<usize>)
    requires
        0 <= q < 64,
        card == single(q),
    ensures
        found == if q < 52 {
            Some(rank_of(q) as usize)
        } else {
            None::<usize>
        },
{
    let mut i: usize = 0;
    proof {
        lemma_tables();
        lemma_layout();
    }
    while i < 13
        invariant
            0 <= i <= 13,
            0 <= q < 64,
            card == single(q),
            q < 52 ==> i <= rank_of(q),
            forall|k: int| 0 <= k < 13 ==> #[trigger] RANKS[k] == rank_mask(k),
            forall|r: int, p: int|
                0 <= r < 13 ==> (#[trigger] bit_at(rank_mask(r), p) <==> 0 <= p < 52 && rank_of(p)
                    == r),
        decreases 13 - i,
    {
        proof {
            lemma_test_single(rank_mask(i as int), q);
        }
        if RANKS[i] & card != 0 {
            return Some(i);
        }
        i = i + 1;
    }
    None
}

/// The index into `SUITS` of the suit of a single card, if it is one of the deck.
fn suit_index(card: u64, Ghost(q): Ghost<int>) -> (found: Option<usize>)
    requires
        0 <= q < 64,
        card == single(q),
    ensures
        found == if q < 52 {
            Some(suit_of(q) as usize)
        } else {
            None::<usize>
        },
{
    let mut i: usize = 0;
    proof {
        lemma_tables();
        lemma_layout();
    }
    while i < 4
        invariant
            0 <= i <= 4,
            0 <= q < 64,
            card == single(q),
            q < 52 ==> i <= suit_of(q),
            forall|k: int| 0 <= k < 4 ==> #[trigger] SUITS[k] == suit_mask(k),
            forall|s: int, p: int|
                0 <= s < 4 ==> (#[trigger] bit_at(suit_mask(s), p) <==> 0 <= p < 52 && suit_of(p)
                    == s),
        decreases 4 - i,
    {
        proof {
            lemma_test_single(suit_mask(i as int), q);
        }
        if SUITS[i] & card != 0 {
            return Some(i);
        }
        i = i + 1;
    }
    None
}

/// A word drawn at random: `rand::random::<u64>()`. Nothing is promised of
/// it; any word may come back.
#[verifier::external_body]
fn random_word() -> (word: u64) {
    rand::random::<u64>()
}

/// Unset bits have no name.
pub proof fn lemma_names_skip(word: u64, lo: int, hi: int, first: bool)
    requires
        lo <= hi,
        forall|j: int| lo <= j < hi ==> !bit_at(word, j),
    ensures
        names_below(word, hi, first) == names_below(word, lo, first),
    decreases hi - lo,
{
    if lo < hi {
        lemma_names_skip(word, lo, hi - 1, first);
    }
}

/// Comparing two hands by rank the other way round gives the opposite
/// order, and a hand equals itself.
pub proof fn lemma_rank_order_opposite(a: u64, b: u64, r: int)
    requires
        0 <= r,
    ensures
        rank_order_from(b, a, r) == opposite(rank_order_from(a, b, r)),
        rank_order_from(a, a, r) == Ordering::Equal,
    decreases 13 - r,
{
    if r < 13 {
        lemma_rank_order_opposite(a, b, r + 1);
    }
}

/// Comparing hands by rank is transitive: what is less than a hand that is
/// not greater than a third, or not greater than a hand that is less than a
/// third, is less than the third; and equal hands stay equal.
pub proof fn lemma_rank_order_transitive(a: u64, b: u64, c: u64, r: int)
    requires
        0 <= r,
    ensures
        rank_order_from(a, b, r) == Ordering::Less && rank_order_from(b, c, r)
            != Ordering::Greater ==> rank_order_from(a, c, r) == Ordering::Less,
        rank_order_from(a, b, r) != Ordering::Greater && rank_order_from(b, c, r)
            == Ordering::Less ==> rank_order_from(a, c, r) == Ordering::Less,
        rank_order_from(a, b, r) == Ordering::Equal && rank_order_from(b, c, r)
            == Ordering::Equal ==> rank_order_from(a, c, r) == Ordering::Equal,
    decreases 13 - r,
{
    if r < 13 {
        lemma_rank_order_transitive(a, b, c, r + 1);
    }
}

/// Taking a part of a set out and putting it back gives the set again; and
/// what was added to a set and taken out again leaves no trace.
pub proof fn lemma_remove_restores(set: Cards, part: Cards, other: Cards)
    ensures
        subset_of(part@, set@) ==> set.without(part).joined(part) == set,
        set.joined(other).without(other) == set.without(other),
        set.without(other).without(other) == set.without(other),
{
    lemma_word_algebra(part@, set@, 0);
    lemma_word_algebra(set@, other@, other@);
    lemma_word_algebra(other@, other@, 0);
}

/// A union of valid sets is valid, and so is what is left of one after a removal.
pub proof fn lemma_union_valid(a: u64, b: u64)
    requires
        valid_word(a),
        valid_word(b),
    ensures
        valid_word(a | b),
        a & !b != 0 ==> valid_word(a & !b),
{
    lemma_bv_valid(a, b);
}

proof fn lemma_bv_valid(a: u64, b: u64)
    by (bit_vector)
    requires
        a != 0,
        0xFFFFFFFFFFFFFu64 & a == a,
        0xFFFFFFFFFFFFFu64 & b == b,
    ensures
        a | b != 0,
        0xFFFFFFFFFFFFFu64 & (a | b) == a | b,
        0xFFFFFFFFFFFFFu64 & (a & !b) == a & !b,
{
}

} // verus!
