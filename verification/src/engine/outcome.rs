//! The nine hand categories, how a hand of five to seven cards is reduced to
//! its best five, and the order among the results.

use crate::engine::cards::{
    flush_of, kinds_of, lemma_rank_order_opposite, lemma_rank_order_transitive, opposite,
    rank_order, straight_of, Cards,
};
use crate::engine::constants::{rank_mask, ACE, FIVE};
use crate::engine::hand_lemmas::{
    is_kind_below, is_kind_of_rank, lemma_flush_from, lemma_flush_with_junk, lemma_kind_listed,
    lemma_kinds, lemma_kinds_upto, lemma_rank_groups, lemma_rank_part, lemma_straight_flush_hand,
    lemma_straight_from, lemma_straight_with_junk, lemma_two_kinds, straight_flush_of, unrelated,
};
use crate::util::bits::{
    highest_bits, lemma_disjoint_parts, lemma_highest_bits, lemma_join_parts,
    lemma_part_with_highest, lemma_popcount_remove, lemma_popcount_subset, lemma_popcount_zero,
    lemma_word_algebra, popcount, subset_of,
};
use std::cmp::Ordering;
use vstd::prelude::*;

verus! {

/// Why a hand could not be classified. Only the first can be observed: the
/// other two stand for reductions that a hand of five cards cannot fail.
#[derive(Debug, Clone, Copy, PartialEq, Eq, Structural)]
pub enum OutcomeError {
    /// The hand holds fewer than five cards.
    CardCountTooLow(Cards),
    /// The cards left beside a group were fewer than the category needs.
    HighestCardNotFound(Cards),
    /// A group that the category rests on was not found.
    KindNotFound(Cards),
}

/// A hand category together with the five cards that make it.
#[derive(Debug, Clone, Copy, PartialEq, Eq, Structural)]
pub enum Outcome {
    StraightFlush(Cards),
    FourOfAKind(Cards),
    FullHouse(Cards),
    Flush(Cards),
    Straight(Cards),
    ThreeOfAKind(Cards),
    TwoPair(Cards),
    Pair(Cards),
    HighCard(Cards),
}

/// The first of the groups `kinds[i..]` that has exactly `size` cards.
pub open spec fn first_kind_from(kinds: Seq<Cards>, size: u32, i: int) -> Option<Cards>
    decreases kinds.len() - i,
{
    if i < 0 || i >= kinds.len() {
        None
    } else if popcount(kinds[i]@) == size {
        Some(kinds[i])
    } else {
        first_kind_from(kinds, size, i + 1)
    }
}

/// The first group that has exactly `size` cards.
pub open spec fn first_kind(kinds: Seq<Cards>, size: u32) -> Option<Cards> {
    first_kind_from(kinds, size, 0)
}

/// The first of the groups `kinds[i..]` that is not `taken`.
pub open spec fn first_other_from(kinds: Seq<Cards>, taken: Cards, i: int) -> Option<Cards>
    decreases kinds.len() - i,
{
    if i < 0 || i >= kinds.len() {
        None
    } else if kinds[i] != taken && popcount(kinds[i]@) >= 2 {
        Some(kinds[i])
    } else {
        first_other_from(kinds, taken, i + 1)
    }
}

/// The first group that is not `taken`.
pub open spec fn first_other(kinds: Seq<Cards>, taken: Cards) -> Option<Cards> {
    first_other_from(kinds, taken, 0)
}

/// The category and the best five cards of a hand of five cards or more.
/// The first rule that applies decides.
pub open spec fn classify_hand(word: u64) -> Outcome {
    let flush = flush_of(word);
    let straight = straight_of(word);
    let kinds = kinds_of(word);
    let quads = first_kind(kinds, 4);
    let trips = first_kind(kinds, 3);
    if flush is Some && straight is Some && flush == straight {
        Outcome::StraightFlush(flush->0)
    } else if quads is Some {
        Outcome::FourOfAKind(Cards::of(quads->0@ | highest_bits(word & !quads->0@, 1)))
    } else if trips is Some && first_other(kinds, trips->0) is Some {
        Outcome::FullHouse(
            Cards::of(trips->0@ | highest_bits(first_other(kinds, trips->0)->0@, 2)),
        )
    } else if flush is Some {
        Outcome::Flush(flush->0)
    } else if straight is Some {
        Outcome::Straight(straight->0)
    } else if trips is Some {
        Outcome::ThreeOfAKind(Cards::of(trips->0@ | highest_bits(word & !trips->0@, 2)))
    } else if kinds.len() >= 2 {
        Outcome::TwoPair(
            Cards::of(
                kinds[0]@ | kinds[1]@ | highest_bits((word & !kinds[0]@) & !kinds[1]@, 1),
            ),
        )
    } else if kinds.len() == 1 {
        Outcome::Pair(Cards::of(kinds[0]@ | highest_bits(word & !kinds[0]@, 3)))
    } else {
        Outcome::HighCard(Cards::of(highest_bits(word, 5)))
    }
}

/// What classifying `word` gives: an outcome for five cards or more, and
/// `CardCountTooLow` for fewer.
pub open spec fn classify(word: u64) -> Result<Outcome, OutcomeError> {
    if popcount(word) < 5 {
        Err(OutcomeError::CardCountTooLow(Cards::of(word)))
    } else {
        Ok(classify_hand(word))
    }
}

/// A group found by `first_kind_from` is one of the groups and has the size
/// asked for; where none is found, no group from `i` on has that size.
pub proof fn lemma_first_kind(kinds: Seq<Cards>, size: u32, i: int)
    requires
        0 <= i,
    ensures
        match first_kind_from(kinds, size, i) {
            Some(group) => exists|j: int|
                i <= j < kinds.len() && #[trigger] kinds[j] == group && popcount(group@) == size,
            None => forall|j: int| i <= j < kinds.len() ==> popcount(#[trigger] kinds[j]@) != size,
        },
    decreases kinds.len() - i,
{
    if i < kinds.len() && popcount(kinds[i]@) != size {
        lemma_first_kind(kinds, size, i + 1);
    }
}

/// A group found by `first_other_from` is one of the groups after `i`, and not `taken`.
pub proof fn lemma_first_other(kinds: Seq<Cards>, taken: Cards, i: int)
    requires
        0 <= i,
    ensures
        first_other_from(kinds, taken, i) matches Some(group) ==> group != taken && exists|j: int|
            i <= j < kinds.len() && #[trigger] kinds[j] == group,
    decreases kinds.len() - i,
{
    if i < kinds.len() {
        if !(kinds[i] != taken && popcount(kinds[i]@) >= 2) {
            lemma_first_other(kinds, taken, i + 1);
        }
    }
}

/// The first group of `size` cards among `kinds`.
fn find_kind(kinds: &Vec<Cards>, size: u32) -> (found: Option<Cards>)
    ensures
        found == first_kind(kinds@, size),
{
    let mut i: usize = 0;
    while i < kinds.len()
        invariant
            0 <= i <= kinds.len(),
            first_kind(kinds@, size) == first_kind_from(kinds@, size, i as int),
        decreases kinds.len() - i,
    {
        if kinds[i].card_count() == size {
            return Some(kinds[i]);
        }
        i = i + 1;
    }
    None
}

/// The first group among `kinds` that is not `taken`.
fn find_other(kinds: &Vec<Cards>, taken: Cards) -> (found: Option<Cards>)
    ensures
        found == first_other(kinds@, taken),
{
    let mut i: usize = 0;
    while i < kinds.len()
        invariant
            0 <= i <= kinds.len(),
            first_other(kinds@, taken) == first_other_from(kinds@, taken, i as int),
        decreases kinds.len() - i,
    {
        if kinds[i] != taken && kinds[i].card_count() >= 2 {
            return Some(kinds[i]);
        }
        i = i + 1;
    }
    None
}

impl Outcome {
    /// Classifies a hand of five cards or more and reduces it to the five
    /// cards that make its category. A hand of fewer cards is refused with
    /// `CardCountTooLow`; no other error occurs.
    pub fn from_cards(cards: Cards) -> (r: Result<Outcome, OutcomeError>)
        ensures
            r == classify(cards@),
            r matches Ok(outcome) ==> popcount(outcome.hand()@) == 5 && subset_of(
                outcome.hand()@,
                cards@,
            ) && outcome.comparable(),
    {
        if cards.card_count() < 5 {
            return Err(OutcomeError::CardCountTooLow(cards));
        }
        proof {
            lemma_classify_five(cards@);
            lemma_classify_comparable(cards@);
        }
        let ghost word = cards@;
        let mut cards = cards;
        let flush = cards.get_flush();
        let straight = cards.get_straight();

        if let (Some(flush), Some(straight)) = (flush, straight) {
            if flush == straight {
                return Ok(Outcome::StraightFlush(flush));
            }
        }
        let kinds = cards.get_kinds();
        proof {
            lemma_kinds(word);
            lemma_first_kind(kinds@, 4, 0);
            lemma_first_kind(kinds@, 3, 0);
        }

        if let Some(quads) = find_kind(&kinds, 4) {
            proof {
                lemma_popcount_remove(word, quads@);
            }
            cards.remove_cards(quads.value());
            return match cards.get_highest(1) {
                Some(tail) => Ok(Outcome::FourOfAKind(Cards::from(quads.value() | tail.value()))),
                None => Err(OutcomeError::HighestCardNotFound(cards)),
            };
        }
        let trips = find_kind(&kinds, 3);
        if let Some(trips) = trips {
            if let Some(pair) = find_other(&kinds, trips) {
                proof {
                    lemma_first_other(kinds@, trips, 0);
                }
                return match pair.get_highest(2) {
                    Some(pair) => Ok(
                        Outcome::FullHouse(Cards::from(trips.value() | pair.value())),
                    ),
                    None => Err(OutcomeError::HighestCardNotFound(pair)),
                };
            }
        }
        if let Some(flush) = flush {
            return Ok(Outcome::Flush(flush));
        }
        if let Some(straight) = straight {
            return Ok(Outcome::Straight(straight));
        }
        if let Some(trips) = trips {
            proof {
                lemma_popcount_remove(word, trips@);
            }
            cards.remove_cards(trips.value());
            return match cards.get_highest(2) {
                Some(tail) => Ok(Outcome::ThreeOfAKind(Cards::from(trips.value() | tail.value()))),
                None => Err(OutcomeError::HighestCardNotFound(cards)),
            };
        }
        if kinds.len() >= 2 {
            let high_pair = kinds[0];
            let low_pair = kinds[1];
            proof {
                assert(popcount(kinds@[0]@) == 2);
                assert(popcount(kinds@[1]@) == 2);
                assert(kinds@[0]@ & kinds@[1]@ == 0);
                lemma_popcount_remove(word, high_pair@);
                lemma_popcount_remove(word & !high_pair@, low_pair@);
            }
            cards.remove_cards(high_pair.value());
            cards.remove_cards(low_pair.value());
            return match cards.get_highest(1) {
                Some(tail) => Ok(
                    Outcome::TwoPair(
                        Cards::from(high_pair.value() | low_pair.value() | tail.value()),
                    ),
                ),
                None => Err(OutcomeError::HighestCardNotFound(cards)),
            };
        }
        if kinds.len() == 1 {
            let pair = kinds[0];
            proof {
                assert(popcount(kinds@[0]@) == 2);
                lemma_popcount_remove(word, pair@);
            }
            cards.remove_cards(pair.value());
            return match cards.get_highest(3) {
                Some(tail) => Ok(Outcome::Pair(Cards::from(pair.value() | tail.value()))),
                None => Err(OutcomeError::HighestCardNotFound(cards)),
            };
        }
        match cards.get_highest(5) {
            Some(high_card) => Ok(Outcome::HighCard(high_card)),
            None => Err(OutcomeError::HighestCardNotFound(cards)),
        }
    }
}

/// The cards that a classification keeps are five cards of the hand.
pub proof fn lemma_classify_five(word: u64)
    requires
        popcount(word) >= 5,
    ensures
        popcount(classify_hand(word).hand()@) == 5,
        subset_of(classify_hand(word).hand()@, word),
{
    let flush = flush_of(word);
    let straight = straight_of(word);
    let kinds = kinds_of(word);
    let quads = first_kind(kinds, 4);
    let trips = first_kind(kinds, 3);
    lemma_flush_from(word, 0);
    lemma_straight_from(word, 0);
    lemma_kinds(word);
    lemma_first_kind(kinds, 4, 0);
    lemma_first_kind(kinds, 3, 0);
    if flush is Some && straight is Some && flush == straight {
    } else if quads is Some {
        lemma_part_with_highest(word, quads->0@, 1);
    } else if trips is Some && first_other(kinds, trips->0) is Some {
        let pair = first_other(kinds, trips->0)->0;
        lemma_first_other(kinds, trips->0, 0);
        let i = choose|i: int| 0 <= i < kinds.len() && #[trigger] kinds[i] == trips->0;
        let j = choose|j: int| 0 <= j < kinds.len() && #[trigger] kinds[j] == pair;
        assert(kinds[i]@ & kinds[j]@ == 0) by {
            if i < j {
            } else {
                assert(kinds[j]@ & kinds[i]@ == 0);
                lemma_word_algebra(kinds[j]@, kinds[i]@, 0);
            }
        }
        let two = highest_bits(pair@, 2);
        lemma_highest_bits(pair@, 2);
        lemma_word_algebra(two, pair@, word);
        lemma_word_algebra(trips->0@, trips->0@, 0);
        lemma_disjoint_parts(trips->0@, trips->0@, two, pair@);
        lemma_join_parts(trips->0@, two, word);
    } else if flush is Some {
    } else if straight is Some {
    } else if trips is Some {
        lemma_part_with_highest(word, trips->0@, 2);
    } else if kinds.len() >= 2 {
        let both = kinds[0]@ | kinds[1]@;
        assert(popcount(kinds[0]@) == 2);
        assert(popcount(kinds[1]@) == 2);
        assert(kinds[0]@ & kinds[1]@ == 0);
        lemma_join_parts(kinds[0]@, kinds[1]@, word);
        lemma_word_algebra(word, kinds[0]@, kinds[1]@);
        lemma_part_with_highest(word, both, 1);
    } else if kinds.len() == 1 {
        assert(popcount(kinds[0]@) == 2);
        lemma_part_with_highest(word, kinds[0]@, 3);
    } else {
        lemma_highest_bits(word, 5);
    }
}

/// The five cards of one suit on the ranks of one of the ten windows, from
/// Ace-high down to the wheel, are classified as the straight flush that
/// they are.
pub proof fn lemma_straight_flush_classifies(s: int, w: int)
    requires
        0 <= s < 4,
        0 <= w < 10,
    ensures
        popcount(straight_flush_of(s, w)) == 5,
        classify(straight_flush_of(s, w)) == Ok::<Outcome, OutcomeError>(
            Outcome::StraightFlush(Cards::of(straight_flush_of(s, w))),
        ),
{
    lemma_straight_flush_hand(s, w);
}

/// A straight flush, the five cards of one suit on the ranks of one window,
/// is still classified as itself with up to two unrelated cards beside it.
pub proof fn lemma_straight_flush_with_junk(s: int, w: int, junk: u64)
    requires
        0 <= s < 4,
        0 <= w < 10,
        unrelated(straight_flush_of(s, w), junk),
    ensures
        classify(straight_flush_of(s, w) | junk) == Ok::<Outcome, OutcomeError>(
            Outcome::StraightFlush(Cards::of(straight_flush_of(s, w))),
        ),
{
    let hand = straight_flush_of(s, w);
    lemma_straight_flush_hand(s, w);
    lemma_flush_with_junk(hand, junk);
    lemma_straight_with_junk(hand, junk);
    lemma_word_algebra(hand, junk, 0);
    lemma_popcount_subset(hand, hand | junk);
}

/// A wheel, the straight from the Five down to the Ace, counts its Ace low:
/// a hand that holds both an Ace and a Five is compared without its Aces.
pub open spec fn without_wheel_ace(word: u64) -> u64 {
    if word & ACE != 0 && word & FIVE != 0 {
        word & !ACE
    } else {
        word
    }
}

/// Two hands compared by their group of `size` cards, then by the cards
/// beside it. `None` where a hand has no such group.
pub open spec fn group_order(a: u64, b: u64, size: u32) -> Option<Ordering> {
    let group_a = first_kind(kinds_of(a), size);
    let group_b = first_kind(kinds_of(b), size);
    if group_a is None || group_b is None {
        None
    } else if rank_order(group_a->0@, group_b->0@) != Ordering::Equal {
        Some(rank_order(group_a->0@, group_b->0@))
    } else {
        Some(rank_order(a & !group_a->0@, b & !group_b->0@))
    }
}

/// Two full houses compared by their three of a kind, then by their pair.
/// `None` where a hand lacks the group that the comparison has come to.
pub open spec fn full_house_order(a: u64, b: u64) -> Option<Ordering> {
    let trips_a = first_kind(kinds_of(a), 3);
    let trips_b = first_kind(kinds_of(b), 3);
    let pair_a = first_kind(kinds_of(a), 2);
    let pair_b = first_kind(kinds_of(b), 2);
    if trips_a is None || trips_b is None {
        None
    } else if rank_order(trips_a->0@, trips_b->0@) != Ordering::Equal {
        Some(rank_order(trips_a->0@, trips_b->0@))
    } else if pair_a is None || pair_b is None {
        None
    } else {
        Some(rank_order(pair_a->0@, pair_b->0@))
    }
}

/// Two hands compared by their highest pair, then, where `pairs` is two, by
/// their second pair, then by the cards beside the pairs. `None` where a hand
/// lacks the pair that the comparison has come to.
pub open spec fn pairs_order(a: u64, b: u64, pairs: u8) -> Option<Ordering> {
    let kinds_a = kinds_of(a);
    let kinds_b = kinds_of(b);
    if kinds_a.len() < 1 || kinds_b.len() < 1 {
        None
    } else if rank_order(kinds_a[0]@, kinds_b[0]@) != Ordering::Equal {
        Some(rank_order(kinds_a[0]@, kinds_b[0]@))
    } else if pairs < 2 {
        Some(rank_order(a & !kinds_a[0]@, b & !kinds_b[0]@))
    } else if kinds_a.len() < 2 || kinds_b.len() < 2 {
        None
    } else if rank_order(kinds_a[1]@, kinds_b[1]@) != Ordering::Equal {
        Some(rank_order(kinds_a[1]@, kinds_b[1]@))
    } else {
        Some(rank_order((a & !kinds_a[0]@) & !kinds_a[1]@, (b & !kinds_b[0]@) & !kinds_b[1]@))
    }
}

/// How two outcomes of the category of `a` compare. Equal hands are equal;
/// `None` where the hands are not of the shape that the category promises.
pub open spec fn tie_break(a: Outcome, b: Outcome) -> Option<Ordering> {
    let x = a.hand()@;
    let y = b.hand()@;
    if x == y {
        Some(Ordering::Equal)
    } else {
        match a {
            Outcome::StraightFlush(_) | Outcome::Straight(_) => Some(
                rank_order(without_wheel_ace(x), without_wheel_ace(y)),
            ),
            Outcome::FourOfAKind(_) => group_order(x, y, 4),
            Outcome::FullHouse(_) => full_house_order(x, y),
            Outcome::ThreeOfAKind(_) => group_order(x, y, 3),
            Outcome::TwoPair(_) => pairs_order(x, y, 2),
            Outcome::Pair(_) => pairs_order(x, y, 1),
            Outcome::Flush(_) | Outcome::HighCard(_) => Some(rank_order(x, y)),
        }
    }
}

/// How two outcomes compare: the higher category wins, and inside a
/// category its tie-break decides.
pub open spec fn outcome_order(a: Outcome, b: Outcome) -> Option<Ordering> {
    if a.category() > b.category() {
        Some(Ordering::Greater)
    } else if a.category() < b.category() {
        Some(Ordering::Less)
    } else {
        tie_break(a, b)
    }
}

/// The result of a comparison seen from the other side.
pub open spec fn opposite_result(order: Option<Ordering>) -> Option<Ordering> {
    match order {
        Some(decided) => Some(opposite(decided)),
        None => None,
    }
}

/// Comparing two outcomes the other way round gives the opposite order, and
/// an outcome equals itself.
pub proof fn lemma_outcome_order_opposite(a: Outcome, b: Outcome)
    ensures
        outcome_order(b, a) == opposite_result(outcome_order(a, b)),
        outcome_order(a, a) == Some(Ordering::Equal),
{
    let x = a.hand()@;
    let y = b.hand()@;
    let kinds_x = kinds_of(x);
    let kinds_y = kinds_of(y);
    lemma_rank_order_opposite(without_wheel_ace(x), without_wheel_ace(y), 0);
    lemma_rank_order_opposite(x, y, 0);
    if first_kind(kinds_x, 4) is Some && first_kind(kinds_y, 4) is Some {
        let p = first_kind(kinds_x, 4)->0@;
        let q = first_kind(kinds_y, 4)->0@;
        lemma_rank_order_opposite(p, q, 0);
        lemma_rank_order_opposite(x & !p, y & !q, 0);
    }
    if first_kind(kinds_x, 3) is Some && first_kind(kinds_y, 3) is Some {
        let p = first_kind(kinds_x, 3)->0@;
        let q = first_kind(kinds_y, 3)->0@;
        lemma_rank_order_opposite(p, q, 0);
        lemma_rank_order_opposite(x & !p, y & !q, 0);
    }
    if first_kind(kinds_x, 2) is Some && first_kind(kinds_y, 2) is Some {
        lemma_rank_order_opposite(first_kind(kinds_x, 2)->0@, first_kind(kinds_y, 2)->0@, 0);
    }
    if kinds_x.len() >= 1 && kinds_y.len() >= 1 {
        let first_x = kinds_x[0]@;
        let first_y = kinds_y[0]@;
        lemma_rank_order_opposite(first_x, first_y, 0);
        lemma_rank_order_opposite(x & !first_x, y & !first_y, 0);
        if kinds_x.len() >= 2 && kinds_y.len() >= 2 {
            let second_x = kinds_x[1]@;
            let second_y = kinds_y[1]@;
            lemma_rank_order_opposite(second_x, second_y, 0);
            lemma_rank_order_opposite(
                (x & !first_x) & !second_x,
                (y & !first_y) & !second_y,
                0,
            );
        }
    }
}

/// Outcomes that hold the groups of their category can be told apart.
pub proof fn lemma_comparable(a: Outcome, b: Outcome)
    requires
        a.comparable(),
        b.comparable(),
    ensures
        outcome_order(a, b) is Some,
{
}

/// What a classification gives holds the groups that its category is
/// compared by, so that any two classified hands can be told apart.
pub proof fn lemma_classify_comparable(word: u64)
    requires
        popcount(word) >= 5,
    ensures
        classify_hand(word).comparable(),
{
    let flush = flush_of(word);
    let straight = straight_of(word);
    let kinds = kinds_of(word);
    let quads = first_kind(kinds, 4);
    let trips = first_kind(kinds, 3);
    let result = classify_hand(word).hand()@;
    lemma_kinds(word);
    lemma_first_kind(kinds, 4, 0);
    lemma_first_kind(kinds, 3, 0);
    lemma_first_kind(kinds_of(result), 4, 0);
    lemma_first_kind(kinds_of(result), 3, 0);
    lemma_first_kind(kinds_of(result), 2, 0);
    if flush is Some && straight is Some && flush == straight {
    } else if quads is Some {
        let k = lemma_kind_rank(word, quads->0);
        lemma_group_kept(word, k, 1);
        let i = lemma_kind_listed(result, k, 13);
    } else if trips is Some && first_other(kinds, trips->0) is Some {
        let pair = first_other(kinds, trips->0)->0;
        lemma_first_other(kinds, trips->0, 0);
        let k = lemma_kind_rank(word, trips->0);
        let j = lemma_kind_rank(word, pair);
        let two = highest_bits(pair@, 2);
        lemma_highest_bits(pair@, 2);
        lemma_rank_groups(word, k, j);
        lemma_rank_groups(word, j, k);
        lemma_word_algebra(two, pair@, rank_mask(j));
        lemma_word_algebra(rank_mask(k), rank_mask(k), 0);
        lemma_word_algebra(rank_mask(j), rank_mask(j), 0);
        lemma_disjoint_parts(two, rank_mask(j), rank_mask(k), rank_mask(k));
        lemma_disjoint_parts(trips->0@, rank_mask(k), rank_mask(j), rank_mask(j));
        lemma_rank_part(trips->0@, two, k);
        lemma_rank_part(two, trips->0@, j);
        let i = lemma_kind_listed(result, k, 13);
        let h = lemma_kind_listed(result, j, 13);
    } else if flush is Some {
    } else if straight is Some {
    } else if trips is Some {
        let k = lemma_kind_rank(word, trips->0);
        lemma_group_kept(word, k, 2);
        let i = lemma_kind_listed(result, k, 13);
    } else if kinds.len() >= 2 {
        let a = lemma_kind_rank(word, kinds[0]);
        let b = lemma_kind_rank(word, kinds[1]);
        let high = kinds[0]@;
        let low = kinds[1]@;
        let kicker = highest_bits((word & !high) & !low, 1);
        assert(high & low == 0);
        lemma_rank_groups(word, a, b);
        lemma_rank_groups(word, b, a);
        lemma_popcount_zero(low);
        lemma_highest_bits((word & !high) & !low, 1);
        lemma_word_algebra(high, low, 0);
        lemma_bv_kicker(kicker, word, rank_mask(a), rank_mask(b));
        lemma_word_algebra(rank_mask(a), rank_mask(a), 0);
        lemma_word_algebra(rank_mask(b), rank_mask(b), 0);
        lemma_disjoint_parts(low, rank_mask(b), rank_mask(a), rank_mask(a));
        lemma_disjoint_parts(high, rank_mask(a), rank_mask(b), rank_mask(b));
        lemma_word_algebra(low, kicker, rank_mask(a));
        lemma_word_algebra(high, kicker, rank_mask(b));
        lemma_word_algebra(high, low, kicker);
        lemma_rank_part(high, low | kicker, a);
        lemma_rank_part(low, high | kicker, b);
        lemma_word_algebra(low, high, kicker);
        if a < b {
            lemma_two_kinds(result, a, b, 13);
        } else {
            lemma_two_kinds(result, b, a, 13);
        }
    } else if kinds.len() == 1 {
        let k = lemma_kind_rank(word, kinds[0]);
        assert(popcount(kinds[0]@) == 2);
        lemma_group_kept(word, k, 3);
        let i = lemma_kind_listed(result, k, 13);
    } else {
    }
}

proof fn lemma_bv_kicker(kicker: u64, word: u64, high: u64, low: u64)
    by (bit_vector)
    requires
        kicker & ((word & !(word & high)) & !(word & low)) == kicker,
    ensures
        kicker & high == 0,
        kicker & low == 0,
{
}

/// The rank of a kind of a hand.
proof fn lemma_kind_rank(word: u64, group: Cards) -> (k: int)
    requires
        kinds_of(word).contains(group),
    ensures
        0 <= k < 13,
        group@ == word & rank_mask(k),
        popcount(group@) > 1,
{
    lemma_kinds_upto(word, 13);
    let i = choose|i: int| 0 <= i < kinds_of(word).len() && kinds_of(word)[i] == group;
    assert(is_kind_below(word, kinds_of(word)[i], 13));
    choose|k: int| 0 <= k < 13 && #[trigger] is_kind_of_rank(word, group, k)
}

/// What a hand holds of a rank, joined by the highest of its other cards, is
/// still all that the result holds of that rank.
proof fn lemma_group_kept(word: u64, k: int, n: nat)
    requires
        0 <= k < 13,
    ensures
        ((word & rank_mask(k)) | highest_bits(word & !(word & rank_mask(k)), n)) & rank_mask(k)
            == word & rank_mask(k),
{
    let group = word & rank_mask(k);
    let top = highest_bits(word & !group, n);
    lemma_highest_bits(word & !group, n);
    lemma_word_algebra(top, word, rank_mask(k));
    lemma_word_algebra(word, rank_mask(k), 0);
    lemma_rank_part(group, top, k);
}

/// The order of outcomes is transitive wherever it decides: of three
/// outcomes that can be told apart two by two, the first is less than the
/// third where it is less than the second and the second is not greater than
/// the third, or where it is not greater than the second and the second is
/// less than the third; and it equals the third where it equals the second
/// and the second the third.
pub proof fn lemma_outcome_order_transitive(a: Outcome, b: Outcome, c: Outcome)
    requires
        outcome_order(a, b) is Some,
        outcome_order(b, c) is Some,
        outcome_order(a, c) is Some,
    ensures
        in_order(outcome_order(a, b), outcome_order(b, c), outcome_order(a, c)),
{
    let x = a.hand()@;
    let y = b.hand()@;
    let z = c.hand()@;
    lemma_outcome_order_opposite(b, c);
    if a.category() == b.category() && b.category() == c.category() {
        if x == y {
            assert(a == b);
        } else if y == z {
            assert(b == c);
        } else if x == z {
            assert(a == c);
        } else {
            lemma_tie_break_transitive(a, b, c);
        }
    }
}

proof fn lemma_tie_break_transitive(a: Outcome, b: Outcome, c: Outcome)
    requires
        a.category() == b.category(),
        b.category() == c.category(),
        a.hand() != b.hand(),
        b.hand() != c.hand(),
        a.hand() != c.hand(),
        tie_break(a, b) is Some,
        tie_break(b, c) is Some,
        tie_break(a, c) is Some,
    ensures
        in_order(tie_break(a, b), tie_break(b, c), tie_break(a, c)),
{
    let x = a.hand()@;
    let y = b.hand()@;
    let z = c.hand()@;
    match a {
        Outcome::StraightFlush(_) | Outcome::Straight(_) => {
            lemma_rank_order_transitive(
                without_wheel_ace(x),
                without_wheel_ace(y),
                without_wheel_ace(z),
                0,
            );
        },
        Outcome::FourOfAKind(_) => {
            lemma_group_order_transitive(x, y, z, 4);
        },
        Outcome::ThreeOfAKind(_) => {
            lemma_group_order_transitive(x, y, z, 3);
        },
        Outcome::FullHouse(_) => {
            lemma_full_house_order_transitive(x, y, z);
        },
        Outcome::TwoPair(_) => {
            lemma_pairs_order_transitive(x, y, z, 2);
        },
        Outcome::Pair(_) => {
            lemma_pairs_order_transitive(x, y, z, 1);
        },
        Outcome::Flush(_) | Outcome::HighCard(_) => {
            lemma_rank_order_transitive(x, y, z, 0);
        },
    }
}

/// Whether three results are in keeping with a transitive order: with the
/// first less and the second not greater, or the first not greater and the
/// second less, the outer one is less; with both equal, it is equal.
pub open spec fn in_order(
    first: Option<Ordering>,
    second: Option<Ordering>,
    outer: Option<Ordering>,
) -> bool {
    &&& first == Some(Ordering::Less) && second != Some(Ordering::Greater) ==> outer == Some(
        Ordering::Less,
    )
    &&& first != Some(Ordering::Greater) && second == Some(Ordering::Less) ==> outer == Some(
        Ordering::Less,
    )
    &&& first == Some(Ordering::Equal) && second == Some(Ordering::Equal) ==> outer == Some(
        Ordering::Equal,
    )
}

proof fn lemma_group_order_transitive(x: u64, y: u64, z: u64, size: u32)
    requires
        group_order(x, y, size) is Some,
        group_order(y, z, size) is Some,
        group_order(x, z, size) is Some,
    ensures
        in_order(group_order(x, y, size), group_order(y, z, size), group_order(x, z, size)),
{
    let p = first_kind(kinds_of(x), size)->0@;
    let q = first_kind(kinds_of(y), size)->0@;
    let r = first_kind(kinds_of(z), size)->0@;
    lemma_rank_order_transitive(p, q, r, 0);
    lemma_rank_order_transitive(x & !p, y & !q, z & !r, 0);
}

proof fn lemma_full_house_order_transitive(x: u64, y: u64, z: u64)
    requires
        full_house_order(x, y) is Some,
        full_house_order(y, z) is Some,
        full_house_order(x, z) is Some,
    ensures
        in_order(full_house_order(x, y), full_house_order(y, z), full_house_order(x, z)),
{
    let p = first_kind(kinds_of(x), 3)->0@;
    let q = first_kind(kinds_of(y), 3)->0@;
    let r = first_kind(kinds_of(z), 3)->0@;
    lemma_rank_order_transitive(p, q, r, 0);
    if first_kind(kinds_of(x), 2) is Some && first_kind(kinds_of(y), 2) is Some && first_kind(
        kinds_of(z),
        2,
    ) is Some {
        lemma_rank_order_transitive(
            first_kind(kinds_of(x), 2)->0@,
            first_kind(kinds_of(y), 2)->0@,
            first_kind(kinds_of(z), 2)->0@,
            0,
        );
    }
}

proof fn lemma_pairs_order_transitive(x: u64, y: u64, z: u64, pairs: u8)
    requires
        pairs_order(x, y, pairs) is Some,
        pairs_order(y, z, pairs) is Some,
        pairs_order(x, z, pairs) is Some,
    ensures
        in_order(pairs_order(x, y, pairs), pairs_order(y, z, pairs), pairs_order(x, z, pairs)),
{
    let p = kinds_of(x)[0]@;
    let q = kinds_of(y)[0]@;
    let r = kinds_of(z)[0]@;
    lemma_rank_order_transitive(p, q, r, 0);
    lemma_rank_order_transitive(x & !p, y & !q, z & !r, 0);
    if kinds_of(x).len() >= 2 && kinds_of(y).len() >= 2 && kinds_of(z).len() >= 2 {
        let second_p = kinds_of(x)[1]@;
        let second_q = kinds_of(y)[1]@;
        let second_r = kinds_of(z)[1]@;
        lemma_rank_order_transitive(second_p, second_q, second_r, 0);
        lemma_rank_order_transitive(
            (x & !p) & !second_p,
            (y & !q) & !second_q,
            (z & !r) & !second_r,
            0,
        );
    }
}

/// Strips the Aces of a hand that holds both an Ace and a Five.
fn drop_wheel_ace(cards: Cards) -> (rest: Cards)
    ensures
        rest@ == without_wheel_ace(cards@),
{
    let mut cards = cards;
    if cards.has_any(ACE) && cards.has_any(FIVE) {
        cards.remove_cards(ACE);
    }
    cards
}

/// Compares by the group of `size` cards, then by the other cards.
fn compare_groups(a: Cards, b: Cards, size: u32) -> (order: Option<Ordering>)
    ensures
        order == group_order(a@, b@, size),
{
    let kinds_a = a.get_kinds();
    let kinds_b = b.get_kinds();
    let group_a = match find_kind(&kinds_a, size) {
        Some(group) => group,
        None => return None,
    };
    let group_b = match find_kind(&kinds_b, size) {
        Some(group) => group,
        None => return None,
    };
    match group_a.compare_rank(&group_b) {
        Ordering::Equal => {},
        decided => return Some(decided),
    }
    let rest_a = a.remove(group_a);
    let rest_b = b.remove(group_b);
    Some(rest_a.compare_rank(&rest_b))
}

/// Compares two full houses: the three of a kind first, then the pair.
fn compare_full_houses(a: Cards, b: Cards) -> (order: Option<Ordering>)
    ensures
        order == full_house_order(a@, b@),
{
    let kinds_a = a.get_kinds();
    let kinds_b = b.get_kinds();
    let trips_a = match find_kind(&kinds_a, 3) {
        Some(group) => group,
        None => return None,
    };
    let trips_b = match find_kind(&kinds_b, 3) {
        Some(group) => group,
        None => return None,
    };
    match trips_a.compare_rank(&trips_b) {
        Ordering::Equal => {},
        decided => return Some(decided),
    }
    let pair_a = match find_kind(&kinds_a, 2) {
        Some(group) => group,
        None => return None,
    };
    let pair_b = match find_kind(&kinds_b, 2) {
        Some(group) => group,
        None => return None,
    };
    Some(pair_a.compare_rank(&pair_b))
}

/// Compares by the highest pair, by the second pair where `pairs` is two,
/// then by the other cards.
fn compare_pairs(a: Cards, b: Cards, pairs: u8) -> (order: Option<Ordering>)
    ensures
        order == pairs_order(a@, b@, pairs),
{
    let kinds_a = a.get_kinds();
    let kinds_b = b.get_kinds();
    if kinds_a.len() < 1 || kinds_b.len() < 1 {
        return None;
    }
    let first_a = kinds_a[0];
    let first_b = kinds_b[0];
    match first_a.compare_rank(&first_b) {
        Ordering::Equal => {},
        decided => return Some(decided),
    }
    let rest_a = a.remove(first_a);
    let rest_b = b.remove(first_b);
    if pairs < 2 {
        return Some(rest_a.compare_rank(&rest_b));
    }
    if kinds_a.len() < 2 || kinds_b.len() < 2 {
        return None;
    }
    let second_a = kinds_a[1];
    let second_b = kinds_b[1];
    match second_a.compare_rank(&second_b) {
        Ordering::Equal => {},
        decided => return Some(decided),
    }
    let rest_a = rest_a.remove(second_a);
    let rest_b = rest_b.remove(second_b);
    Some(rest_a.compare_rank(&rest_b))
}

impl Outcome {
    /// The standing of the category: `8` for a straight flush down to `0`
    /// for a high card.
    pub open spec fn category(self) -> u8 {
        match self {
            Outcome::StraightFlush(_) => 8,
            Outcome::FourOfAKind(_) => 7,
            Outcome::FullHouse(_) => 6,
            Outcome::Flush(_) => 5,
            Outcome::Straight(_) => 4,
            Outcome::ThreeOfAKind(_) => 3,
            Outcome::TwoPair(_) => 2,
            Outcome::Pair(_) => 1,
            Outcome::HighCard(_) => 0,
        }
    }

    /// Whether the outcome holds the groups that its category is compared
    /// by: the four or three of a kind, the three of a kind and the pair of
    /// a full house, the pairs of two pair or of a pair.
    pub open spec fn comparable(self) -> bool {
        let kinds = kinds_of(self.hand()@);
        match self {
            Outcome::FourOfAKind(_) => first_kind(kinds, 4) is Some,
            Outcome::FullHouse(_) => first_kind(kinds, 3) is Some && first_kind(kinds, 2) is Some,
            Outcome::ThreeOfAKind(_) => first_kind(kinds, 3) is Some,
            Outcome::TwoPair(_) => kinds.len() >= 2,
            Outcome::Pair(_) => kinds.len() >= 1,
            _ => true,
        }
    }

    /// The cards that the outcome carries.
    pub open spec fn hand(self) -> Cards {
        match self {
            Outcome::StraightFlush(cards) => cards,
            Outcome::FourOfAKind(cards) => cards,
            Outcome::FullHouse(cards) => cards,
            Outcome::Flush(cards) => cards,
            Outcome::Straight(cards) => cards,
            Outcome::ThreeOfAKind(cards) => cards,
            Outcome::TwoPair(cards) => cards,
            Outcome::Pair(cards) => cards,
            Outcome::HighCard(cards) => cards,
        }
    }

    /// The standing of the category: `8` for a straight flush down to `0`
    /// for a high card.
    pub fn category_rank(&self) -> (rank: u8)
        ensures
            rank == self.category(),
    {
        match self {
            Outcome::StraightFlush(_) => 8,
            Outcome::FourOfAKind(_) => 7,
            Outcome::FullHouse(_) => 6,
            Outcome::Flush(_) => 5,
            Outcome::Straight(_) => 4,
            Outcome::ThreeOfAKind(_) => 3,
            Outcome::TwoPair(_) => 2,
            Outcome::Pair(_) => 1,
            Outcome::HighCard(_) => 0,
        }
    }

    /// The cards that the outcome carries.
    pub fn cards(&self) -> (cards: Cards)
        ensures
            cards == self.hand(),
    {
        match self {
            Outcome::StraightFlush(cards) => *cards,
            Outcome::FourOfAKind(cards) => *cards,
            Outcome::FullHouse(cards) => *cards,
            Outcome::Flush(cards) => *cards,
            Outcome::Straight(cards) => *cards,
            Outcome::ThreeOfAKind(cards) => *cards,
            Outcome::TwoPair(cards) => *cards,
            Outcome::Pair(cards) => *cards,
            Outcome::HighCard(cards) => *cards,
        }
    }

    /// Compares two outcomes; where `partial_cmp` cannot tell, they count as equal.
    pub fn cmp(&self, other: &Outcome) -> (order: Ordering)
        ensures
            order == match outcome_order(*self, *other) {
                Some(decided) => decided,
                None => Ordering::Equal,
            },
    {
        match self.partial_cmp(other) {
            Some(decided) => decided,
            None => Ordering::Equal,
        }
    }
}

impl vstd::std_specs::cmp::PartialOrdSpecImpl for Outcome {
    open spec fn obeys_partial_cmp_spec() -> bool {
        true
    }

    open spec fn partial_cmp_spec(&self, other: &Outcome) -> Option<Ordering> {
        outcome_order(*self, *other)
    }
}

impl PartialOrd for Outcome {
    /// Compares two outcomes: by category first, then by the tie-break of
    /// their common category.
    fn partial_cmp(&self, other: &Outcome) -> (order: Option<Ordering>) {
        let mine = self.category_rank();
        let theirs = other.category_rank();
        if mine > theirs {
            return Some(Ordering::Greater);
        }
        if mine < theirs {
            return Some(Ordering::Less);
        }
        let a = self.cards();
        let b = other.cards();
        if a == b {
            return Some(Ordering::Equal);
        }
        match self {
            Outcome::StraightFlush(_) | Outcome::Straight(_) => {
                let a = drop_wheel_ace(a);
                let b = drop_wheel_ace(b);
                Some(a.compare_rank(&b))
            },
            Outcome::FourOfAKind(_) => compare_groups(a, b, 4),
            Outcome::FullHouse(_) => compare_full_houses(a, b),
            Outcome::ThreeOfAKind(_) => compare_groups(a, b, 3),
            Outcome::TwoPair(_) => compare_pairs(a, b, 2),
            Outcome::Pair(_) => compare_pairs(a, b, 1),
            Outcome::Flush(_) | Outcome::HighCard(_) => Some(a.compare_rank(&b)),
        }
    }
}

} // verus!
