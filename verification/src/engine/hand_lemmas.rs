//! What holds of the flush, the straight and the kinds of a hand: the facts
//! that the classification of hands rests on.

use crate::engine::cards::{
    best_of_rank, flush_from, flush_of, kinds_of, kinds_upto, straight_from, straight_of,
    window_cards, window_filled, window_rank, Cards,
};
use crate::engine::constants::{lemma_layout, rank_mask, rank_of, suit_mask, suit_of};
use crate::util::bits::{
    bit_at, count_below, highest_bits, lemma_bit_consts, lemma_bit_ops, lemma_bits_equal,
    lemma_count_below_all, lemma_count_below_zero, lemma_disjoint_parts, lemma_highest_bits,
    lemma_join_parts, lemma_no_bit, lemma_popcount_remove, lemma_popcount_single,
    lemma_popcount_subset, lemma_popcount_zero, lemma_some_bit, lemma_word_algebra, popcount,
    single, subset_of,
};
use vstd::prelude::*;

verus! {

/// Whether `group` is what `word` holds of the rank with index `k`, and a kind.
pub open spec fn is_kind_of_rank(word: u64, group: Cards, k: int) -> bool {
    group@ == word & rank_mask(k) && popcount(group@) > 1
}

/// Whether `group` is a kind that `word` holds in one of the first `r` ranks.
pub open spec fn is_kind_below(word: u64, group: Cards, r: int) -> bool {
    exists|k: int| 0 <= k < r && #[trigger] is_kind_of_rank(word, group, k)
}

/// A rank has four cards; what a hand holds of it is part of the hand, and
/// apart from what it holds of any other rank.
pub proof fn lemma_rank_groups(word: u64, a: int, b: int)
    requires
        0 <= a < 13,
        0 <= b < 13,
    ensures
        popcount(rank_mask(a)) == 4,
        popcount(word & rank_mask(a)) <= 4,
        subset_of(word & rank_mask(a), word),
        subset_of(word & rank_mask(a), rank_mask(a)),
        a != b ==> (word & rank_mask(a)) & (word & rank_mask(b)) == 0,
        a != b ==> rank_mask(a) & rank_mask(b) == 0,
{
    if a != b {
        lemma_layout();
        lemma_bit_ops(rank_mask(a), rank_mask(b));
        lemma_no_bit(rank_mask(a) & rank_mask(b));
    }
    let m = rank_mask(a);
    let lo = 48 - 4 * a;
    lemma_layout();
    lemma_count_below_zero(m, lo);
    assert(count_below(m, lo + 4) == 4) by {
        assert(bit_at(m, lo) && bit_at(m, lo + 1) && bit_at(m, lo + 2) && bit_at(m, lo + 3));
        assert(count_below(m, lo + 1) == 1);
        assert(count_below(m, lo + 2) == 2);
        assert(count_below(m, lo + 3) == 3);
    }
    lemma_count_below_all(m, lo + 4);
    lemma_popcount_remove(word, m);
    lemma_word_algebra(word, m, word);
    if a != b {
        let x = (word & m) & (word & rank_mask(b));
        lemma_bit_ops(word, m);
        lemma_bit_ops(word, rank_mask(b));
        lemma_bit_ops(word & m, word & rank_mask(b));
        lemma_bits_equal(x, 0);
    }
}

/// Each kind is what the hand holds of one rank, and no two kinds share a card.
pub proof fn lemma_kinds_upto(word: u64, r: int)
    requires
        0 <= r <= 13,
    ensures
        kinds_upto(word, r).len() <= r,
        forall|i: int|
            0 <= i < kinds_upto(word, r).len() ==> #[trigger] is_kind_below(
                word,
                kinds_upto(word, r)[i],
                r,
            ),
        forall|i: int, j: int|
            0 <= i < j < kinds_upto(word, r).len() ==> #[trigger] kinds_upto(word, r)[i]@
                & #[trigger] kinds_upto(word, r)[j]@ == 0,
    decreases r,
{
    if r > 0 {
        lemma_kinds_upto(word, r - 1);
        let before = kinds_upto(word, r - 1);
        let now = kinds_upto(word, r);
        if popcount(word & rank_mask(r - 1)) > 1 {
            let g = Cards::of(word & rank_mask(r - 1));
            assert(is_kind_of_rank(word, g, r - 1));
            assert forall|i: int| 0 <= i < now.len() implies #[trigger] is_kind_below(
                word,
                now[i],
                r,
            ) by {
                if i < before.len() {
                    assert(is_kind_below(word, before[i], r - 1));
                    let k = choose|k: int|
                        0 <= k < r - 1 && #[trigger] is_kind_of_rank(word, before[i], k);
                    assert(is_kind_of_rank(word, now[i], k));
                }
            }
            assert forall|i: int, j: int| 0 <= i < j < now.len() implies #[trigger] now[i]@
                & #[trigger] now[j]@ == 0 by {
                if j == before.len() {
                    assert(is_kind_below(word, before[i], r - 1));
                    let k = choose|k: int|
                        0 <= k < r - 1 && #[trigger] is_kind_of_rank(word, before[i], k);
                    lemma_rank_groups(word, k, r - 1);
                }
            }
        } else {
            assert forall|i: int| 0 <= i < now.len() implies #[trigger] is_kind_below(
                word,
                now[i],
                r,
            ) by {
                assert(is_kind_below(word, before[i], r - 1));
                let k = choose|k: int|
                    0 <= k < r - 1 && #[trigger] is_kind_of_rank(word, before[i], k);
                assert(is_kind_of_rank(word, now[i], k));
            }
        }
    }
}

/// A rank of which the hand holds two cards or more is among its kinds.
pub proof fn lemma_kind_listed(word: u64, k: int, r: int) -> (i: int)
    requires
        0 <= k < r <= 13,
        popcount(word & rank_mask(k)) > 1,
    ensures
        0 <= i < kinds_upto(word, r).len(),
        kinds_upto(word, r)[i]@ == word & rank_mask(k),
    decreases r,
{
    if k == r - 1 {
        kinds_upto(word, r).len() - 1
    } else {
        lemma_kind_listed(word, k, r - 1)
    }
}

/// A hand that holds two cards or more of each of two ranks has two kinds.
pub proof fn lemma_two_kinds(word: u64, a: int, b: int, r: int)
    requires
        0 <= a < b < r <= 13,
        popcount(word & rank_mask(a)) > 1,
        popcount(word & rank_mask(b)) > 1,
    ensures
        kinds_upto(word, r).len() >= 2,
    decreases r,
{
    if b == r - 1 {
        let i = lemma_kind_listed(word, a, r - 1);
    } else {
        lemma_two_kinds(word, a, b, r - 1);
    }
}

/// Cards of one rank together with cards of other ranks: what the whole
/// holds of that rank are the former.
pub proof fn lemma_rank_part(part: u64, others: u64, k: int)
    requires
        subset_of(part, rank_mask(k)),
        others & rank_mask(k) == 0,
    ensures
        (part | others) & rank_mask(k) == part,
        (others | part) & rank_mask(k) == part,
{
    lemma_word_algebra(others, part, rank_mask(k));
    lemma_word_algebra(part, 0, 0);
}

/// What holds of every kind of a hand: it is part of the hand, it has two,
/// three or four cards, and it shares no card with another kind.
pub proof fn lemma_kinds(word: u64)
    ensures
        kinds_of(word).len() <= 13,
        forall|i: int|
            0 <= i < kinds_of(word).len() ==> subset_of(#[trigger] kinds_of(word)[i]@, word) && 2
                <= popcount(kinds_of(word)[i]@) <= 4,
        forall|i: int, j: int|
            0 <= i < j < kinds_of(word).len() ==> #[trigger] kinds_of(word)[i]@
                & #[trigger] kinds_of(word)[j]@ == 0,
{
    lemma_kinds_upto(word, 13);
    let ks = kinds_of(word);
    assert forall|i: int| 0 <= i < ks.len() implies subset_of(#[trigger] ks[i]@, word) && 2
        <= popcount(ks[i]@) <= 4 by {
        assert(is_kind_below(word, ks[i], 13));
        let k = choose|k: int| 0 <= k < 13 && #[trigger] is_kind_of_rank(word, ks[i], k);
        lemma_rank_groups(word, k, k);
    }
}

/// A flush holds five cards of the hand.
pub proof fn lemma_flush_from(word: u64, s: int)
    requires
        0 <= s,
    ensures
        flush_from(word, s) matches Some(flush) ==> popcount(flush@) == 5 && subset_of(
            flush@,
            word,
        ),
    decreases 4 - s,
{
    if s < 4 {
        let suited = word & suit_mask(s);
        if popcount(suited) >= 5 {
            lemma_highest_bits(suited, 5);
            lemma_word_algebra(word, suit_mask(s), word);
            lemma_word_algebra(highest_bits(suited, 5), suited, word);
        } else {
            lemma_flush_from(word, s + 1);
        }
    }
}

/// The best card of a rank that the hand holds is one card of the hand, and
/// the best cards of two ranks differ.
pub proof fn lemma_best_of_rank(word: u64, a: int, b: int)
    requires
        0 <= a < 13,
        0 <= b < 13,
        word & rank_mask(a) != 0,
    ensures
        popcount(best_of_rank(word, a)) == 1,
        subset_of(best_of_rank(word, a), word),
        subset_of(best_of_rank(word, a), word & rank_mask(a)),
        a != b ==> best_of_rank(word, a) & best_of_rank(word, b) == 0,
{
    let group = word & rank_mask(a);
    let other = word & rank_mask(b);
    lemma_popcount_zero(group);
    lemma_highest_bits(group, 1);
    lemma_highest_bits(other, 1);
    lemma_rank_groups(word, a, b);
    lemma_word_algebra(best_of_rank(word, a), group, word);
    if a != b {
        lemma_disjoint_parts(best_of_rank(word, a), group, best_of_rank(word, b), other);
    }
}

/// The cards of a filled window are five cards of the hand.
pub proof fn lemma_window_cards(word: u64, w: int)
    requires
        0 <= w < 10,
        window_filled(word, w),
    ensures
        popcount(window_cards(word, w)) == 5,
        subset_of(window_cards(word, w), word),
{
    let r0 = window_rank(w, 0);
    let r1 = window_rank(w, 1);
    let r2 = window_rank(w, 2);
    let r3 = window_rank(w, 3);
    let r4 = window_rank(w, 4);
    let b0 = best_of_rank(word, r0);
    let b1 = best_of_rank(word, r1);
    let b2 = best_of_rank(word, r2);
    let b3 = best_of_rank(word, r3);
    let b4 = best_of_rank(word, r4);
    lemma_best_of_rank(word, r0, r1);
    lemma_best_of_rank(word, r0, r2);
    lemma_best_of_rank(word, r0, r3);
    lemma_best_of_rank(word, r0, r4);
    lemma_best_of_rank(word, r1, r2);
    lemma_best_of_rank(word, r1, r3);
    lemma_best_of_rank(word, r1, r4);
    lemma_best_of_rank(word, r2, r3);
    lemma_best_of_rank(word, r2, r4);
    lemma_best_of_rank(word, r3, r4);
    lemma_best_of_rank(word, r4, r4);
    lemma_join_parts(b0, b1, word);
    lemma_word_algebra(b0, b1, b2);
    lemma_join_parts(b0 | b1, b2, word);
    lemma_word_algebra(b0, b1, b3);
    lemma_word_algebra(b0 | b1, b2, b3);
    lemma_join_parts(b0 | b1 | b2, b3, word);
    lemma_word_algebra(b0, b1, b4);
    lemma_word_algebra(b0 | b1, b2, b4);
    lemma_word_algebra(b0 | b1 | b2, b3, b4);
    lemma_join_parts(b0 | b1 | b2 | b3, b4, word);
}

/// A straight holds five cards of the hand.
pub proof fn lemma_straight_from(word: u64, w: int)
    requires
        0 <= w,
    ensures
        straight_from(word, w) matches Some(straight) ==> popcount(straight@) == 5 && subset_of(
            straight@,
            word,
        ),
    decreases 10 - w,
{
    if w < 10 {
        if window_filled(word, w) {
            lemma_window_cards(word, w);
        } else {
            lemma_straight_from(word, w + 1);
        }
    }
}

/// The index of the first suit from `s` on of which `word` holds five
/// cards, or `4` where there is none.
pub open spec fn first_suit(word: u64, s: int) -> int
    decreases 4 - s,
{
    if s >= 4 {
        4
    } else if popcount(word & suit_mask(s)) >= 5 {
        s
    } else {
        first_suit(word, s + 1)
    }
}

/// The index of the first window from `w` on that `word` fills, or `10`
/// where there is none.
pub open spec fn first_window(word: u64, w: int) -> int
    decreases 10 - w,
{
    if w >= 10 {
        10
    } else if window_filled(word, w) {
        w
    } else {
        first_window(word, w + 1)
    }
}

/// The flush of a hand is made of the first suit that has five cards.
pub proof fn lemma_first_suit(word: u64, s: int)
    requires
        0 <= s <= 4,
    ensures
        s <= first_suit(word, s) <= 4,
        forall|u: int| s <= u < first_suit(word, s) ==> popcount(word & suit_mask(u)) < 5,
        first_suit(word, s) < 4 ==> popcount(word & suit_mask(first_suit(word, s))) >= 5,
        flush_from(word, s) == if first_suit(word, s) < 4 {
            Some(Cards::of(highest_bits(word & suit_mask(first_suit(word, s)), 5)))
        } else {
            None
        },
    decreases 4 - s,
{
    if s < 4 && popcount(word & suit_mask(s)) < 5 {
        lemma_first_suit(word, s + 1);
    }
}

/// The straight of a hand is made of the first window that is filled.
pub proof fn lemma_first_window(word: u64, w: int)
    requires
        0 <= w <= 10,
    ensures
        w <= first_window(word, w) <= 10,
        forall|v: int| w <= v < first_window(word, w) ==> !window_filled(word, v),
        first_window(word, w) < 10 ==> window_filled(word, first_window(word, w)),
        straight_from(word, w) == if first_window(word, w) < 10 {
            Some(Cards::of(window_cards(word, first_window(word, w))))
        } else {
            None
        },
    decreases 10 - w,
{
    if w < 10 && !window_filled(word, w) {
        lemma_first_window(word, w + 1);
    }
}

/// A hand that holds cards of three ranks holds three cards.
pub proof fn lemma_three_ranks(word: u64, a: int, b: int, c: int)
    requires
        0 <= a < 13,
        0 <= b < 13,
        0 <= c < 13,
        a != b,
        a != c,
        b != c,
        word & rank_mask(a) != 0,
        word & rank_mask(b) != 0,
        word & rank_mask(c) != 0,
    ensures
        popcount(word) >= 3,
{
    let x = word & rank_mask(a);
    let y = word & rank_mask(b);
    let z = word & rank_mask(c);
    lemma_rank_groups(word, a, b);
    lemma_rank_groups(word, a, c);
    lemma_rank_groups(word, b, c);
    lemma_rank_groups(word, c, a);
    lemma_popcount_zero(x);
    lemma_popcount_zero(y);
    lemma_popcount_zero(z);
    lemma_join_parts(x, y, word);
    lemma_word_algebra(x, y, z);
    lemma_join_parts(x | y, z, word);
    lemma_popcount_subset(x | y | z, word);
}

/// Whether the cards `junk` have nothing to do with the cards of `hand`: they
/// are at most two, and none of them has the suit of a card of the hand, its
/// rank, or the rank next above it.
pub open spec fn unrelated(hand: u64, junk: u64) -> bool {
    &&& popcount(junk) <= 2
    &&& forall|p: int, q: int|
        bit_at(junk, p) && bit_at(hand, q) ==> suit_of(p) != suit_of(q) && rank_of(p) != rank_of(q)
            && rank_of(p) + 1 != rank_of(q)
}

/// Whether the rank with index `r` is one of the five ranks of window `w`.
pub open spec fn in_window(w: int, r: int) -> bool {
    r == window_rank(w, 0) || r == window_rank(w, 1) || r == window_rank(w, 2) || r
        == window_rank(w, 3) || r == window_rank(w, 4)
}

/// The cards of a filled window have the ranks of the window.
pub proof fn lemma_window_ranks(word: u64, w: int)
    requires
        0 <= w < 10,
        window_filled(word, w),
    ensures
        forall|q: int| #[trigger]
            bit_at(window_cards(word, w), q) ==> 0 <= q < 52 && in_window(w, rank_of(q)),
{
    let r0 = window_rank(w, 0);
    let r1 = window_rank(w, 1);
    let r2 = window_rank(w, 2);
    let r3 = window_rank(w, 3);
    let r4 = window_rank(w, 4);
    let b0 = best_of_rank(word, r0);
    let b1 = best_of_rank(word, r1);
    let b2 = best_of_rank(word, r2);
    let b3 = best_of_rank(word, r3);
    let b4 = best_of_rank(word, r4);
    lemma_layout();
    lemma_best_of_rank(word, r0, r0);
    lemma_best_of_rank(word, r1, r1);
    lemma_best_of_rank(word, r2, r2);
    lemma_best_of_rank(word, r3, r3);
    lemma_best_of_rank(word, r4, r4);
    lemma_popcount_subset(b0, word & rank_mask(r0));
    lemma_popcount_subset(b1, word & rank_mask(r1));
    lemma_popcount_subset(b2, word & rank_mask(r2));
    lemma_popcount_subset(b3, word & rank_mask(r3));
    lemma_popcount_subset(b4, word & rank_mask(r4));
    lemma_bit_ops(word, rank_mask(r0));
    lemma_bit_ops(word, rank_mask(r1));
    lemma_bit_ops(word, rank_mask(r2));
    lemma_bit_ops(word, rank_mask(r3));
    lemma_bit_ops(word, rank_mask(r4));
    lemma_bit_ops(b0, b1);
    lemma_bit_ops(b0 | b1, b2);
    lemma_bit_ops(b0 | b1 | b2, b3);
    lemma_bit_ops(b0 | b1 | b2 | b3, b4);
}

/// A rank of which the hand holds a card is a rank of which unrelated cards
/// hold none, so that they add nothing to what the hand holds of it.
pub proof fn lemma_rank_unchanged(hand: u64, junk: u64, r: int)
    requires
        0 <= r < 13,
        hand & rank_mask(r) != 0,
        unrelated(hand, junk),
    ensures
        junk & rank_mask(r) == 0,
        (hand | junk) & rank_mask(r) == hand & rank_mask(r),
{
    let mask = rank_mask(r);
    let q = lemma_some_bit(hand & mask);
    lemma_layout();
    lemma_bit_ops(hand, mask);
    lemma_bit_ops(junk, mask);
    assert(bit_at(hand, q) && rank_of(q) == r);
    assert forall|p: int| 0 <= p < 64 implies !bit_at(junk & mask, p) by {
        if bit_at(junk, p) && bit_at(mask, p) {
            assert(rank_of(p) != rank_of(q));
        }
    }
    lemma_no_bit(junk & mask);
    lemma_word_algebra(hand, junk, mask);
    lemma_word_algebra(hand & mask, 0, 0);
}

/// Unrelated cards hold no card of the rank next above a rank of the hand.
pub proof fn lemma_rank_above_free(hand: u64, junk: u64, r: int)
    requires
        1 <= r < 13,
        hand & rank_mask(r) != 0,
        unrelated(hand, junk),
    ensures
        junk & rank_mask(r - 1) == 0,
{
    let q = lemma_some_bit(hand & rank_mask(r));
    let above = rank_mask(r - 1);
    lemma_layout();
    lemma_bit_ops(hand, rank_mask(r));
    lemma_bit_ops(junk, above);
    assert(bit_at(hand, q) && rank_of(q) == r);
    assert forall|p: int| 0 <= p < 64 implies !bit_at(junk & above, p) by {
        if bit_at(junk, p) && bit_at(above, p) {
            assert(rank_of(p) + 1 != rank_of(q));
        }
    }
    lemma_no_bit(junk & above);
}

/// A hand whose cards are those of its straight holds no card of a rank
/// outside that straight's window.
pub proof fn lemma_rank_outside_window(hand: u64, w: int, r: int)
    requires
        0 <= w < 10,
        window_filled(hand, w),
        hand == window_cards(hand, w),
        0 <= r < 13,
        !in_window(w, r),
    ensures
        hand & rank_mask(r) == 0,
{
    lemma_window_ranks(hand, w);
    lemma_layout();
    lemma_bit_ops(hand, rank_mask(r));
    assert forall|q: int| 0 <= q < 64 implies !bit_at(hand & rank_mask(r), q) by {
        if bit_at(hand, q) {
            assert(bit_at(window_cards(hand, w), q));
        }
    }
    lemma_no_bit(hand & rank_mask(r));
}

/// The cards of the five ranks of window `w`, of every suit.
pub open spec fn window_mask(w: int) -> u64 {
    rank_mask(window_rank(w, 0)) | rank_mask(window_rank(w, 1)) | rank_mask(window_rank(w, 2))
        | rank_mask(window_rank(w, 3)) | rank_mask(window_rank(w, 4))
}

/// The straight flush of the suit with index `s` on window `w`: the five
/// cards of that suit whose ranks are those of the window.
pub open spec fn straight_flush_of(s: int, w: int) -> u64 {
    suit_mask(s) & window_mask(w)
}

/// The bit position of the card of the rank with index `r` and the suit
/// with index `s`.
pub open spec fn card_position(r: int, s: int) -> int {
    4 * (12 - r) + (3 - s)
}

/// The cards of a straight flush are those of its suit on the ranks of its window.
pub proof fn lemma_straight_flush_members(s: int, w: int)
    requires
        0 <= s < 4,
        0 <= w < 10,
    ensures
        forall|q: int| #[trigger]
            bit_at(straight_flush_of(s, w), q) <==> 0 <= q < 52 && suit_of(q) == s && in_window(
                w,
                rank_of(q),
            ),
{
    let r0 = rank_mask(window_rank(w, 0));
    let r1 = rank_mask(window_rank(w, 1));
    let r2 = rank_mask(window_rank(w, 2));
    let r3 = rank_mask(window_rank(w, 3));
    let r4 = rank_mask(window_rank(w, 4));
    lemma_layout();
    lemma_bit_ops(r0, r1);
    lemma_bit_ops(r0 | r1, r2);
    lemma_bit_ops(r0 | r1 | r2, r3);
    lemma_bit_ops(r0 | r1 | r2 | r3, r4);
    lemma_bit_ops(suit_mask(s), window_mask(w));
}

/// Of each rank of its window a straight flush holds one card, which is
/// then the best it holds of that rank; of any other rank it holds none.
pub proof fn lemma_straight_flush_rank(s: int, w: int, r: int)
    requires
        0 <= s < 4,
        0 <= w < 10,
        0 <= r < 13,
    ensures
        in_window(w, r) ==> straight_flush_of(s, w) & rank_mask(r) == single(card_position(r, s)),
        in_window(w, r) ==> best_of_rank(straight_flush_of(s, w), r) == single(
            card_position(r, s),
        ),
        in_window(w, r) ==> straight_flush_of(s, w) & rank_mask(r) != 0,
        !in_window(w, r) ==> straight_flush_of(s, w) & rank_mask(r) == 0,
{
    let hand = straight_flush_of(s, w);
    let group = hand & rank_mask(r);
    lemma_straight_flush_members(s, w);
    lemma_layout();
    lemma_bit_ops(hand, rank_mask(r));
    lemma_bit_consts();
    if in_window(w, r) {
        let q = card_position(r, s);
        assert forall|p: int| 0 <= p < 64 implies bit_at(group, p) == bit_at(single(q), p) by {
            assert(bit_at(group, p) == (bit_at(hand, p) && bit_at(rank_mask(r), p)));
        }
        lemma_bits_equal(group, single(q));
        lemma_popcount_single(q);
        lemma_highest_bits(group, 1);
    } else {
        assert forall|p: int| 0 <= p < 64 implies !bit_at(group, p) by {
            assert(bit_at(group, p) == (bit_at(hand, p) && bit_at(rank_mask(r), p)));
        }
        lemma_no_bit(group);
    }
}

/// A straight flush has five cards, and it is its own flush and its own straight.
pub proof fn lemma_straight_flush_hand(s: int, w: int)
    requires
        0 <= s < 4,
        0 <= w < 10,
    ensures
        popcount(straight_flush_of(s, w)) == 5,
        flush_of(straight_flush_of(s, w)) == Some(Cards::of(straight_flush_of(s, w))),
        straight_of(straight_flush_of(s, w)) == Some(Cards::of(straight_flush_of(s, w))),
{
    let hand = straight_flush_of(s, w);
    let r0 = window_rank(w, 0);
    let r1 = window_rank(w, 1);
    let r2 = window_rank(w, 2);
    let r3 = window_rank(w, 3);
    let r4 = window_rank(w, 4);
    lemma_straight_flush_members(s, w);
    lemma_straight_flush_rank(s, w, r0);
    lemma_straight_flush_rank(s, w, r1);
    lemma_straight_flush_rank(s, w, r2);
    lemma_straight_flush_rank(s, w, r3);
    lemma_straight_flush_rank(s, w, r4);
    assert(window_filled(hand, w));
    // The cards of the window are the hand itself.
    let b0 = single(card_position(r0, s));
    let b1 = single(card_position(r1, s));
    let b2 = single(card_position(r2, s));
    let b3 = single(card_position(r3, s));
    let b4 = single(card_position(r4, s));
    assert(window_cards(hand, w) == b0 | b1 | b2 | b3 | b4);
    lemma_bit_consts();
    lemma_bit_ops(b0, b1);
    lemma_bit_ops(b0 | b1, b2);
    lemma_bit_ops(b0 | b1 | b2, b3);
    lemma_bit_ops(b0 | b1 | b2 | b3, b4);
    assert forall|q: int| 0 <= q < 64 implies bit_at(window_cards(hand, w), q) == bit_at(
        hand,
        q,
    ) by {
        assert(bit_at(hand, q) <==> 0 <= q < 52 && suit_of(q) == s && in_window(w, rank_of(q)));
    }
    lemma_bits_equal(window_cards(hand, w), hand);
    lemma_window_cards(hand, w);
    // No higher window is filled: each has a rank that is none of the hand's.
    assert forall|v: int| 0 <= v < w implies !window_filled(hand, v) by {
        let missing = if v == 0 && w == 9 {
            1int
        } else {
            v
        };
        assert(!in_window(w, missing));
        lemma_straight_flush_rank(s, w, missing);
        assert(missing == window_rank(v, 0) || missing == window_rank(v, 1));
    }
    lemma_first_window(hand, 0);
    // The hand is all of one suit, and has nothing of another.
    lemma_layout();
    assert forall|u: int| 0 <= u < 4 implies #[trigger] (hand & suit_mask(u)) == (if u == s {
        hand
    } else {
        0
    }) by {
        lemma_bit_ops(hand, suit_mask(u));
        if u == s {
            lemma_bits_equal(hand & suit_mask(u), hand);
        } else {
            lemma_no_bit(hand & suit_mask(u));
        }
    }
    lemma_popcount_zero(0);
    lemma_first_suit(hand, 0);
    assert(hand & suit_mask(s) == hand);
    lemma_highest_bits(hand, 5);
}

/// A flush of five cards stays the flush when unrelated cards join it.
pub proof fn lemma_flush_with_junk(hand: u64, junk: u64)
    requires
        popcount(hand) == 5,
        flush_of(hand) == Some(Cards::of(hand)),
        unrelated(hand, junk),
    ensures
        flush_of(hand | junk) == Some(Cards::of(hand)),
{
    let both = hand | junk;
    let t = first_suit(hand, 0);
    lemma_first_suit(hand, 0);
    let suited = hand & suit_mask(t);
    lemma_highest_bits(suited, 5);
    lemma_popcount_subset(hand, suited);
    lemma_bit_ops(hand, suit_mask(t));
    lemma_layout();
    lemma_popcount_zero(hand);
    let q0 = lemma_some_bit(hand);
    assert(forall|q: int| bit_at(hand, q) ==> 0 <= q < 52 && suit_of(q) == t) by {
        assert forall|q: int| bit_at(hand, q) implies 0 <= q < 52 && suit_of(q) == t by {
            assert(bit_at(suited, q));
        }
    }
    assert forall|u: int| 0 <= u < 4 implies #[trigger] (both & suit_mask(u)) == (if u == t {
        hand
    } else {
        junk & suit_mask(u)
    }) by {
        lemma_word_algebra(hand, junk, suit_mask(u));
        lemma_bit_ops(hand, suit_mask(u));
        lemma_bit_ops(junk, suit_mask(u));
        if u == t {
            assert forall|p: int| 0 <= p < 64 implies !bit_at(junk & suit_mask(t), p) by {
                if bit_at(junk, p) && bit_at(suit_mask(t), p) {
                    assert(suit_of(p) != suit_of(q0));
                }
            }
            lemma_no_bit(junk & suit_mask(t));
            lemma_bits_equal(hand & suit_mask(t), hand);
        } else {
            lemma_no_bit(hand & suit_mask(u));
            lemma_word_algebra(junk & suit_mask(u), 0, 0);
        }
    }
    assert forall|u: int| 0 <= u < 4 && u != t implies popcount(#[trigger] (both & suit_mask(u)))
        <= 2 by {
        lemma_popcount_remove(junk, suit_mask(u));
    }
    lemma_first_suit(both, 0);
    let found = first_suit(both, 0);
    assert(found == t) by {
        if found < t {
            assert(popcount(both & suit_mask(found)) <= 2);
        } else if t < found {
            assert(both & suit_mask(t) == hand);
        }
    }
    assert(both & suit_mask(t) == hand);
    lemma_highest_bits(hand, 5);
}

/// A straight of five cards stays the straight when unrelated cards join it.
pub proof fn lemma_straight_with_junk(hand: u64, junk: u64)
    requires
        popcount(hand) == 5,
        straight_of(hand) == Some(Cards::of(hand)),
        unrelated(hand, junk),
    ensures
        straight_of(hand | junk) == Some(Cards::of(hand)),
{
    let both = hand | junk;
    let w = first_window(hand, 0);
    lemma_first_window(hand, 0);
    assert(hand == window_cards(hand, w));
    lemma_rank_unchanged(hand, junk, window_rank(w, 0));
    lemma_rank_unchanged(hand, junk, window_rank(w, 1));
    lemma_rank_unchanged(hand, junk, window_rank(w, 2));
    lemma_rank_unchanged(hand, junk, window_rank(w, 3));
    lemma_rank_unchanged(hand, junk, window_rank(w, 4));
    assert(window_filled(both, w));
    assert(window_cards(both, w) == hand);
    assert forall|v: int| 0 <= v < w implies !window_filled(both, v) by {
        if v >= w - 5 {
            let r = w - 1;
            let k = r - v;
            assert(window_rank(v, k) == r);
            assert(!in_window(w, r));
            lemma_rank_outside_window(hand, w, r);
            lemma_rank_above_free(hand, junk, w);
            lemma_word_algebra(hand, junk, rank_mask(r));
            assert(both & rank_mask(r) == 0);
            assert(k == 0 || k == 1 || k == 2 || k == 3 || k == 4);
        } else {
            let a = v + 1;
            let b = v + 2;
            let c = v + 3;
            assert(!in_window(w, a) && !in_window(w, b) && !in_window(w, c));
            lemma_rank_outside_window(hand, w, a);
            lemma_rank_outside_window(hand, w, b);
            lemma_rank_outside_window(hand, w, c);
            lemma_word_algebra(hand, junk, rank_mask(a));
            lemma_word_algebra(hand, junk, rank_mask(b));
            lemma_word_algebra(hand, junk, rank_mask(c));
            if window_filled(both, v) {
                assert(window_rank(v, 1) == a && window_rank(v, 2) == b && window_rank(v, 3) == c);
                lemma_three_ranks(junk, a, b, c);
            }
        }
    }
    lemma_first_window(both, 0);
}

} // verus!
