use poker_engine::engine::cards::{Cards, CardsError};
use poker_engine::engine::constants::{
    ACE, CLUB, DIAMOND, EIGHT, FIVE, FOUR, FULL_DECK, HEART, JACK, KING, NINE, QUEEN, SEVEN, SIX,
    SPADE, TEN, THREE, TWO,
};
use poker_engine::engine::outcome::{Outcome, OutcomeError};
use std::cmp::Ordering;

#[test]
fn test_take_random() {
    let mut cards = Cards::from(ACE & SPADE | FOUR & CLUB | KING & HEART | JACK & DIAMOND);

    for _ in 0..cards.card_count() {
        let taken_card = cards.take_random().unwrap();
        println!("{}", taken_card.to_string());
        assert!(taken_card.card_count() == 1)
    }

    println!("{}", cards.to_string());
    assert!(cards.card_count() == 0)
}

#[test]
fn test_into() {
    let cards = Cards::from(ACE & SPADE | FOUR & HEART | EIGHT & CLUB | JACK & DIAMOND);
    println!("{}", cards.to_string())
}

#[test]
fn test_straight_flush() {
    let hand = Cards::from(
        JACK & SPADE
            | TEN & SPADE
            | NINE & SPADE
            | EIGHT & SPADE
            | SEVEN & SPADE
            | THREE & HEART
            | KING & CLUB,
    );

    let straight_flush =
        Cards::from(JACK & SPADE | TEN & SPADE | NINE & SPADE | EIGHT & SPADE | SEVEN & SPADE);

    assert_eq!(
        Ok(Outcome::StraightFlush(straight_flush)),
        Outcome::from_cards(hand)
    );
}

#[test]
fn test_four_of_a_kind() {
    let hand = Cards::from(
        TEN & SPADE
            | TEN & HEART
            | TEN & DIAMOND
            | TEN & CLUB
            | ACE & SPADE
            | FOUR & HEART
            | JACK & HEART,
    );

    let four_of_a_kind =
        Cards::from(TEN & SPADE | TEN & HEART | TEN & DIAMOND | TEN & CLUB | ACE & SPADE);

    assert_eq!(
        Ok(Outcome::FourOfAKind(four_of_a_kind)),
        Outcome::from_cards(hand)
    )
}

#[test]
fn test_full_house() {
    let hand = Cards::from(
        FOUR & SPADE
            | FOUR & HEART
            | FOUR & DIAMOND
            | JACK & SPADE
            | JACK & CLUB
            | FIVE & HEART
            | FIVE & DIAMOND,
    );

    let full_house =
        Cards::from(FOUR & SPADE | FOUR & HEART | FOUR & DIAMOND | JACK & SPADE | JACK & CLUB);

    assert_eq!(
        Ok(Outcome::FullHouse(full_house)),
        Outcome::from_cards(hand)
    )
}

#[test]
fn test_flush() {
    let hand = Cards::from(
        ACE & SPADE
            | TEN & SPADE
            | SEVEN & SPADE
            | FOUR & SPADE
            | THREE & SPADE
            | EIGHT & HEART
            | KING & CLUB,
    );

    let flush =
        Cards::from(ACE & SPADE | TEN & SPADE | SEVEN & SPADE | FOUR & SPADE | THREE & SPADE);

    assert_eq!(Ok(Outcome::Flush(flush)), Outcome::from_cards(hand));
}

#[test]
fn test_straight() {
    let hand = Cards::from(
        TEN & CLUB
            | NINE & CLUB
            | EIGHT & HEART
            | SEVEN & DIAMOND
            | SIX & HEART
            | FIVE & CLUB
            | ACE & SPADE,
    );

    let straight =
        Cards::from(TEN & CLUB | NINE & CLUB | EIGHT & HEART | SEVEN & DIAMOND | SIX & HEART);

    assert_eq!(Ok(Outcome::Straight(straight)), Outcome::from_cards(hand));
}

#[test]
fn test_three_of_a_kind() {
    let hand = Cards::from(
        FOUR & SPADE
            | FOUR & HEART
            | FOUR & DIAMOND
            | ACE & SPADE
            | KING & DIAMOND
            | JACK & CLUB
            | FIVE & HEART,
    );

    let three_of_a_kind =
        Cards::from(FOUR & SPADE | FOUR & HEART | FOUR & DIAMOND | ACE & SPADE | KING & DIAMOND);

    assert_eq!(
        Ok(Outcome::ThreeOfAKind(three_of_a_kind)),
        Outcome::from_cards(hand)
    );
}

#[test]
fn test_two_pair() {
    let hand = Cards::from(
        FOUR & SPADE
            | FOUR & HEART
            | JACK & DIAMOND
            | JACK & CLUB
            | ACE & SPADE
            | THREE & DIAMOND
            | THREE & HEART,
    );

    let two_pair =
        Cards::from(FOUR & SPADE | FOUR & HEART | JACK & DIAMOND | JACK & CLUB | ACE & SPADE);

    assert_eq!(Ok(Outcome::TwoPair(two_pair)), Outcome::from_cards(hand))
}

#[test]
fn test_pair() {
    let hand = Cards::from(
        EIGHT & SPADE
            | EIGHT & HEART
            | ACE & DIAMOND
            | QUEEN & SPADE
            | FOUR & CLUB
            | TWO & DIAMOND
            | THREE & HEART,
    );

    let pair =
        Cards::from(EIGHT & SPADE | EIGHT & HEART | ACE & DIAMOND | QUEEN & SPADE | FOUR & CLUB);

    assert_eq!(Ok(Outcome::Pair(pair)), Outcome::from_cards(hand))
}

#[test]
fn test_high_card() {
    let hand = Cards::from(
        ACE & SPADE
            | KING & DIAMOND
            | QUEEN & SPADE
            | TEN & HEART
            | FOUR & CLUB
            | TWO & DIAMOND
            | THREE & HEART,
    );

    let high_card =
        Cards::from(ACE & SPADE | KING & DIAMOND | QUEEN & SPADE | TEN & HEART | FOUR & CLUB);

    assert_eq!(Ok(Outcome::HighCard(high_card)), Outcome::from_cards(hand))
}

#[test]
fn new_accepts_cards_of_the_deck_only() {
    assert_eq!(Cards::new(ACE & SPADE), Ok(Cards::from(ACE & SPADE)));
    assert_eq!(Cards::new(FULL_DECK), Ok(Cards::from(FULL_DECK)));
    assert_eq!(Cards::new(0), Err(CardsError::InvalidCards(Cards::from(0))));
    let outside = 1u64 << 52;
    assert_eq!(
        Cards::new(outside | TWO),
        Err(CardsError::InvalidCards(Cards::from(outside | TWO)))
    );
    assert!(Cards::is_valid(TWO & CLUB));
    assert!(!Cards::is_valid(0));
    assert!(!Cards::is_valid(u64::MAX));
}

#[test]
fn value_and_set_value_round_trip() {
    let mut cards = Cards::default();
    assert_eq!(cards.value(), 0);
    cards.set_value(KING & HEART);
    assert_eq!(cards.value(), 0x0400000000000);
    assert_eq!(cards.card_count(), 1);
}

#[test]
fn add_and_remove_cards_work_on_bits() {
    let mut cards = Cards::from(ACE & SPADE);
    cards.add_cards(KING & SPADE);
    assert_eq!(cards.value(), 0x8800000000000);
    cards.remove_cards(ACE & SPADE);
    assert_eq!(cards.value(), 0x0800000000000);
    // Removing a card that is not there changes nothing.
    cards.remove_cards(TWO & CLUB);
    assert_eq!(cards.value(), 0x0800000000000);
    assert!(cards.has_any(KING));
    assert!(!cards.has_any(QUEEN));
}

#[test]
fn removing_a_part_and_adding_it_back_restores_the_set() {
    let set = Cards::from(ACE & SPADE | KING & HEART | FOUR & CLUB | TWO & DIAMOND);
    let part = Cards::from(KING & HEART | TWO & DIAMOND);
    assert_eq!(set.remove(part).union(part), set);
    assert_eq!(set.remove(part), Cards::from(ACE & SPADE | FOUR & CLUB));
    let other = Cards::from(NINE & CLUB | ACE & SPADE);
    assert_eq!(set.union(other).remove(other), set.remove(other));
}

#[test]
fn try_union_and_try_remove_refuse_invalid_sets() {
    let a = Cards::from(ACE & SPADE);
    let b = Cards::from(KING & SPADE);
    let empty = Cards::from(0);
    let outside = Cards::from(1u64 << 60);
    assert_eq!(a.try_union(b), Ok(Cards::from(0x8800000000000)));
    assert_eq!(empty.try_union(b), Err(CardsError::InvalidCards(empty)));
    assert_eq!(a.try_union(outside), Err(CardsError::InvalidCards(outside)));
    assert_eq!(a.union(b).try_remove(b), Ok(a));
    assert_eq!(a.try_remove(a), Err(CardsError::InvalidCards(empty)));
    assert_eq!(a.try_remove(empty), Err(CardsError::InvalidCards(empty)));
    assert_eq!(outside.try_remove(a), Err(CardsError::InvalidCards(outside)));
}

#[test]
fn get_highest_takes_the_top_cards() {
    let cards = Cards::from(ACE & HEART | ACE & CLUB | TEN & SPADE | TWO & DIAMOND);
    assert_eq!(cards.get_highest(0), None);
    assert_eq!(cards.get_highest(1), Some(Cards::from(ACE & HEART)));
    assert_eq!(cards.get_highest(2), Some(Cards::from(ACE & HEART | ACE & CLUB)));
    assert_eq!(cards.get_highest(4), Some(cards));
    assert_eq!(cards.get_highest(5), None);
    assert_eq!(cards.get_highest(usize::MAX), None);
    assert_eq!(Cards::from(0).get_highest(1), None);
}

#[test]
fn compare_rank_ignores_suits_and_counts() {
    let aces = Cards::from(ACE & SPADE | ACE & HEART);
    let ace = Cards::from(ACE & CLUB);
    let king = Cards::from(KING & SPADE);
    assert_eq!(aces.compare_rank(&ace), Ordering::Equal);
    assert_eq!(ace.compare_rank(&king), Ordering::Greater);
    assert_eq!(king.compare_rank(&ace), Ordering::Less);
    let ace_two = Cards::from(ACE & CLUB | TWO & CLUB);
    let ace_three = Cards::from(ACE & SPADE | THREE & CLUB);
    assert_eq!(ace_two.compare_rank(&ace_three), Ordering::Less);
    assert_eq!(ace_three.compare_rank(&ace_two), Ordering::Greater);
    assert_eq!(Cards::from(0).compare_rank(&Cards::from(0)), Ordering::Equal);
}

#[test]
fn get_flush_needs_five_of_a_suit() {
    let four = Cards::from((ACE | KING | QUEEN | JACK) & HEART | TWO & SPADE);
    assert_eq!(four.get_flush(), None);
    let six = Cards::from((ACE | KING | QUEEN | JACK | NINE | TWO) & DIAMOND | TWO & SPADE);
    assert_eq!(
        six.get_flush(),
        Some(Cards::from((ACE | KING | QUEEN | JACK | NINE) & DIAMOND))
    );
}

#[test]
fn get_straight_finds_the_wheel_and_prefers_the_higher_window() {
    let wheel = Cards::from(
        FIVE & CLUB | FOUR & HEART | THREE & SPADE | TWO & SPADE | ACE & DIAMOND | KING & CLUB,
    );
    assert_eq!(
        wheel.get_straight(),
        Some(Cards::from(
            FIVE & CLUB | FOUR & HEART | THREE & SPADE | TWO & SPADE | ACE & DIAMOND
        ))
    );
    let six_high = Cards::from(
        SIX & CLUB | FIVE & CLUB | FOUR & HEART | THREE & SPADE | TWO & SPADE | ACE & DIAMOND,
    );
    assert_eq!(
        six_high.get_straight(),
        Some(Cards::from(
            SIX & CLUB | FIVE & CLUB | FOUR & HEART | THREE & SPADE | TWO & SPADE
        ))
    );
    // Of two cards of one rank the higher suit is taken.
    let doubled = Cards::from(
        NINE & CLUB | NINE & SPADE | EIGHT & HEART | SEVEN & HEART | SIX & HEART | FIVE & HEART,
    );
    assert_eq!(
        doubled.get_straight(),
        Some(Cards::from(
            NINE & SPADE | EIGHT & HEART | SEVEN & HEART | SIX & HEART | FIVE & HEART
        ))
    );
    assert_eq!(Cards::from(ACE | KING | QUEEN | JACK).get_straight(), None);
}

#[test]
fn get_kinds_lists_groups_from_the_ace_down() {
    let cards = Cards::from(
        TWO & SPADE | TWO & CLUB | ACE & HEART | KING | NINE & SPADE | NINE & HEART | NINE & CLUB,
    );
    assert_eq!(
        cards.get_kinds(),
        vec![
            Cards::from(KING),
            Cards::from(NINE & SPADE | NINE & HEART | NINE & CLUB),
            Cards::from(TWO & SPADE | TWO & CLUB),
        ]
    );
    assert_eq!(Cards::from(ACE & SPADE | KING & SPADE).get_kinds(), vec![]);
}

#[test]
fn to_string_names_the_cards_highest_first() {
    let cards = Cards::from(ACE & SPADE | FOUR & HEART | EIGHT & CLUB | JACK & DIAMOND);
    assert_eq!(cards.to_string(), "As, Jd, 8c, 4h");
    assert_eq!(
        Cards::from(ACE & SPADE | TEN & DIAMOND | FOUR & CLUB).to_string(),
        "As, Td, 4c"
    );
    assert_eq!(Cards::from(0).to_string(), "");
    assert_eq!(Cards::from(TEN & DIAMOND).to_string(), "Td");
    // Bits outside the deck have no name.
    assert_eq!(Cards::from((1u64 << 63) | TWO & CLUB).to_string(), "2c");
    assert_eq!(
        Cards::from(KING | TWO & SPADE).to_string(),
        "Ks, Kh, Kd, Kc, 2s"
    );
}

#[test]
fn take_nth_draws_by_place_from_the_lowest_card() {
    let mut cards = Cards::from(ACE & SPADE | FOUR & CLUB | KING & HEART);
    assert_eq!(cards.take_nth(3), Err(CardsError::NoCards));
    assert_eq!(cards.card_count(), 3);
    assert_eq!(cards.take_nth(1), Ok(Cards::from(KING & HEART)));
    assert_eq!(cards, Cards::from(ACE & SPADE | FOUR & CLUB));
    assert_eq!(cards.take_nth(0), Ok(Cards::from(FOUR & CLUB)));
    assert_eq!(cards.take_nth(0), Ok(Cards::from(ACE & SPADE)));
    assert_eq!(cards.take_nth(0), Err(CardsError::NoCards));
}

#[test]
fn take_random_on_an_empty_set_is_refused() {
    let mut cards = Cards::default();
    assert_eq!(cards.take_random(), Err(CardsError::NoCards));
    assert_eq!(cards.value(), 0);
}

#[test]
fn take_random_draws_a_card_of_the_set() {
    let start = Cards::from(FULL_DECK);
    let mut cards = start;
    let mut drawn = 0u64;
    for left in (0..52u32).rev() {
        let card = cards.take_random().unwrap();
        assert_eq!(card.card_count(), 1);
        assert_eq!(card.value() & drawn, 0);
        assert!(start.has_any(card.value()));
        drawn |= card.value();
        assert_eq!(cards.card_count(), left);
        assert_eq!(cards.value(), FULL_DECK & !drawn);
    }
    assert_eq!(drawn, FULL_DECK);
}

#[test]
fn from_cards_refuses_fewer_than_five_cards() {
    let four = Cards::from(ACE);
    assert_eq!(
        Outcome::from_cards(four),
        Err(OutcomeError::CardCountTooLow(four))
    );
    assert_eq!(
        Outcome::from_cards(Cards::from(0)),
        Err(OutcomeError::CardCountTooLow(Cards::from(0)))
    );
}

#[test]
fn from_cards_keeps_the_category_when_a_low_card_is_added() {
    let pair = Cards::from(
        EIGHT & SPADE | EIGHT & HEART | ACE & DIAMOND | QUEEN & SPADE | FOUR & CLUB,
    );
    let with_junk = Cards::from(pair.value() | TWO & DIAMOND | THREE & HEART);
    assert_eq!(Outcome::from_cards(pair), Ok(Outcome::Pair(pair)));
    assert_eq!(Outcome::from_cards(with_junk), Ok(Outcome::Pair(pair)));

    let flush = Cards::from((ACE | TEN | SEVEN | FOUR | THREE) & SPADE);
    let with_junk = Cards::from(flush.value() | TWO & HEART | KING & CLUB);
    assert_eq!(Outcome::from_cards(with_junk), Ok(Outcome::Flush(flush)));

    let quads = Cards::from(TEN | ACE & SPADE);
    let with_junk = Cards::from(quads.value() | FOUR & HEART | JACK & HEART);
    assert_eq!(Outcome::from_cards(with_junk), Ok(Outcome::FourOfAKind(quads)));
}

#[test]
fn from_cards_gives_back_a_straight_flush_with_unrelated_cards() {
    let suits = [SPADE, HEART, DIAMOND, CLUB];
    let ranks = [
        ACE, KING, QUEEN, JACK, TEN, NINE, EIGHT, SEVEN, SIX, FIVE, FOUR, THREE, TWO,
    ];
    for (s, suit) in suits.iter().enumerate() {
        // The ten windows, from Ace-high down to the wheel.
        for w in 0..10 {
            let mut window = 0u64;
            for k in 0..5 {
                window |= ranks[if w + k < 13 { w + k } else { 0 }];
            }
            let hand = Cards::from(window & suit);
            assert_eq!(hand.card_count(), 5);
            assert_eq!(Outcome::from_cards(hand), Ok(Outcome::StraightFlush(hand)));
            // Two cards of other suits, of ranks that are not in the window
            // nor next above one of its ranks.
            let above = (window << 4) & FULL_DECK;
            let free: Vec<u64> = ranks
                .iter()
                .copied()
                .filter(|rank| rank & window == 0 && rank & above == 0)
                .collect();
            assert!(free.len() >= 2);
            for first in 0..free.len() {
                for second in 0..free.len() {
                    let junk = free[first] & suits[(s + 1) % 4] | free[second] & suits[(s + 2) % 4];
                    assert_eq!(
                        Outcome::from_cards(Cards::from(hand.value() | junk)),
                        Ok(Outcome::StraightFlush(hand))
                    );
                }
            }
        }
    }
    // A card of the suit above the hand, or of the rank next above it, is not unrelated.
    let hand = Cards::from((QUEEN | JACK | TEN | NINE | EIGHT) & SPADE);
    assert_eq!(
        Outcome::from_cards(Cards::from(hand.value() | ACE & SPADE | TWO & HEART)),
        Ok(Outcome::Flush(Cards::from((ACE | QUEEN | JACK | TEN | NINE) & SPADE)))
    );
    assert_eq!(
        Outcome::from_cards(Cards::from(hand.value() | KING & SPADE)),
        Ok(Outcome::StraightFlush(Cards::from(
            (KING | QUEEN | JACK | TEN | NINE) & SPADE
        )))
    );
}

#[test]
fn from_cards_full_house_takes_two_of_a_second_three_of_a_kind() {
    let hand = Cards::from(
        NINE & SPADE
            | NINE & HEART
            | NINE & CLUB
            | FOUR & SPADE
            | FOUR & HEART
            | FOUR & CLUB
            | ACE & DIAMOND,
    );
    assert_eq!(
        Outcome::from_cards(hand),
        Ok(Outcome::FullHouse(Cards::from(
            NINE & SPADE | NINE & HEART | NINE & CLUB | FOUR & SPADE | FOUR & HEART
        )))
    );
}

#[test]
fn from_cards_two_pair_takes_the_two_highest_of_three_pairs() {
    let hand = Cards::from(
        NINE & SPADE
            | NINE & HEART
            | FOUR & SPADE
            | FOUR & HEART
            | TWO & CLUB
            | TWO & DIAMOND
            | THREE & DIAMOND,
    );
    assert_eq!(
        Outcome::from_cards(hand),
        Ok(Outcome::TwoPair(Cards::from(
            NINE & SPADE | NINE & HEART | FOUR & SPADE | FOUR & HEART | THREE & DIAMOND
        )))
    );
}
