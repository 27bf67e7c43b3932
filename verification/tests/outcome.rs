use poker_engine::engine::cards::Cards;
use poker_engine::engine::constants::{
    ACE, CLUB, DIAMOND, EIGHT, FIVE, FOUR, HEART, JACK, KING, NINE, QUEEN, SEVEN, SIX, SPADE, TEN,
    THREE, TWO,
};
use poker_engine::engine::outcome::Outcome;
use poker_engine::util::all_bit_combo_iterator::IntoAllBitIterator;
use std::cmp::Ordering;

#[test]
fn test_outcome_ordering() {
    let mut outcomes: Vec<Outcome> = vec![
        Outcome::TwoPair(Cards::default()),
        Outcome::HighCard(Cards::default()),
        Outcome::ThreeOfAKind(Cards::default()),
        Outcome::Straight(Cards::default()),
        Outcome::FourOfAKind(Cards::default()),
        Outcome::FullHouse(Cards::default()),
        Outcome::Flush(Cards::default()),
        Outcome::Pair(Cards::default()),
        Outcome::StraightFlush(Cards::default()),
    ];

    outcomes.sort_by(|a, b| a.cmp(b));
    outcomes.reverse();

    let outcomes_test: Vec<Outcome> = vec![
        Outcome::StraightFlush(Cards::default()),
        Outcome::FourOfAKind(Cards::default()),
        Outcome::FullHouse(Cards::default()),
        Outcome::Flush(Cards::default()),
        Outcome::Straight(Cards::default()),
        Outcome::ThreeOfAKind(Cards::default()),
        Outcome::TwoPair(Cards::default()),
        Outcome::Pair(Cards::default()),
        Outcome::HighCard(Cards::default()),
    ];

    assert_eq!(outcomes_test, outcomes);
}

#[test]
fn test_straight_flush_ordering() {
    let straight_flush1: Outcome = Outcome::from_cards(Cards::from(
        ACE & SPADE | KING & SPADE | QUEEN & SPADE | JACK & SPADE | TEN & SPADE,
    ))
    .unwrap();

    let straight_flush2: Outcome = Outcome::from_cards(Cards::from(
        ACE & HEART | KING & HEART | QUEEN & HEART | JACK & HEART | TEN & HEART,
    ))
    .unwrap();

    let straight_flush3: Outcome = Outcome::from_cards(Cards::from(
        KING & SPADE | QUEEN & SPADE | JACK & SPADE | TEN & SPADE | NINE & SPADE,
    ))
    .unwrap();

    let straight_flush4: Outcome = Outcome::from_cards(Cards::from(
        QUEEN & SPADE | JACK & SPADE | TEN & SPADE | NINE & SPADE | EIGHT & SPADE,
    ))
    .unwrap();

    let straight_flush5: Outcome = Outcome::from_cards(Cards::from(
        SIX & SPADE | FIVE & SPADE | FOUR & SPADE | THREE & SPADE | TWO & SPADE,
    ))
    .unwrap();

    assert_eq!(straight_flush1.cmp(&straight_flush2), Ordering::Equal);
    assert_eq!(straight_flush1.cmp(&straight_flush3), Ordering::Greater);
    assert_eq!(straight_flush1.cmp(&straight_flush4), Ordering::Greater);
    assert_eq!(straight_flush1.cmp(&straight_flush5), Ordering::Greater);
    assert_eq!(straight_flush2.cmp(&straight_flush1), Ordering::Equal);
    assert_eq!(straight_flush2.cmp(&straight_flush3), Ordering::Greater);
    assert_eq!(straight_flush2.cmp(&straight_flush4), Ordering::Greater);
    assert_eq!(straight_flush2.cmp(&straight_flush5), Ordering::Greater);
    assert_eq!(straight_flush3.cmp(&straight_flush1), Ordering::Less);
    assert_eq!(straight_flush3.cmp(&straight_flush2), Ordering::Less);
    assert_eq!(straight_flush3.cmp(&straight_flush4), Ordering::Greater);
    assert_eq!(straight_flush3.cmp(&straight_flush5), Ordering::Greater);
    assert_eq!(straight_flush4.cmp(&straight_flush1), Ordering::Less);
    assert_eq!(straight_flush4.cmp(&straight_flush2), Ordering::Less);
    assert_eq!(straight_flush4.cmp(&straight_flush3), Ordering::Less);
    assert_eq!(straight_flush4.cmp(&straight_flush5), Ordering::Greater);
    assert_eq!(straight_flush5.cmp(&straight_flush1), Ordering::Less);
    assert_eq!(straight_flush5.cmp(&straight_flush2), Ordering::Less);
    assert_eq!(straight_flush5.cmp(&straight_flush3), Ordering::Less);
    assert_eq!(straight_flush5.cmp(&straight_flush4), Ordering::Less);
}

#[test]
fn test_four_of_a_kind_ordering() {
    let quad1: Outcome = Outcome::from_cards(Cards::from(
        ACE & HEART | QUEEN & SPADE | QUEEN & HEART | QUEEN & DIAMOND | QUEEN & CLUB,
    ))
    .unwrap();

    let quad2: Outcome = Outcome::from_cards(Cards::from(
        ACE & HEART | FOUR & SPADE | FOUR & HEART | FOUR & DIAMOND | FOUR & CLUB,
    ))
    .unwrap();

    let quad3: Outcome = Outcome::from_cards(Cards::from(
        EIGHT & HEART | FOUR & SPADE | FOUR & HEART | FOUR & DIAMOND | FOUR & CLUB,
    ))
    .unwrap();

    let quad4: Outcome = Outcome::from_cards(Cards::from(
        EIGHT & DIAMOND | FOUR & SPADE | FOUR & HEART | FOUR & DIAMOND | FOUR & CLUB,
    ))
    .unwrap();

    assert_eq!(quad1.cmp(&quad2), Ordering::Greater);
    assert_eq!(quad1.cmp(&quad3), Ordering::Greater);
    assert_eq!(quad1.cmp(&quad4), Ordering::Greater);
    assert_eq!(quad2.cmp(&quad1), Ordering::Less);
    assert_eq!(quad2.cmp(&quad3), Ordering::Greater);
    assert_eq!(quad2.cmp(&quad4), Ordering::Greater);
    assert_eq!(quad3.cmp(&quad1), Ordering::Less);
    assert_eq!(quad3.cmp(&quad2), Ordering::Less);
    assert_eq!(quad3.cmp(&quad4), Ordering::Equal);
    assert_eq!(quad4.cmp(&quad1), Ordering::Less);
    assert_eq!(quad4.cmp(&quad2), Ordering::Less);
    assert_eq!(quad4.cmp(&quad3), Ordering::Equal);
}

#[test]
fn a_wheel_ranks_below_a_six_high_straight_flush() {
    let wheel = Outcome::from_cards(Cards::from((FIVE | FOUR | THREE | TWO | ACE) & SPADE))
        .unwrap();
    let six_high =
        Outcome::from_cards(Cards::from((SIX | FIVE | FOUR | THREE | TWO) & HEART)).unwrap();
    let seven_high =
        Outcome::from_cards(Cards::from((SEVEN | SIX | FIVE | FOUR | THREE) & HEART)).unwrap();
    let six_high_spades =
        Outcome::from_cards(Cards::from((SIX | FIVE | FOUR | THREE | TWO) & SPADE)).unwrap();
    assert!(matches!(wheel, Outcome::StraightFlush(_)));
    assert_eq!(wheel.cmp(&six_high), Ordering::Less);
    assert_eq!(six_high.cmp(&wheel), Ordering::Greater);
    assert_eq!(six_high_spades.cmp(&seven_high), Ordering::Less);
    assert_eq!(wheel.partial_cmp(&six_high), Some(Ordering::Less));
    assert!(wheel < six_high);

    let wheel_straight = Outcome::from_cards(Cards::from(
        FIVE & CLUB | FOUR & HEART | THREE & SPADE | TWO & SPADE | ACE & DIAMOND,
    ))
    .unwrap();
    let six_straight = Outcome::from_cards(Cards::from(
        SIX & CLUB | FIVE & CLUB | FOUR & HEART | THREE & SPADE | TWO & SPADE,
    ))
    .unwrap();
    assert!(matches!(wheel_straight, Outcome::Straight(_)));
    assert_eq!(wheel_straight.cmp(&six_straight), Ordering::Less);
    assert_eq!(wheel_straight.cmp(&wheel), Ordering::Less);
}

#[test]
fn categories_rank_above_every_tie_break() {
    let pair_of_aces = Outcome::from_cards(Cards::from(
        ACE & SPADE | ACE & HEART | KING & CLUB | QUEEN & CLUB | JACK & DIAMOND,
    ))
    .unwrap();
    let two_low_pairs = Outcome::from_cards(Cards::from(
        THREE & SPADE | THREE & HEART | TWO & CLUB | TWO & SPADE | FOUR & DIAMOND,
    ))
    .unwrap();
    assert_eq!(pair_of_aces.category_rank(), 1);
    assert_eq!(two_low_pairs.category_rank(), 2);
    assert_eq!(pair_of_aces.cmp(&two_low_pairs), Ordering::Less);
    assert_eq!(two_low_pairs.cmp(&pair_of_aces), Ordering::Greater);
    assert_eq!(
        pair_of_aces.cards(),
        Cards::from(ACE & SPADE | ACE & HEART | KING & CLUB | QUEEN & CLUB | JACK & DIAMOND)
    );
}

#[test]
fn full_houses_compare_by_trips_then_pair() {
    let nines_over_fours = Outcome::from_cards(Cards::from(
        NINE & SPADE | NINE & HEART | NINE & CLUB | FOUR & SPADE | FOUR & HEART,
    ))
    .unwrap();
    let nines_over_aces = Outcome::from_cards(Cards::from(
        NINE & SPADE | NINE & HEART | NINE & DIAMOND | ACE & SPADE | ACE & HEART,
    ))
    .unwrap();
    let eights_over_aces = Outcome::from_cards(Cards::from(
        EIGHT & SPADE | EIGHT & HEART | EIGHT & DIAMOND | ACE & SPADE | ACE & HEART,
    ))
    .unwrap();
    assert_eq!(nines_over_fours.cmp(&nines_over_aces), Ordering::Less);
    assert_eq!(nines_over_aces.cmp(&eights_over_aces), Ordering::Greater);
    assert_eq!(eights_over_aces.cmp(&nines_over_fours), Ordering::Less);
    assert_eq!(nines_over_aces.cmp(&nines_over_aces), Ordering::Equal);
}

#[test]
fn two_pairs_compare_by_high_pair_low_pair_then_kicker() {
    let make = |word: u64| Outcome::from_cards(Cards::from(word)).unwrap();
    let base = make(
        KING & SPADE | KING & HEART | FOUR & SPADE | FOUR & HEART | NINE & CLUB,
    );
    let higher_low_pair = make(
        KING & DIAMOND | KING & CLUB | FIVE & SPADE | FIVE & HEART | TWO & CLUB,
    );
    let higher_kicker = make(
        KING & DIAMOND | KING & CLUB | FOUR & DIAMOND | FOUR & CLUB | TEN & CLUB,
    );
    let same_ranks = make(
        KING & DIAMOND | KING & CLUB | FOUR & DIAMOND | FOUR & CLUB | NINE & HEART,
    );
    let higher_high_pair = make(
        ACE & DIAMOND | ACE & CLUB | TWO & DIAMOND | TWO & CLUB | THREE & HEART,
    );
    assert_eq!(base.cmp(&higher_low_pair), Ordering::Less);
    assert_eq!(base.cmp(&higher_kicker), Ordering::Less);
    assert_eq!(base.cmp(&same_ranks), Ordering::Equal);
    assert_eq!(base.cmp(&higher_high_pair), Ordering::Less);
    assert_eq!(higher_high_pair.cmp(&higher_low_pair), Ordering::Greater);
}

#[test]
fn pairs_and_trips_compare_by_group_then_kickers() {
    let make = |word: u64| Outcome::from_cards(Cards::from(word)).unwrap();
    let eights = make(EIGHT & SPADE | EIGHT & HEART | ACE & CLUB | QUEEN & CLUB | FOUR & CLUB);
    let eights_low =
        make(EIGHT & DIAMOND | EIGHT & CLUB | ACE & SPADE | JACK & CLUB | FOUR & SPADE);
    let nines = make(NINE & SPADE | NINE & HEART | TWO & CLUB | THREE & CLUB | FOUR & CLUB);
    assert_eq!(eights.cmp(&eights_low), Ordering::Greater);
    assert_eq!(nines.cmp(&eights), Ordering::Greater);

    let trips = make(FOUR & SPADE | FOUR & HEART | FOUR & DIAMOND | ACE & SPADE | KING & DIAMOND);
    let trips_low = make(FOUR & SPADE | FOUR & HEART | FOUR & CLUB | ACE & HEART | QUEEN & CLUB);
    assert_eq!(trips.cmp(&trips_low), Ordering::Greater);
    assert_eq!(trips_low.cmp(&trips), Ordering::Less);
}

#[test]
fn outcomes_without_their_groups_cannot_be_told_apart() {
    let broken = Outcome::FourOfAKind(Cards::from(ACE & SPADE));
    let other = Outcome::FourOfAKind(Cards::from(KING & SPADE));
    assert_eq!(broken.partial_cmp(&other), None);
    assert_eq!(broken.cmp(&other), Ordering::Equal);
    assert_eq!(broken.partial_cmp(&broken), Some(Ordering::Equal));
}

#[test]
fn classified_hands_always_compare_and_the_order_turns_around() {
    // Every hand of seven cards out of sixteen.
    let pool = (ACE | KING) & (SPADE | HEART | DIAMOND)
        | (QUEEN | JACK | TEN | FIVE | FOUR) & SPADE
        | (TEN | FIVE | FOUR | THREE | TWO) & CLUB;
    assert_eq!(pool.count_ones(), 16);
    let mut outcomes = Vec::new();
    let mut hands = pool.iter_gosper(7);
    while let Some(hand) = hands.next() {
        let outcome = Outcome::from_cards(Cards::from(hand)).unwrap();
        assert_eq!(outcome.cards().card_count(), 5);
        assert_eq!(outcome.cards().value() & hand, outcome.cards().value());
        outcomes.push(outcome);
    }
    assert_eq!(outcomes.len(), 11440);
    let mut seen = [false; 9];
    for (i, a) in outcomes.iter().enumerate() {
        seen[a.category_rank() as usize] = true;
        let b = &outcomes[(i * 7 + 3) % outcomes.len()];
        let c = &outcomes[(i * 13 + 5) % outcomes.len()];
        let ab = a.partial_cmp(b).unwrap();
        let bc = b.partial_cmp(c).unwrap();
        let ac = a.partial_cmp(c).unwrap();
        assert_eq!(b.partial_cmp(a), Some(ab.reverse()));
        assert_eq!(a.cmp(b), ab);
        assert_eq!(a.partial_cmp(a), Some(Ordering::Equal));
        if ab != Ordering::Greater && bc != Ordering::Greater {
            assert_ne!(ac, Ordering::Greater);
        }
        if ab == Ordering::Less && bc != Ordering::Greater {
            assert_eq!(ac, Ordering::Less);
        }
    }
    // No four of a kind can be made of this pool; every other category comes up.
    assert_eq!(seen, [true, true, true, true, true, true, true, false, true]);
}
