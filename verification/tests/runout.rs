use poker_engine::engine::cards::Cards;
use poker_engine::engine::constants::{
    ACE, CLUB, DIAMOND, FIVE, FOUR, FULL_DECK, HEART, JACK, KING, NINE, QUEEN, SPADE, TEN, THREE,
    TWO,
};
use poker_engine::engine::out_runner::{runout, RunoutError, Tally};
use poker_engine::engine::outcome::OutcomeError;

#[test]
fn test_runout_table() {
    let hand = Cards::from(ACE & CLUB | ACE & DIAMOND);
    let table = Cards::from(ACE & SPADE | ACE & HEART | KING & DIAMOND);
    let deck = Cards::from(
        QUEEN & CLUB
            | QUEEN & DIAMOND
            | QUEEN & SPADE
            | QUEEN & HEART
            | JACK & CLUB
            | JACK & DIAMOND
            | JACK & SPADE
            | JACK & HEART
            | TEN & CLUB
            | TEN & DIAMOND
            | TEN & SPADE
            | TEN & HEART,
    );

    let tally = runout(hand, table, deck).unwrap();
    println!("chance {:?}", tally);
    // 66 ways to complete the board, 45 opponent hands on each.
    assert_eq!(tally, Tally { win: 2970, tie: 0, loss: 0 });
    let total = tally.total() as f32;
    let win = tally.win as f32 / total;
    let tie = tally.tie as f32 / total;
    let loss = tally.loss as f32 / total;
    assert_eq!(win, 1.0);
    assert_eq!(loss, 0.0);
    assert_eq!(win + tie + loss, 1.0);
}

#[test]
fn test_testing() {
    println!("I am testing!");
}

#[test]
fn runout_refuses_a_player_without_two_cards() {
    let deck = Cards::from(QUEEN | JACK | TEN);
    let table = Cards::from(ACE & SPADE | ACE & HEART | KING & DIAMOND);
    let one = Cards::from(ACE & CLUB);
    let three = Cards::from(ACE & CLUB | ACE & DIAMOND | KING & CLUB);
    assert_eq!(runout(one, table, deck), Err(RunoutError::InvalidHand(one)));
    assert_eq!(runout(three, table, deck), Err(RunoutError::InvalidHand(three)));
    assert_eq!(
        runout(Cards::from(0), table, deck),
        Err(RunoutError::InvalidHand(Cards::from(0)))
    );
}

#[test]
fn runout_refuses_a_table_of_more_than_five_cards() {
    let player = Cards::from(ACE & CLUB | ACE & DIAMOND);
    let table = Cards::from(KING | QUEEN & SPADE | QUEEN & HEART);
    let deck = Cards::from(TWO | THREE | FOUR);
    assert_eq!(runout(player, table, deck), Err(RunoutError::InvalidTable(table)));
}

#[test]
fn runout_on_a_full_table_plays_the_table_as_it_lies() {
    let player = Cards::from(ACE & CLUB | ACE & DIAMOND);
    let table = Cards::from(KING | QUEEN & SPADE);
    let deck = Cards::from(TWO | THREE | FOUR);
    // One board, 66 pairs of cards for the opponent: the four Kings lie on the
    // table, and the player's Ace beats the Queen that the opponent plays.
    assert_eq!(runout(player, table, deck), Ok(Tally { win: 66, tie: 0, loss: 0 }));
    // A deck of one card deals no opponent.
    assert_eq!(runout(player, table, Cards::from(TWO & CLUB)), Ok(Tally::default()));
    assert_eq!(runout(player, table, Cards::from(0)), Ok(Tally::default()));
    assert_eq!(Tally::default().total(), 0);
}

#[test]
fn runout_with_too_small_a_deck_counts_nothing() {
    let player = Cards::from(ACE & CLUB | ACE & DIAMOND);
    let table = Cards::from(KING & SPADE | KING & HEART | KING & DIAMOND);
    // One card cannot complete the board.
    assert_eq!(runout(player, table, Cards::from(TWO & CLUB)), Ok(Tally::default()));
    // Three cards complete the board but leave the opponent one card.
    assert_eq!(
        runout(player, table, Cards::from(TWO & CLUB | THREE & CLUB | FOUR & CLUB)),
        Ok(Tally::default())
    );
    assert_eq!(runout(player, table, Cards::from(0)), Ok(Tally::default()));
}

#[test]
fn runout_reports_a_hand_that_cannot_be_classified() {
    // Player, table and deck share cards, so a hand of four cards comes up: the
    // second board is the table with the Two of clubs and a King that it has already.
    let player = Cards::from(KING & SPADE | KING & HEART);
    let table = Cards::from(KING & SPADE | KING & HEART | KING & DIAMOND);
    let deck = Cards::from(KING & SPADE | KING & HEART | TWO & CLUB | THREE & CLUB);
    assert_eq!(
        runout(player, table, deck),
        Err(RunoutError::InvalidOutcome(Cards::from(
            KING & SPADE | KING & HEART | KING & DIAMOND | TWO & CLUB
        )))
    );
    assert_eq!(
        RunoutError::from(OutcomeError::CardCountTooLow(player)),
        RunoutError::InvalidOutcome(player)
    );
    assert_eq!(
        RunoutError::from(OutcomeError::HighestCardNotFound(table)),
        RunoutError::InvalidOutcome(table)
    );
    assert_eq!(
        RunoutError::from(OutcomeError::KindNotFound(deck)),
        RunoutError::InvalidOutcome(deck)
    );
}

#[test]
fn runout_counts_wins_ties_and_losses() {
    // Board K K K 2 + one of {Q, 5c}; the opponent gets two of the remaining deck.
    let player = Cards::from(QUEEN & SPADE | QUEEN & HEART);
    let table = Cards::from(KING & SPADE | KING & HEART | KING & DIAMOND | TWO & SPADE);
    let deck = Cards::from(KING & CLUB | ACE & SPADE | ACE & HEART | FIVE & CLUB);
    let tally = runout(player, table, deck).unwrap();
    assert_eq!(tally.total(), 12);
    // Board with Kc: quads on the board; the opponents hold A-A (ace kicker: win for them),
    // A-5 twice (ace kicker) against the player's queen kicker.
    // Board with As: the player has kings full of queens; an opponent with Kc has quads,
    // an opponent with Ah-5c has kings full of aces.
    // Board with Ah: likewise. Board with 5c: an opponent with Kc has quads, A-A has
    // kings full of aces.
    assert_eq!(tally, Tally { win: 0, tie: 0, loss: 12 });

    let mut sum = Tally::default();
    sum.add(tally);
    sum.add(Tally { win: 1, tie: 2, loss: 3 });
    assert_eq!(sum, Tally { win: 1, tie: 2, loss: 15 });
    assert_eq!(sum.total(), 18);
}

#[test]
fn runout_ties_on_a_board_that_plays() {
    // A royal flush on the board: everybody ties.
    let player = Cards::from(TWO & CLUB | THREE & CLUB);
    let table = Cards::from((ACE | KING | QUEEN | JACK) & SPADE);
    let deck = Cards::from(TEN & SPADE | FOUR & HEART | FIVE & HEART | NINE & DIAMOND);
    let tally = runout(player, table, deck).unwrap();
    // Board with Ts: 3 opponent hands, all ties. Other boards: A-high flush/straight or
    // high cards decide.
    assert_eq!(tally.total(), 12);
    assert!(tally.tie >= 3);
    assert_eq!(tally.win + tally.tie + tally.loss, 12);
    assert_eq!(tally.total(), 12);
    assert_eq!(FULL_DECK & CLUB & HEART, 0);
}
