//! Exact equity of a two-card hand: every way to complete the board and every
//! pair of hole cards an opponent may hold is played out and counted.

use crate::engine::cards::Cards;
use crate::engine::outcome::{classify, outcome_order, Outcome, OutcomeError};
use crate::util::all_bit_combo_iterator::IntoAllBitIterator;
use crate::util::bits::{
    lemma_popcount_disjoint, lemma_popcount_remove, lemma_popcount_subset, lemma_word_algebra,
    popcount,
};
use crate::util::bits::{lemma_disjoint_parts, subset_of};
use crate::util::combinations::{
    binomial, combinations, lemma_combinations_bound, lemma_combinations_exact,
    lemma_combinations_none,
};
use std::cmp::Ordering;
use vstd::prelude::*;

verus! {

/// Why no equity could be computed.
#[derive(Debug, Clone, Copy, PartialEq, Eq, Structural)]
pub enum RunoutError {
    /// The player does not hold exactly two cards.
    InvalidHand(Cards),
    /// The table holds more than five cards.
    InvalidTable(Cards),
    /// Player and table together hold too few cards. A runout never reports it.
    CardCountTooLow(Cards, Cards),
    /// A hand that came up in the enumeration could not be classified.
    InvalidOutcome(Cards),
}

/// The error of a runout that stands for a failed classification: an
/// `InvalidOutcome` of the same cards.
pub open spec fn invalid_outcome(value: OutcomeError) -> RunoutError {
    match value {
        OutcomeError::CardCountTooLow(cards) => RunoutError::InvalidOutcome(cards),
        OutcomeError::HighestCardNotFound(cards) => RunoutError::InvalidOutcome(cards),
        OutcomeError::KindNotFound(cards) => RunoutError::InvalidOutcome(cards),
    }
}

impl vstd::std_specs::convert::FromSpecImpl<OutcomeError> for RunoutError {
    open spec fn obeys_from_spec() -> bool {
        true
    }

    open spec fn from_spec(value: OutcomeError) -> RunoutError {
        invalid_outcome(value)
    }
}

impl From<OutcomeError> for RunoutError {
    /// Every failed classification is an `InvalidOutcome` of the same cards.
    fn from(value: OutcomeError) -> (error: RunoutError) {
        match value {
            OutcomeError::CardCountTooLow(cards) => RunoutError::InvalidOutcome(cards),
            OutcomeError::HighestCardNotFound(cards) => RunoutError::InvalidOutcome(cards),
            OutcomeError::KindNotFound(cards) => RunoutError::InvalidOutcome(cards),
        }
    }
}

/// How many showdowns were won, tied and lost, as numbers without bound.
pub ghost struct Counts {
    pub win: nat,
    pub tie: nat,
    pub loss: nat,
}

impl Counts {
    /// No showdown at all.
    pub open spec fn zero() -> Counts {
        Counts { win: 0, tie: 0, loss: 0 }
    }

    /// The showdowns of both.
    pub open spec fn plus(self, other: Counts) -> Counts {
        Counts {
            win: self.win + other.win,
            tie: self.tie + other.tie,
            loss: self.loss + other.loss,
        }
    }

    /// The number of showdowns.
    pub open spec fn total(self) -> nat {
        self.win + self.tie + self.loss
    }
}

/// How many showdowns were won, tied and lost.
#[derive(Debug, Clone, Copy, PartialEq, Eq, Structural)]
pub struct Tally {
    pub win: u64,
    pub tie: u64,
    pub loss: u64,
}

impl View for Tally {
    type V = Counts;

    open spec fn view(&self) -> Counts {
        Counts { win: self.win as nat, tie: self.tie as nat, loss: self.loss as nat }
    }
}

impl Default for Tally {
    /// No showdown at all.
    fn default() -> (tally: Tally)
        ensures
            tally@ == Counts::zero(),
    {
        Tally { win: 0, tie: 0, loss: 0 }
    }
}

impl Tally {
    /// Adds the showdowns of `other` to this tally.
    pub fn add(&mut self, other: Tally)
        requires
            old(self).win + other.win <= u64::MAX,
            old(self).tie + other.tie <= u64::MAX,
            old(self).loss + other.loss <= u64::MAX,
        ensures
            final(self)@ == old(self)@.plus(other@),
    {
        self.win = self.win + other.win;
        self.tie = self.tie + other.tie;
        self.loss = self.loss + other.loss;
    }

    /// The number of showdowns counted.
    pub fn total(&self) -> (total: u128)
        ensures
            total == self@.total(),
    {
        self.win as u128 + self.tie as u128 + self.loss as u128
    }
}

/// One showdown, seen from the player: a win where the player's outcome is
/// the greater, a loss where it is the less, and a tie otherwise.
pub open spec fn showdown(player: Outcome, opponent: Outcome) -> Counts {
    match outcome_order(player, opponent) {
        Some(Ordering::Greater) => Counts { win: 1, tie: 0, loss: 0 },
        Some(Ordering::Less) => Counts { win: 0, tie: 0, loss: 1 },
        _ => Counts { win: 0, tie: 1, loss: 0 },
    }
}

/// The showdowns of the player against the first `n` of the hole cards
/// `holes` on a complete `board`, or the first failure to classify an
/// opponent's hand.
pub open spec fn opponents_counts(player: Outcome, board: u64, holes: Seq<u64>, n: int) -> Result<
    Counts,
    RunoutError,
>
    decreases n,
{
    if n <= 0 {
        Ok(Counts::zero())
    } else {
        match opponents_counts(player, board, holes, n - 1) {
            Err(error) => Err(error),
            Ok(counts) => match classify(holes[n - 1] | board) {
                Err(error) => Err(invalid_outcome(error)),
                Ok(opponent) => Ok(counts.plus(showdown(player, opponent))),
            },
        }
    }
}

/// The showdowns on the board that `extra` completes: the player's hand on
/// it against every two cards of what the deck holds beside the board.
pub open spec fn board_counts(player: u64, table: u64, deck: u64, extra: u64) -> Result<
    Counts,
    RunoutError,
> {
    let board = table | extra;
    let holes = combinations(deck & !board, 2);
    match classify(player | board) {
        Err(error) => Err(invalid_outcome(error)),
        Ok(outcome) => opponents_counts(outcome, board, holes, holes.len() as int),
    }
}

/// The showdowns on the first `n` of the boards that `extras` complete, or
/// the first failure.
pub open spec fn boards_counts(
    player: u64,
    table: u64,
    deck: u64,
    extras: Seq<u64>,
    n: int,
) -> Result<Counts, RunoutError>
    decreases n,
{
    if n <= 0 {
        Ok(Counts::zero())
    } else {
        match boards_counts(player, table, deck, extras, n - 1) {
            Err(error) => Err(error),
            Ok(counts) => match board_counts(player, table, deck, extras[n - 1]) {
                Err(error) => Err(error),
                Ok(more) => Ok(counts.plus(more)),
            },
        }
    }
}

/// What a runout gives: for a player with two cards and a table of up to
/// five, the showdowns over every completion of the table to five cards from
/// the deck; a table of five cards is complete as it lies and is played once.
pub open spec fn runout_counts(player: u64, table: u64, deck: u64) -> Result<Counts, RunoutError> {
    if popcount(player) != 2 {
        Err(RunoutError::InvalidHand(Cards::of(player)))
    } else if popcount(table) > 5 {
        Err(RunoutError::InvalidTable(Cards::of(table)))
    } else {
        let extras = combinations(deck, (5 - popcount(table)) as nat);
        boards_counts(player, table, deck, extras, extras.len() as int)
    }
}

/// Whether `tally` is what `counts` says, error for error.
pub open spec fn agrees(
    tally: Result<Tally, RunoutError>,
    counts: Result<Counts, RunoutError>,
) -> bool {
    match tally {
        Ok(tally) => counts == Ok::<Counts, RunoutError>(tally@),
        Err(error) => counts == Err::<Counts, RunoutError>(error),
    }
}

/// A failure ends the enumeration: it is the result whatever hands follow.
pub proof fn lemma_opponents_failure(
    player: Outcome,
    board: u64,
    holes: Seq<u64>,
    n: int,
    m: int,
)
    requires
        n <= m,
        opponents_counts(player, board, holes, n) is Err,
    ensures
        opponents_counts(player, board, holes, m) == opponents_counts(player, board, holes, n),
    decreases m - n,
{
    if n < m {
        lemma_opponents_failure(player, board, holes, n, m - 1);
    }
}

/// A failure ends the enumeration: it is the result whatever boards follow.
pub proof fn lemma_boards_failure(
    player: u64,
    table: u64,
    deck: u64,
    extras: Seq<u64>,
    n: int,
    m: int,
)
    requires
        n <= m,
        boards_counts(player, table, deck, extras, n) is Err,
    ensures
        boards_counts(player, table, deck, extras, m) == boards_counts(
            player,
            table,
            deck,
            extras,
            n,
        ),
    decreases m - n,
{
    if n < m {
        lemma_boards_failure(player, table, deck, extras, n, m - 1);
    }
}

/// On a board of five cards every opponent's hand can be classified.
pub proof fn lemma_opponents_succeed(player: Outcome, board: u64, holes: Seq<u64>, n: int)
    requires
        0 <= n <= holes.len(),
        popcount(board) >= 5,
    ensures
        opponents_counts(player, board, holes, n) matches Ok(counts) && counts.total() == n,
    decreases n,
{
    if n > 0 {
        lemma_opponents_succeed(player, board, holes, n - 1);
        let hand = holes[n - 1] | board;
        lemma_word_algebra(board, holes[n - 1], 0);
        lemma_popcount_subset(board, hand);
    }
}

/// Where the deck shares no card with the table, a board completed from the
/// deck has five cards, and what the deck holds beside it is the deck without
/// the cards that completed the board.
pub proof fn lemma_board(table: u64, deck: u64, extra: u64)
    requires
        popcount(table) <= 5,
        table & deck == 0,
        subset_of(extra, deck),
        popcount(extra) == 5 - popcount(table),
    ensures
        popcount(table | extra) == 5,
        popcount(deck & !(table | extra)) == popcount(deck) - popcount(extra),
{
    lemma_word_algebra(table, table, 0);
    lemma_disjoint_parts(table, table, extra, deck);
    lemma_popcount_disjoint(table, extra);
    lemma_word_algebra(table, deck, extra);
    lemma_popcount_remove(deck, extra);
}

/// Where the deck shares no card with the table, every board can be played
/// out, against as many opponents as there are pairs of cards in what is
/// left of the deck.
pub proof fn lemma_boards_succeed(player: u64, table: u64, deck: u64, n: int)
    requires
        popcount(table) <= 5,
        table & deck == 0,
        0 <= n <= combinations(deck, (5 - popcount(table)) as nat).len(),
    ensures
        boards_counts(
            player,
            table,
            deck,
            combinations(deck, (5 - popcount(table)) as nat),
            n,
        ) matches Ok(counts) && counts.total() == n * binomial(
            (popcount(deck) - (5 - popcount(table))) as nat,
            2,
        ),
    decreases n,
{
    let need = (5 - popcount(table)) as nat;
    let extras = combinations(deck, need);
    let pairs = binomial((popcount(deck) - need) as nat, 2);
    if n > 0 {
        lemma_boards_succeed(player, table, deck, n - 1);
        let extra = extras[n - 1];
        let board = table | extra;
        lemma_combinations_exact(deck, need);
        lemma_board(table, deck, extra);
        lemma_word_algebra(board, player, 0);
        lemma_popcount_subset(board, player | board);
        let rest = deck & !board;
        let holes = combinations(rest, 2);
        lemma_combinations_exact(rest, 2);
        lemma_opponents_succeed(classify(player | board)->Ok_0, board, holes, holes.len() as int);
        assert(n * pairs == (n - 1) * pairs + pairs) by (nonlinear_arith);
    } else {
        assert(0 * pairs == 0) by (nonlinear_arith);
    }
}

/// Where the player holds two cards, the table at most five, and the deck
/// none of the table's cards, the runout succeeds, and it counts one
/// showdown for each completion of the table and each pair of cards that is
/// then left in the deck. A table of five cards is complete as it lies: it
/// is played once, against every pair of cards of the deck.
pub proof fn lemma_runout_succeeds(player: u64, table: u64, deck: u64)
    requires
        popcount(player) == 2,
        popcount(table) <= 5,
        table & deck == 0,
    ensures
        runout_counts(player, table, deck) is Ok,
        runout_counts(player, table, deck)->Ok_0.total() == binomial(
            popcount(deck),
            (5 - popcount(table)) as nat,
        ) * binomial((popcount(deck) - (5 - popcount(table))) as nat, 2),
        popcount(table) == 5 ==> runout_counts(player, table, deck)->Ok_0.total() == binomial(
            popcount(deck),
            2,
        ),
{
    let need = (5 - popcount(table)) as nat;
    let extras = combinations(deck, need);
    lemma_combinations_exact(deck, need);
    lemma_boards_succeed(player, table, deck, extras.len() as int);
    if need == 0 {
        let pairs = binomial(popcount(deck), 2);
        assert(binomial(popcount(deck), 0) == 1);
        assert(1 * pairs == pairs) by (nonlinear_arith);
    }
}

/// One showdown between two outcomes.
fn settle(player: &Outcome, opponent: &Outcome) -> (tally: Tally)
    ensures
        tally@ == showdown(*player, *opponent),
{
    match player.cmp(opponent) {
        Ordering::Greater => Tally { win: 1, tie: 0, loss: 0 },
        Ordering::Equal => Tally { win: 0, tie: 1, loss: 0 },
        Ordering::Less => Tally { win: 0, tie: 0, loss: 1 },
    }
}

/// Plays the player's outcome on a complete board against every two cards of `rest`.
fn play_opponents(player: &Outcome, board: Cards, rest: Cards) -> (r: Result<Tally, RunoutError>)
    ensures
        agrees(
            r,
            opponents_counts(
                *player,
                board@,
                combinations(rest@, 2),
                combinations(rest@, 2).len() as int,
            ),
        ),
        r matches Ok(tally) ==> tally@.total() <= 4096,
{
    let mut tally = Tally::default();
    proof {
        lemma_combinations_bound(rest@, 2);
    }
    if rest.card_count() < 2 {
        proof {
            lemma_combinations_none(rest@, 2);
        }
        return Ok(tally);
    }
    let mut hands = rest.value().iter_gosper(2);
    let ghost holes = hands@;
    let ghost mut done: int = 0;
    proof {
        assert(holes.skip(0) =~= holes);
    }
    loop
        invariant
            holes == combinations(rest@, 2),
            holes.len() <= 4096,
            0 <= done <= holes.len(),
            hands@ == holes.skip(done),
            opponents_counts(*player, board@, holes, done) == Ok::<Counts, RunoutError>(tally@),
            tally@.total() == done,
        decreases holes.len() - done,
    {
        match hands.next() {
            None => {
                return Ok(tally);
            },
            Some(hole) => {
                let opponent = Cards::from(hole | board.value());
                let outcome = match Outcome::from_cards(opponent) {
                    Ok(outcome) => outcome,
                    Err(error) => {
                        proof {
                            lemma_opponents_failure(
                                *player,
                                board@,
                                holes,
                                done + 1,
                                holes.len() as int,
                            );
                        }
                        return Err(RunoutError::from(error));
                    },
                };
                let one = settle(player, &outcome);
                tally.add(one);
                proof {
                    assert(holes.skip(done + 1) =~= holes.skip(done).skip(1));
                    done = done + 1;
                }
            },
        }
    }
}

/// Plays out the board that `extra` completes.
fn play_board(player: Cards, table: Cards, deck: Cards, extra: u64) -> (r: Result<
    Tally,
    RunoutError,
>)
    ensures
        agrees(r, board_counts(player@, table@, deck@, extra)),
        r matches Ok(tally) ==> tally@.total() <= 4096,
{
    let board = Cards::from(table.value() | extra);
    let hand = Cards::from(player.value() | board.value());
    let outcome = match Outcome::from_cards(hand) {
        Ok(outcome) => outcome,
        Err(error) => {
            return Err(RunoutError::from(error));
        },
    };
    let rest = deck.remove(board);
    play_opponents(&outcome, board, rest)
}

/// The exact equity of `player` on `table` against one opponent, counted
/// over every way to complete the table to five cards from `deck` and every
/// two cards that the opponent may then hold of the rest of the deck.
///
/// A player without exactly two cards is refused with `InvalidHand`, a
/// table of more than five cards with `InvalidTable`. A hand of fewer than
/// five cards, which can only come up where the deck shares cards with the
/// table, is reported as `InvalidOutcome`. A table of five cards is played
/// as it lies. Where the deck is too small to complete the table or to deal
/// an opponent, nothing is counted.
pub fn runout(player: Cards, table: Cards, deck: Cards) -> (r: Result<Tally, RunoutError>)
    ensures
        agrees(r, runout_counts(player@, table@, deck@)),
        popcount(player@) == 2 && popcount(table@) <= 5 && table@ & deck@ == 0 ==> r is Ok,
{
    proof {
        if popcount(player@) == 2 && popcount(table@) <= 5 && table@ & deck@ == 0 {
            lemma_runout_succeeds(player@, table@, deck@);
        }
    }
    if player.card_count() != 2 {
        return Err(RunoutError::InvalidHand(player));
    }
    let on_table = table.card_count();
    if on_table > 5 {
        return Err(RunoutError::InvalidTable(table));
    }
    let need: usize = (5 - on_table) as usize;
    let mut tally = Tally::default();
    proof {
        lemma_combinations_bound(deck@, need as nat);
    }
    if deck.card_count() < need as u32 {
        proof {
            lemma_combinations_none(deck@, need as nat);
        }
        return Ok(tally);
    }
    let mut boards = deck.value().iter_gosper(need);
    let ghost extras = boards@;
    let ghost mut done: int = 0;
    proof {
        assert(extras.skip(0) =~= extras);
    }
    loop
        invariant
            extras == combinations(deck@, need as nat),
            table@ & deck@ == 0 ==> boards_counts(
                player@,
                table@,
                deck@,
                extras,
                extras.len() as int,
            ) is Ok,
            need == 5 - popcount(table@),
            popcount(player@) == 2,
            extras.len() <= 0x4000_0000,
            0 <= done <= extras.len(),
            boards@ == extras.skip(done),
            boards_counts(player@, table@, deck@, extras, done) == Ok::<Counts, RunoutError>(
                tally@,
            ),
            tally@.total() <= done * 4096,
        decreases extras.len() - done,
    {
        match boards.next() {
            None => {
                return Ok(tally);
            },
            Some(extra) => {
                let more = match play_board(player, table, deck, extra) {
                    Ok(more) => more,
                    Err(error) => {
                        proof {
                            lemma_boards_failure(
                                player@,
                                table@,
                                deck@,
                                extras,
                                done + 1,
                                extras.len() as int,
                            );
                        }
                        return Err(error);
                    },
                };
                tally.add(more);
                proof {
                    assert(extras.skip(done + 1) =~= extras.skip(done).skip(1));
                    done = done + 1;
                }
            },
        }
    }
}

} // verus!
