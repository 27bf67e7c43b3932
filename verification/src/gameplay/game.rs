//! One table: its players in seating order, the hands dealt to them, the
//! deck, and the history of what happened.

use crate::engine::cards::Cards;
use crate::engine::constants::{lemma_full_deck, FULL_DECK};
use crate::gameplay::player::Player;
use crate::util::bits::{
    lemma_popcount_disjoint, lemma_popcount_zero, lemma_word_algebra, popcount, subset_of,
};
use vstd::arithmetic::div_mod::lemma_add_mod_noop_right;
use vstd::prelude::*;

verus! {

/// Something that happened at the table.
#[derive(Debug, Clone)]
pub enum GameEvent {
    StartStack(u32),
    Bet(u32),
    Flop(Cards),
    Turn(Cards),
    River(Cards),
}

/// A table of players.
#[derive(Debug)]
pub struct Game {
    players: Vec<Player>,
    hands: Vec<Cards>,
    dealer: usize,
    deck: Cards,
    game_history: Vec<GameEvent>,
}

/// All the cards of `drawn` together.
pub open spec fn union_of(drawn: Seq<u64>) -> u64
    decreases drawn.len(),
{
    if drawn.len() == 0 {
        0
    } else {
        union_of(drawn.drop_last()) | drawn.last()
    }
}

/// The hand in seat `k` once `i` cards were dealt to `n` players, one card
/// to each seat in turn: what lay there before, and the cards dealt to the
/// seat in the first and in the second turn.
pub open spec fn hand_after(before: Seq<Cards>, drawn: Seq<u64>, n: int, i: int, k: int) -> u64 {
    (if k < before.len() {
        before[k]@
    } else {
        0
    }) | (if k < i {
        drawn[k]
    } else {
        0
    }) | (if n + k < i {
        drawn[n + k]
    } else {
        0
    })
}

/// The stacks of the `n` players as the history records them at the start
/// of a round, beginning with the dealer's seat.
pub open spec fn start_stacks(players: Seq<Player>, dealer: int) -> Seq<GameEvent> {
    Seq::new(
        players.len(),
        |i: int| GameEvent::StartStack(players[(i + dealer) % (players.len() as int)]@.1),
    )
}

/// Whether the `2 * n` cards `drawn` are a deal from a full deck that left
/// `deck`: single cards of the deck, no card twice, and `deck` what is left.
pub open spec fn is_deal(drawn: Seq<u64>, n: int, deck: u64) -> bool {
    &&& drawn.len() == 2 * n
    &&& forall|j: int| 0 <= j < drawn.len() ==> popcount(#[trigger] drawn[j]) == 1
    &&& subset_of(union_of(drawn), FULL_DECK)
    &&& popcount(union_of(drawn)) == 2 * n
    &&& deck == FULL_DECK & !union_of(drawn)
}

/// Whether the hands `after` are the hands `before` with the cards `drawn`
/// dealt to the first `n` seats, two to each, and the other seats untouched.
pub open spec fn hands_dealt(
    before: Seq<Cards>,
    after: Seq<Cards>,
    drawn: Seq<u64>,
    n: int,
) -> bool {
    &&& after.len() == if before.len() >= n {
        before.len() as int
    } else {
        n
    }
    &&& forall|k: int|
        0 <= k < n ==> (#[trigger] after[k])@ == hand_after(before, drawn, n, 2 * n, k)
    &&& forall|k: int| n <= k < before.len() ==> #[trigger] after[k] == before[k]
}

impl Default for Game {
    /// An empty table.
    fn default() -> (game: Game)
        ensures
            game.players().len() == 0,
            game.hands().len() == 0,
            game.history().len() == 0,
            game.dealer() == 0,
            game.deck()@ == 0,
    {
        Game {
            players: Vec::new(),
            hands: Vec::new(),
            dealer: 0,
            deck: Cards::default(),
            game_history: Vec::new(),
        }
    }
}

impl Game {
    /// The players in seating order.
    pub closed spec fn players(&self) -> Seq<Player> {
        self.players@
    }

    /// The hands, by seat.
    pub closed spec fn hands(&self) -> Seq<Cards> {
        self.hands@
    }

    /// The seat of the dealer.
    pub closed spec fn dealer(&self) -> int {
        self.dealer as int
    }

    /// The cards not yet dealt.
    pub closed spec fn deck(&self) -> Cards {
        self.deck
    }

    /// What happened so far, the oldest event first.
    pub closed spec fn history(&self) -> Seq<GameEvent> {
        self.game_history@
    }

    /// Seats `player` behind the others, if the player brings at least 100 chips.
    pub fn add_player(&mut self, player: Player) -> (seated: bool)
        ensures
            seated == (player@.1 >= 100),
            final(self).players() == if seated {
                old(self).players().push(player)
            } else {
                old(self).players()
            },
            final(self).hands() == old(self).hands(),
            final(self).dealer() == old(self).dealer(),
            final(self).deck() == old(self).deck(),
            final(self).history() == old(self).history(),
    {
        if player.stack() < 100 {
            return false;
        }
        self.players.push(player);
        true
    }

    /// Records a bet.
    pub fn add_bet(&mut self, bet: u32)
        ensures
            final(self).history() == old(self).history().push(GameEvent::Bet(bet)),
            final(self).players() == old(self).players(),
            final(self).hands() == old(self).hands(),
            final(self).dealer() == old(self).dealer(),
            final(self).deck() == old(self).deck(),
    {
        self.game_history.push(GameEvent::Bet(bet));
    }

    /// Starts a round, if at least two players are seated: the first player
    /// moves behind the others, the stacks go into the history, and from a
    /// full deck each player is dealt two cards at random, one card to each
    /// seat in turn, on top of what the seat may hold. With fewer than two
    /// players nothing happens.
    pub fn new_round(&mut self) -> (started: bool)
        requires
            old(self).players().len() <= 26,
        ensures
            started == (old(self).players().len() >= 2),
            final(self).dealer() == old(self).dealer(),
            !started ==> {
                &&& final(self).players() == old(self).players()
                &&& final(self).hands() == old(self).hands()
                &&& final(self).deck() == old(self).deck()
                &&& final(self).history() == old(self).history()
            },
            started ==> {
                &&& final(self).players() == old(self).players().skip(1).push(
                    old(self).players()[0],
                )
                &&& final(self).history() == old(self).history() + start_stacks(
                    final(self).players(),
                    final(self).dealer(),
                )
                &&& exists|drawn: Seq<u64>|
                    {
                        &&& #[trigger] is_deal(
                            drawn,
                            old(self).players().len() as int,
                            final(self).deck()@,
                        )
                        &&& hands_dealt(
                            old(self).hands(),
                            final(self).hands(),
                            drawn,
                            old(self).players().len() as int,
                        )
                    }
            },
    {
        if self.players.len() < 2 {
            return false;
        }
        let first_player = self.players.remove(0);
        self.players.push(first_player);
        let n = self.players.len();
        let ghost seated = self.players@;
        let ghost recorded = self.game_history@;
        let ghost stacks = start_stacks(seated, self.dealer as int);
        proof {
            assert(seated =~= old(self).players@.skip(1).push(old(self).players@[0]));
        }

        let mut i: usize = 0;
        while i < n
            invariant
                0 <= i <= n,
                n == seated.len(),
                2 <= n <= 26,
                self.players@ == seated,
                n == old(self).players@.len(),
                seated == old(self).players@.skip(1).push(old(self).players@[0]),
                recorded == old(self).game_history@,
                self.deck == old(self).deck,
                self.dealer == old(self).dealer,
                self.hands@ == old(self).hands@,
                stacks == start_stacks(seated, self.dealer as int),
                self.game_history@ == recorded + stacks.take(i as int),
            decreases n - i,
        {
            let seat = (i + self.dealer % n) % n;
            proof {
                lemma_add_mod_noop_right(i as int, self.dealer as int, n as int);
            }
            let stack = self.players[seat].stack();
            self.game_history.push(GameEvent::StartStack(stack));
            proof {
                assert(stacks.take(i + 1) =~= stacks.take(i as int).push(stacks[i as int]));
                assert(self.game_history@ =~= recorded + stacks.take(i + 1));
            }
            i = i + 1;
        }
        proof {
            assert(stacks.take(n as int) =~= stacks);
        }

        self.deck = Cards::from(FULL_DECK);
        let ghost before = self.hands@;
        let ghost mut drawn: Seq<u64> = Seq::empty();
        proof {
            lemma_word_algebra(FULL_DECK, 0, 0);
            lemma_popcount_zero(0);
            lemma_full_deck();
            assert forall|k: int| 0 <= k < before.len() implies (#[trigger] before[k])@
                == hand_after(before, drawn, n as int, 0, k) by {
                lemma_word_algebra(before[k]@, 0, 0);
            }
        }
        let mut i: usize = 0;
        while i < n * 2
            invariant
                0 <= i <= 2 * n,
                2 <= n <= 26,
                n == seated.len(),
                self.players@ == seated,
                n == old(self).players@.len(),
                seated == old(self).players@.skip(1).push(old(self).players@[0]),
                recorded == old(self).game_history@,
                stacks == start_stacks(seated, self.dealer as int),
                self.dealer == old(self).dealer,
                self.game_history@ == recorded + stacks,
                before == old(self).hands@,
                drawn.len() == i,
                forall|j: int| 0 <= j < drawn.len() ==> popcount(#[trigger] drawn[j]) == 1,
                subset_of(union_of(drawn), FULL_DECK),
                popcount(union_of(drawn)) == i,
                self.deck@ == FULL_DECK & !union_of(drawn),
                popcount(self.deck@) == 52 - i,
                self.hands@.len() == if before.len() >= i || before.len() >= n {
                    before.len() as int
                } else if i <= n {
                    i as int
                } else {
                    n as int
                },
                forall|k: int|
                    0 <= k < n && k < self.hands@.len() ==> (#[trigger] self.hands@[k])@
                        == hand_after(before, drawn, n as int, i as int, k),
                forall|k: int| n <= k < before.len() ==> #[trigger] self.hands@[k] == before[k],
            decreases 2 * n - i,
        {
            let ghost pile = union_of(drawn);
            let ghost deck_before = self.deck@;
            let ghost hands_before = self.hands@;
            let card = match self.deck.take_random() {
                Ok(card) => card,
                Err(_) => {
                    proof {
                        lemma_popcount_zero(0);
                    }
                    return false;
                },
            };
            let seat = i % n;
            proof {
                assert(seat == if i < n {
                    i as int
                } else {
                    i - n
                }) by (nonlinear_arith)
                    requires
                        seat == i % n,
                        0 <= i < 2 * n,
                        n > 0,
                ;
                let dealt = drawn.push(card@);
                assert(dealt.drop_last() =~= drawn);
                assert(union_of(dealt) == pile | card@);
                lemma_word_algebra(card@, FULL_DECK, pile);
                lemma_word_algebra(FULL_DECK, pile, card@);
                lemma_word_algebra(pile, card@, FULL_DECK);
                lemma_popcount_disjoint(pile, card@);
            }
            if seat < self.hands.len() {
                let mut hand = self.hands[seat];
                proof {
                    let lay = if seat < before.len() {
                        before[seat as int]@
                    } else {
                        0
                    };
                    lemma_word_algebra(lay, card@, 0);
                    if i >= n {
                        lemma_word_algebra(lay | drawn[seat as int], 0, card@);
                    }
                }
                hand.add_cards(card.value());
                self.hands.set(seat, hand);
            } else {
                proof {
                    lemma_word_algebra(card@, 0, 0);
                }
                self.hands.push(card);
            }
            proof {
                drawn = drawn.push(card@);
                assert forall|k: int| 0 <= k < n && k < self.hands@.len() implies (
                #[trigger] self.hands@[k])@ == hand_after(before, drawn, n as int, i + 1, k) by {
                    if k != seat {
                        assert(self.hands@[k] == hands_before[k]);
                    }
                }
            }
            i = i + 1;
        }
        proof {
            assert(is_deal(drawn, old(self).players().len() as int, self.deck()@));
            assert(hands_dealt(
                old(self).hands(),
                self.hands(),
                drawn,
                old(self).players().len() as int,
            ));
        }
        true
    }
}

} // verus!
