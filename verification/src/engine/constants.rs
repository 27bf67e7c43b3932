//! The layout of the deck inside a 64-bit word.
//!
//! The 52 low bits are live: thirteen groups of four, the Ace's group highest
//! and the Two's lowest; inside a group the Spade is the highest bit, then the
//! Heart, the Diamond and the Club.

use crate::util::bits::{
    bit_at, lemma_count_all_set, lemma_count_below_all, lemma_word_algebra, popcount, subset_of,
};
use vstd::prelude::*;

verus! {

pub const FULL_DECK: u64 = 0xFFFFFFFFFFFFF;

pub const SPADE: u64 = 0x8888888888888;

pub const HEART: u64 = 0x4444444444444;

pub const DIAMOND: u64 = 0x2222222222222;

pub const CLUB: u64 = 0x1111111111111;

pub const ACE: u64 = 0xF000000000000;

pub const KING: u64 = 0x0F00000000000;

pub const QUEEN: u64 = 0x00F0000000000;

pub const JACK: u64 = 0x000F000000000;

pub const TEN: u64 = 0x0000F00000000;

pub const NINE: u64 = 0x00000F0000000;

pub const EIGHT: u64 = 0x000000F000000;

pub const SEVEN: u64 = 0x0000000F00000;

pub const SIX: u64 = 0x00000000F0000;

pub const FIVE: u64 = 0x000000000F000;

pub const FOUR: u64 = 0x0000000000F00;

pub const THREE: u64 = 0x00000000000F0;

pub const TWO: u64 = 0x000000000000F;

/// The rank masks, from the Ace down to the Two.
pub const RANKS: [u64; 13] = [
    ACE,
    KING,
    QUEEN,
    JACK,
    TEN,
    NINE,
    EIGHT,
    SEVEN,
    SIX,
    FIVE,
    FOUR,
    THREE,
    TWO,
];

/// The letter of each rank, in the order of `RANKS`.
pub const RANK_NAMES: [&'static str; 13] = [
    "A",
    "K",
    "Q",
    "J",
    "T",
    "9",
    "8",
    "7",
    "6",
    "5",
    "4",
    "3",
    "2",
];

/// The suit masks, from the Spade down to the Club.
pub const SUITS: [u64; 4] = [SPADE, HEART, DIAMOND, CLUB];

/// The letter of each suit, in the order of `SUITS`.
pub const SUIT_NAMES: [&'static str; 4] = ["s", "h", "d", "c"];

/// The mask of the rank with index `r`, where `0` is the Ace and `12` the Two.
pub open spec fn rank_mask(r: int) -> u64 {
    ACE >> ((4 * r) as u64)
}

/// The mask of the suit with index `s`, where `0` is the Spade and `3` the Club.
pub open spec fn suit_mask(s: int) -> u64 {
    SPADE >> (s as u64)
}

/// The index into `RANKS` of the rank of the card at bit position `q`.
pub open spec fn rank_of(q: int) -> int {
    12 - q / 4
}

/// The index into `SUITS` of the suit of the card at bit position `q`.
pub open spec fn suit_of(q: int) -> int {
    3 - q % 4
}

proof fn lemma_bv_tables()
    by (bit_vector)
    ensures
        0xF000000000000u64 >> 0 == 0xF000000000000u64,
        0xF000000000000u64 >> 4 == 0x0F00000000000u64,
        0xF000000000000u64 >> 8 == 0x00F0000000000u64,
        0xF000000000000u64 >> 12 == 0x000F000000000u64,
        0xF000000000000u64 >> 16 == 0x0000F00000000u64,
        0xF000000000000u64 >> 20 == 0x00000F0000000u64,
        0xF000000000000u64 >> 24 == 0x000000F000000u64,
        0xF000000000000u64 >> 28 == 0x0000000F00000u64,
        0xF000000000000u64 >> 32 == 0x00000000F0000u64,
        0xF000000000000u64 >> 36 == 0x000000000F000u64,
        0xF000000000000u64 >> 40 == 0x0000000000F00u64,
        0xF000000000000u64 >> 44 == 0x00000000000F0u64,
        0xF000000000000u64 >> 48 == 0x000000000000Fu64,
        0x8888888888888u64 >> 0 == 0x8888888888888u64,
        0x8888888888888u64 >> 1 == 0x4444444444444u64,
        0x8888888888888u64 >> 2 == 0x2222222222222u64,
        0x8888888888888u64 >> 3 == 0x1111111111111u64,
{
}

proof fn lemma_bv_layout(r: u64, s: u64, q: u64)
    by (bit_vector)
    requires
        r < 13,
        s < 4,
        q < 64,
    ensures
        (((0xF000000000000u64 >> ((4 * r) as u64)) >> q) & 1 == 1) == (48 - 4 * r <= q && q < 52
            - 4 * r),
        (((0x8888888888888u64 >> s) >> q) & 1 == 1) == (q < 52 && q % 4 == 3 - s),
        ((0xFFFFFFFFFFFFFu64 >> q) & 1 == 1) == (q < 52),
{
}

/// The tables hold the masks that `rank_mask` and `suit_mask` name.
pub proof fn lemma_tables()
    ensures
        forall|r: int| 0 <= r < 13 ==> #[trigger] RANKS[r] == rank_mask(r),
        forall|s: int| 0 <= s < 4 ==> #[trigger] SUITS[s] == suit_mask(s),
{
    lemma_bv_tables();
}

/// Which bit positions each rank, each suit and the full deck hold.
pub proof fn lemma_layout()
    ensures
        forall|r: int, q: int|
            0 <= r < 13 ==> (#[trigger] bit_at(rank_mask(r), q) <==> 0 <= q < 52 && rank_of(q)
                == r),
        forall|s: int, q: int|
            0 <= s < 4 ==> (#[trigger] bit_at(suit_mask(s), q) <==> 0 <= q < 52 && suit_of(q)
                == s),
        forall|q: int| #[trigger] bit_at(FULL_DECK, q) <==> 0 <= q < 52,
{
    assert forall|r: int, q: int| 0 <= r < 13 implies (#[trigger] bit_at(rank_mask(r), q) <==> 0
        <= q < 52 && rank_of(q) == r) by {
        if 0 <= q < 64 {
            lemma_bv_layout(r as u64, 0, q as u64);
        }
    }
    assert forall|s: int, q: int| 0 <= s < 4 implies (#[trigger] bit_at(suit_mask(s), q) <==> 0
        <= q < 52 && suit_of(q) == s) by {
        if 0 <= q < 64 {
            lemma_bv_layout(0, s as u64, q as u64);
        }
    }
    assert forall|q: int| #[trigger] bit_at(FULL_DECK, q) <==> 0 <= q < 52 by {
        if 0 <= q < 64 {
            lemma_bv_layout(0, 0, q as u64);
        }
    }
}

/// The full deck has 52 cards.
pub proof fn lemma_full_deck()
    ensures
        popcount(FULL_DECK) == 52,
        subset_of(0, FULL_DECK),
{
    lemma_layout();
    lemma_count_below_all(FULL_DECK, 52);
    lemma_count_all_set(FULL_DECK, 52);
    lemma_word_algebra(FULL_DECK, 0, 0);
}

/// The letter of the rank with index `i`, from `A` for the Ace down to `2`.
pub open spec fn rank_letter(i: int) -> char {
    if i == 0 {
        'A'
    } else if i == 1 {
        'K'
    } else if i == 2 {
        'Q'
    } else if i == 3 {
        'J'
    } else if i == 4 {
        'T'
    } else if i == 5 {
        '9'
    } else if i == 6 {
        '8'
    } else if i == 7 {
        '7'
    } else if i == 8 {
        '6'
    } else if i == 9 {
        '5'
    } else if i == 10 {
        '4'
    } else if i == 11 {
        '3'
    } else {
        '2'
    }
}

/// The letter of the suit with index `i`: `s`, `h`, `d` or `c`.
pub open spec fn suit_letter(i: int) -> char {
    if i == 0 {
        's'
    } else if i == 1 {
        'h'
    } else if i == 2 {
        'd'
    } else {
        'c'
    }
}

/// The tables of names hold one letter each: that of the rank or the suit.
pub proof fn lemma_names()
    ensures
        forall|r: int| 0 <= r < 13 ==> (#[trigger] RANK_NAMES[r])@ == seq![rank_letter(r)],
        forall|s: int| 0 <= s < 4 ==> (#[trigger] SUIT_NAMES[s])@ == seq![suit_letter(s)],
{
    reveal_strlit("A");
    assert("A"@ =~= seq!['A']);
    reveal_strlit("K");
    assert("K"@ =~= seq!['K']);
    reveal_strlit("Q");
    assert("Q"@ =~= seq!['Q']);
    reveal_strlit("J");
    assert("J"@ =~= seq!['J']);
    reveal_strlit("T");
    assert("T"@ =~= seq!['T']);
    reveal_strlit("9");
    assert("9"@ =~= seq!['9']);
    reveal_strlit("8");
    assert("8"@ =~= seq!['8']);
    reveal_strlit("7");
    assert("7"@ =~= seq!['7']);
    reveal_strlit("6");
    assert("6"@ =~= seq!['6']);
    reveal_strlit("5");
    assert("5"@ =~= seq!['5']);
    reveal_strlit("4");
    assert("4"@ =~= seq!['4']);
    reveal_strlit("3");
    assert("3"@ =~= seq!['3']);
    reveal_strlit("2");
    assert("2"@ =~= seq!['2']);
    reveal_strlit("s");
    assert("s"@ =~= seq!['s']);
    reveal_strlit("h");
    assert("h"@ =~= seq!['h']);
    reveal_strlit("d");
    assert("d"@ =~= seq!['d']);
    reveal_strlit("c");
    assert("c"@ =~= seq!['c']);
}

} // verus!
