//! Poker hand evaluation over 64-bit card masks, with exact equity by enumeration.
//!
//! A deck is a 64-bit word with 52 live bits, four suit bits per rank. The
//! modules build on each other: bit scanners and the combination enumerator
//! in [`util`], card sets, hand classification and equity in [`engine`], and
//! the round bookkeeping in [`gameplay`].

pub mod util;
pub mod engine;
pub mod gameplay;
