//! The bookkeeping of a round: who plays, with what stack, and what was dealt.

pub mod game;
pub mod player;
