//! Card sets, hand classification and exact equity.

pub mod constants;
pub mod cards;
pub mod hand_lemmas;
pub mod outcome;
pub mod out_runner;
