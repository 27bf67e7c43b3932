//! Bit-level building blocks: the model of a word as a set of bit positions,
//! single-bit scanners and the k-combination enumerator.

pub mod bits;
pub mod bit_iterator;
pub mod combinations;
pub mod all_bit_combo_iterator;
