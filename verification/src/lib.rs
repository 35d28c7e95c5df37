//! Puzzle helpers: potion costs for creature lineups, and a rune matcher
//! that counts the text positions covered by any occurrence of a word or
//! of its reversal.

pub mod matcher;
pub mod parsing;
pub mod potions_pairs;
pub mod potions_single;
pub mod potions_trios;
pub mod rune_occurrences;
pub mod runic_symbols;
