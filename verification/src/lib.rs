//! Core of a 9x9 digit-placement puzzle: the 81-cell board with its row,
//! column and box partitions, the uniqueness rule for each nine-cell group,
//! a randomized puzzle generator with a difficulty-driven removal policy,
//! and a session that owns one board and exposes the mutation API.

pub mod board;
pub mod generate;
pub mod session;
