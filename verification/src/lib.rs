//! A bitboard chess engine core: board representation, move application,
//! move generation, static evaluation and fixed-depth alpha-beta search.

pub mod bitboard;
pub mod complete;
pub mod engine;
pub mod eval;
pub mod game;
pub mod move_search;
pub mod notation;
pub mod protocol;
pub mod rules;
pub mod types;
pub mod utils;
