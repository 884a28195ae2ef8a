//! ShenYu: a bitboard chess engine library.

pub mod board_state;
pub mod search;
mod rng;
pub mod move_generation;
pub mod text;
pub mod movegen;
pub mod testing;
pub mod uci;
