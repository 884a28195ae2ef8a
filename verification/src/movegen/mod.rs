pub mod atks;
pub mod bitboard;
pub mod board;
pub mod types;
pub mod zobrist;
pub mod movelist;
pub mod fen;
pub mod display;
