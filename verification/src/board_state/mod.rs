pub mod bitboard;
pub mod board;
pub mod typedefs;
pub mod zobrist;
pub mod fen;
pub mod display;
