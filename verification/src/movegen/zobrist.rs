use vstd::prelude::*;
use crate::rng::{rng_take, seeded_u64s};
use crate::board_state::zobrist::take_keys;
use super::board::Castling;
use super::types::{color_index, piece_index, square, Color, Piece, Square};

verus! {

pub type Zobrist = u64;

/// The random keys, drawn from a generator with a fixed seed: piece keys laid out by color,
/// then piece type, then square; castling keys by right, then value.
pub struct ZobristContainer {
    pub piece_squares: Vec<Zobrist>,
    pub castling_rights: Vec<Zobrist>,
    pub passant_file: Vec<Zobrist>,
    pub active_color: Zobrist,
}

/// The seed of the key generator.
pub const KEY_SEED: [u8; 32] = [
    255, 255, 255, 255, 255, 255, 255, 255, 255, 255, 255, 255, 255, 255, 255, 255, 255, 255, 255,
    255, 255, 255, 255, 255, 255, 255, 255, 255, 255, 255, 255, 255,
];

/// The index of a castling right.
pub open spec fn castling_index(c: Castling) -> int {
    match c {
        Castling::WK => 0,
        Castling::WQ => 1,
        Castling::BK => 2,
        Castling::BQ => 3,
    }
}

impl ZobristContainer {
    pub open spec fn wf(&self) -> bool {
        &&& self.piece_squares.len() == 768
        &&& self.castling_rights.len() == 8
        &&& self.passant_file.len() == 8
    }

    /// The key of a piece of a color on a square.
    pub open spec fn piece_key(&self, piece: Piece, square: int, color: Color) -> u64 {
        self.piece_squares@[color_index(color) * 384 + piece_index(piece) * 64 + square]
    }

    /// The keys: the first 785 outputs of the generator seeded with `KEY_SEED`, in turn
    /// the piece keys, the castling keys, the en passant file keys and the side-to-move key.
    pub fn new() -> (r: Self)
        ensures
            r.wf(),
            r.piece_squares@ == seeded_u64s(KEY_SEED@, 785).subrange(0, 768),
            r.castling_rights@ == seeded_u64s(KEY_SEED@, 785).subrange(768, 776),
            r.passant_file@ == seeded_u64s(KEY_SEED@, 785).subrange(776, 784),
            r.active_color == seeded_u64s(KEY_SEED@, 785)[784],
    {
        let keys = rng_take(KEY_SEED, 785);
        let piece_squares = take_keys(&keys, 0, 768);
        let castling_rights = take_keys(&keys, 768, 776);
        let passant_file = take_keys(&keys, 776, 784);
        let active_color = keys[784];
        ZobristContainer { piece_squares, castling_rights, passant_file, active_color }
    }
}

pub fn psqt_zobrist(z: &ZobristContainer, piece: Piece, square: Square, color: Color) -> (r: Zobrist)
    requires
        z.wf(),
        piece != Piece::Empty,
        square < 64,
    ensures
        r == z.piece_key(piece, square as int, color),
{
    z.piece_squares[color.index() * 384 + piece.index() * 64 + square as usize]
}

pub fn passant_zobrist(z: &ZobristContainer, ep_square: Square) -> (r: Zobrist)
    requires
        z.wf(),
    ensures
        r == z.passant_file@[(ep_square % 8) as int],
{
    z.passant_file[square::file_of(ep_square) as usize]
}

pub fn castling_zobrist(z: &ZobristContainer, value: bool, castle_dir: Castling) -> (r: Zobrist)
    requires
        z.wf(),
    ensures
        r == z.castling_rights@[castling_index(castle_dir) * 2 + if value { 1int } else { 0 }],
{
    let v: usize = if value { 1 } else { 0 };
    z.castling_rights[castle_dir.index() * 2 + v]
}

pub fn turn_zobrist(z: &ZobristContainer) -> (r: Zobrist)
    ensures
        r == z.active_color,
{
    z.active_color
}

} // verus!
