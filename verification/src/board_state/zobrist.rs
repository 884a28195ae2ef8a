use vstd::prelude::*;
use crate::rng::{rng_take, seeded_u64s};
use super::bitboard::{bit, lemma_bit_ops, lemma_xor, Bitboard};
use super::board::Board;
use super::typedefs::{color_index, Color, Piece, Square, BLACK, NOPIECE, WHITE};

verus! {

// Zobrist hashing "hashes" a board into a 64 bit integer by XORing its various features.
// For each feature on the board, the hash is XORed with a random 64 bit integer.
pub type ZobristKey = u64;

/// The random keys, drawn from a generator with a fixed seed. The piece keys are laid out
/// square by square, then color, then piece type.
pub struct Zobrist {
    pub piece_squares: Vec<ZobristKey>,
    pub castling_rights: Vec<ZobristKey>,
    pub ep_square: Vec<ZobristKey>,
    pub active_color: ZobristKey,
}

/// The seed of the key generator.
pub const SEED: [u8; 32] = [
    133, 133, 133, 133, 133, 133, 133, 133, 133, 133, 133, 133, 133, 133, 133, 133, 133, 133, 133,
    133, 133, 133, 133, 133, 133, 133, 133, 133, 133, 133, 133, 133,
];

impl Default for Zobrist {
    fn default() -> (r: Self)
        ensures
            r.wf(),
    {
        Self::new()
    }
}

impl Zobrist {
    /// The tables have one key per piece type, color and square, per castling rights value,
    /// and per en passant square.
    pub open spec fn wf(&self) -> bool {
        &&& self.piece_squares.len() == 768
        &&& self.castling_rights.len() == 16
        &&& self.ep_square.len() == 64
    }

    /// The key of piece type `p` (1..=6) of color `c` on square `s`.
    pub open spec fn piece_key(&self, s: int, c: Color, p: int) -> u64 {
        self.piece_squares@[s * 12 + color_index(c) * 6 + p - 1]
    }

    /// The keys: the first 849 outputs of the generator seeded with `SEED`, in turn the
    /// piece keys, the castling keys, the en passant keys and the side-to-move key.
    pub fn new() -> (r: Self)
        ensures
            r.wf(),
            r.piece_squares@ == seeded_u64s(SEED@, 849).subrange(0, 768),
            r.castling_rights@ == seeded_u64s(SEED@, 849).subrange(768, 784),
            r.ep_square@ == seeded_u64s(SEED@, 849).subrange(784, 848),
            r.active_color == seeded_u64s(SEED@, 849)[848],
    {
        let keys = rng_take(SEED, 849);
        let piecesquares = take_keys(&keys, 0, 768);
        let castlerights = take_keys(&keys, 768, 784);
        let ep_squares = take_keys(&keys, 784, 848);
        let stm = keys[848];
        Zobrist {
            piece_squares: piecesquares,
            castling_rights: castlerights,
            ep_square: ep_squares,
            active_color: stm,
        }
    }

    pub fn get_piece_zob(&self, square: Square, color: Color, piece: Piece) -> (r: ZobristKey)
        requires
            self.wf(),
            square < 64,
            1 <= piece <= 6,
        ensures
            r == self.piece_key(square as int, color, piece as int),
    {
        let pieceindex = (piece - 1) as usize;
        let ci: usize = if color { 1 } else { 0 };
        self.piece_squares[square as usize * 12 + ci * 6 + pieceindex]
    }
}

/// The keys of `keys` from `start` up to `end`.
pub fn take_keys(keys: &Vec<u64>, start: usize, end: usize) -> (r: Vec<u64>)
    requires
        start <= end <= keys.len(),
    ensures
        r@ == keys@.subrange(start as int, end as int),
{
    let mut r: Vec<u64> = Vec::new();
    let mut i = start;
    while i < end
        invariant
            start <= i <= end <= keys.len(),
            r@ == keys@.subrange(start as int, i as int),
        decreases end - i,
    {
        r.push(keys[i]);
        i += 1;
        proof {
            assert(r@ =~= keys@.subrange(start as int, i as int));
        }
    }
    r
}

impl Board {
    /// The keys of the pieces on square `s`: one per color bitboard that holds it.
    pub open spec fn square_key(&self, z: &Zobrist, s: int) -> u64 {
        let w: u64 = if bit(self.colors[0], s) { z.piece_key(s, WHITE, self.at_square(s)) } else { 0 };
        let b: u64 = if bit(self.colors[1], s) { z.piece_key(s, BLACK, self.at_square(s)) } else { 0 };
        w ^ b
    }

    /// The exclusive-or of the square keys of the squares below `n`.
    pub open spec fn psq_key(&self, z: &Zobrist, n: int) -> u64
        decreases n,
    {
        if n <= 0 {
            0
        } else {
            self.psq_key(z, n - 1) ^ self.square_key(z, n - 1)
        }
    }

    /// The side-to-move key: present when white is to move.
    pub open spec fn stm_key(&self, z: &Zobrist) -> u64 {
        if self.tomove == BLACK { 0 } else { z.active_color }
    }

    pub open spec fn ep_key(&self, z: &Zobrist) -> u64 {
        match self.passant_square {
            None => 0,
            Some(s) => z.ep_square@[s as int],
        }
    }

    pub open spec fn castling_key(&self, z: &Zobrist) -> u64 {
        z.castling_rights@[self.castling_rights as int]
    }

    /// The hash of a board, computed from scratch.
    pub open spec fn hash(&self, z: &Zobrist) -> u64 {
        ((self.psq_key(z, 64) ^ self.ep_key(z)) ^ self.stm_key(z)) ^ self.castling_key(z)
    }

    /// The stored key is the board's hash.
    pub open spec fn hash_ok(&self, z: &Zobrist) -> bool {
        self.zobrist_key == self.hash(z)
    }

    /// What hashing from scratch reads is in range: the castling rights fit in four bits,
    /// the en passant square is on the board, and each square of a color holds one piece
    /// type (1 to 6). A consistent board is hashable (`lemma_wf_hashable`).
    pub open spec fn hashable(&self) -> bool {
        &&& self.castling_rights < 16
        &&& (self.passant_square matches Some(s) ==> s < 64)
        &&& forall|t: int|
            0 <= t < 64 && (bit(self.colors[0], t) || bit(self.colors[1], t)) ==> 1 <= #[trigger] self.at_square(t) <= 6
    }

    pub proof fn lemma_wf_hashable(&self)
        requires
            self.wf(),
        ensures
            self.hashable(),
    {
        assert forall|t: int|
            0 <= t < 64 && (bit(self.colors[0], t) || bit(self.colors[1], t)) implies 1 <= #[trigger] self.at_square(t) <= 6 by {
            self.lemma_wf_square(t);
            lemma_bit_ops(self.colors[0], self.colors[1], t);
        }
    }

    pub fn generate_zobrist(&self, z: &Zobrist) -> (r: ZobristKey)
        requires
            self.hashable(),
            z.wf(),
        ensures
            r == self.hash(z),
    {
        let stm_zob = self.get_stm_zob(z);
        let ep_zob = self.get_ep_zob(z);
        let castling_zob = self.get_castling_zob(z);
        let mut psq_zob: u64 = 0;
        for square in 0..64u8
            invariant
                self.hashable(),
                z.wf(),
                psq_zob == self.psq_key(z, square as int),
        {
            let iswhite = self.is_color(square, WHITE);
            let isblack = self.is_color(square, BLACK);
            proof {
                assert(iswhite || isblack ==> 1 <= self.at_square(square as int) <= 6);
                lemma_xor(psq_zob, 0, 0);
            }
            let ghost before = psq_zob;
            if iswhite {
                let piece = self.get_at_square(square);
                let val = z.get_piece_zob(square, WHITE, piece);
                psq_zob ^= val;
            }
            if isblack {
                let piece = self.get_at_square(square);
                let val = z.get_piece_zob(square, BLACK, piece);
                psq_zob ^= val;
            }
            proof {
                let w: u64 = if iswhite { z.piece_key(square as int, WHITE, self.at_square(square as int)) } else { 0 };
                let b: u64 = if isblack { z.piece_key(square as int, BLACK, self.at_square(square as int)) } else { 0 };
                lemma_xor(before, w, b);
                lemma_xor(before, 0, 0);
                lemma_xor(w, 0, 0);
                lemma_xor(b, 0, 0);
            }
        }
        psq_zob ^ ep_zob ^ stm_zob ^ castling_zob
    }

    pub fn get_stm_zob(&self, z: &Zobrist) -> (r: ZobristKey)
        ensures
            r == self.stm_key(z),
    {
        if self.tomove == BLACK {
            0
        } else {
            z.active_color
        }
    }

    pub fn get_ep_zob(&self, z: &Zobrist) -> (r: ZobristKey)
        requires
            self.passant_square matches Some(s) ==> s < 64,
            z.wf(),
        ensures
            r == self.ep_key(z),
    {
        match self.passant_square {
            None => 0,
            Some(square) => z.ep_square[square as usize],
        }
    }

    pub fn get_castling_zob(&self, z: &Zobrist) -> (r: ZobristKey)
        requires
            self.castling_rights < 16,
            z.wf(),
        ensures
            r == self.castling_key(z),
    {
        z.castling_rights[self.castling_rights as usize]
    }
}

/// When two boards have the same square keys everywhere but on square `s`, their running
/// exclusive-ors differ by the change on `s` once `s` is passed.
pub proof fn lemma_psq_change(b1: &Board, b2: &Board, z: &Zobrist, s: int, n: int)
    requires
        0 <= s < 64,
        n <= 64,
        forall|t: int| 0 <= t < 64 && t != s ==> #[trigger] b1.square_key(z, t) == b2.square_key(z, t),
    ensures
        b2.psq_key(z, n) == b1.psq_key(z, n) ^ (if s < n {
            b1.square_key(z, s) ^ b2.square_key(z, s)
        } else {
            0
        }),
    decreases n,
{
    if n <= 0 {
        lemma_xor(0, 0, 0);
    } else {
        lemma_psq_change(b1, b2, z, s, n - 1);
        let a = b1.psq_key(z, n - 1);
        let k1 = b1.square_key(z, n - 1);
        let k2 = b2.square_key(z, n - 1);
        let d1 = b1.square_key(z, s);
        let d2 = b2.square_key(z, s);
        if s < n - 1 {
            lemma_hash_xor(a, d1, d2, 0, k1);
        } else if s == n - 1 {
            lemma_xor(a, 0, 0);
            lemma_hash_xor(a, d1, d2, 0, 0);
        } else {
            lemma_xor(a, 0, 0);
            lemma_xor(a ^ k1, 0, 0);
        }
    }
}

/// Boards with the same square keys have the same running exclusive-or.
pub proof fn lemma_psq_same(b1: &Board, b2: &Board, z: &Zobrist, n: int)
    requires
        n <= 64,
        forall|t: int| 0 <= t < 64 ==> #[trigger] b1.square_key(z, t) == b2.square_key(z, t),
    ensures
        b2.psq_key(z, n) == b1.psq_key(z, n),
    decreases n,
{
    if n > 0 {
        lemma_psq_same(b1, b2, z, n - 1);
    }
}

/// Adding a key to the piece keys adds it to the whole hash.
pub proof fn lemma_hash_xor(a: u64, e: u64, t: u64, c: u64, k: u64)
    by (bit_vector)
    ensures
        (((a ^ k) ^ e) ^ t) ^ c == ((((a ^ e) ^ t) ^ c) ^ k),
        ((((a ^ e) ^ t) ^ c) ^ k) ^ k == ((a ^ e) ^ t) ^ c,
        (((a ^ 0) ^ t) ^ c) ^ k == ((a ^ k) ^ t) ^ c,
        (((a ^ k) ^ t) ^ c) ^ k == ((a ^ 0) ^ t) ^ c,
        (((a ^ e) ^ k) ^ c) ^ k == ((a ^ e) ^ 0) ^ c,
        (((a ^ e) ^ 0) ^ c) ^ k == ((a ^ e) ^ k) ^ c,
        ((a ^ (e ^ t)) ^ k) == ((a ^ k) ^ (e ^ t)),
        (a ^ t) == ((a ^ e) ^ (e ^ t)),
        ((((a ^ e) ^ t) ^ c) ^ c) ^ k == ((a ^ e) ^ t) ^ k,
{
}

} // verus!
