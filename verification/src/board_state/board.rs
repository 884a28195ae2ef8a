use vstd::prelude::*;
use crate::search::evaluate::{lemma_wrap16, phase_of, IncrementalEval};
use super::bitboard::{
    bit, bitv, lemma_bit_ops, lemma_bitv_exec, lemma_lowest, lemma_single, lemma_xor, lowest, single,
    Bitboard, BB,
};
use super::typedefs::{color_index, Color, Piece, Square, BISHOP, BLACK, KING, QUEEN, ROOK, WHITE};
use super::zobrist::{lemma_hash_xor, lemma_psq_change, lemma_psq_same, Zobrist, ZobristKey};

verus! {

// Bitboards represent a board state in terms of 64 bit integers.
// A 1 represents the presence of a piece at that square, a 0 represents an absence.
// The board is one bitboard for each piece type (PNBRQK) and two color bitboards.
#[derive(Clone, Copy, PartialEq, Eq, Debug)]
pub struct Board {
    pub pieces: [Bitboard; 6],  // indexed in this order: Pawn, Knight, Bishop, Rook, Queen, King
    pub colors: [Bitboard; 2],
    pub tomove: Color,
    pub zobrist_key: ZobristKey,
    pub passant_square: Option<Square>,
    pub castling_rights: u8,  // KQkq
    pub halfmove_clock: u8,
    pub evaluator: IncrementalEval,
}

impl Default for Board {
    fn default() -> (r: Self)
        ensures
            r == Board::empty(),
    {
        Self::new()
    }
}

const E1_BB: Bitboard = 0x10;
const E8_BB: Bitboard = 0x1000000000000000;
const A1_BB: Bitboard = 1;
const H1_BB: Bitboard = 0x80;
const A8_BB: Bitboard = 0x100000000000000;
const H8_BB: Bitboard = 0x8000000000000000;

/// The piece type of the sum of six one-bit indicators weighted 1..=6.
pub open spec fn weighted(b0: int, b1: int, b2: int, b3: int, b4: int, b5: int) -> int {
    b0 + 2 * b1 + 3 * b2 + 4 * b3 + 5 * b4 + 6 * b5
}

impl Board {
    /// The bitboard of piece type `p`, 1 (pawn) to 6 (king).
    pub open spec fn pbb(&self, p: int) -> u64 {
        self.pieces[p - 1]
    }

    /// The bitboard of a color.
    pub open spec fn cbb(&self, c: Color) -> u64 {
        self.colors[color_index(c)]
    }

    /// Every occupied square.
    pub open spec fn occ(&self) -> u64 {
        self.colors[0] | self.colors[1]
    }

    /// What `get_at_square` computes: the piece type on `s` when at most one piece bitboard
    /// holds it, 0 when none does.
    pub open spec fn at_square(&self, s: int) -> int {
        weighted(
            bitv(self.pieces[0], s),
            bitv(self.pieces[1], s),
            bitv(self.pieces[2], s),
            bitv(self.pieces[3], s),
            bitv(self.pieces[4], s),
            bitv(self.pieces[5], s),
        )
    }

    /// How many piece bitboards hold square `t`.
    pub open spec fn piece_count(&self, t: int) -> int {
        bitv(self.pieces[0], t) + bitv(self.pieces[1], t) + bitv(self.pieces[2], t) + bitv(
            self.pieces[3],
            t,
        ) + bitv(self.pieces[4], t) + bitv(self.pieces[5], t)
    }

    /// Square `t` holds at most one piece and at most one color, and a color exactly when it
    /// holds a piece.
    pub open spec fn sq_ok(&self, t: int) -> bool {
        &&& self.piece_count(t) <= 1
        &&& !(bit(self.colors[0], t) && bit(self.colors[1], t))
        &&& (self.piece_count(t) == 1) == (bit(self.colors[0], t) || bit(self.colors[1], t))
    }

    /// A consistent board: every square is consistent, the castling rights fit in four bits
    /// and the en passant square is on the board.
    pub open spec fn wf(&self) -> bool {
        &&& forall|t: int| 0 <= t < 64 ==> #[trigger] self.sq_ok(t)
        &&& self.castling_rights < 16
        &&& (self.passant_square matches Some(s) ==> s < 64)
    }

    /// Square `s` is in none of the bitboards.
    pub open spec fn vacant(&self, s: int) -> bool {
        &&& forall|i: int| 0 <= i < 6 ==> !bit(#[trigger] self.pieces[i], s)
        &&& !bit(self.colors[0], s)
        &&& !bit(self.colors[1], s)
    }

    /// Two boards agree on every bitboard at square `t`.
    pub open spec fn same_at(&self, other: &Board, t: int) -> bool {
        &&& forall|i: int| 0 <= i < 6 ==> bit(#[trigger] self.pieces[i], t) == bit(other.pieces[i], t)
        &&& bit(self.colors[0], t) == bit(other.colors[0], t)
        &&& bit(self.colors[1], t) == bit(other.colors[1], t)
    }

    /// The empty board, white to move, with a fresh evaluator.
    pub open spec fn empty() -> Board {
        Board {
            pieces: [0, 0, 0, 0, 0, 0],
            colors: [0, 0],
            tomove: WHITE,
            zobrist_key: 0,
            passant_square: None,
            castling_rights: 0,
            halfmove_clock: 0,
            evaluator: IncrementalEval::initial(),
        }
    }

    pub fn new() -> (r: Self)
        ensures
            r == Board::empty(),
            r.wf(),
    {
        proof {
            assert forall|t: int| 0 <= t < 64 implies #[trigger] Board::empty().sq_ok(t) by {
                lemma_bit_ops(0u64, 0u64, t);
            }
        }
        Board {
            pieces: [0, 0, 0, 0, 0, 0],
            colors: [0, 0],
            tomove: WHITE,
            zobrist_key: 0,
            passant_square: None,
            castling_rights: 0,
            halfmove_clock: 0,
            evaluator: IncrementalEval::new(),
        }
    }

    /// The bitboard of a piece type, as `board[piece]` reads it.
    #[inline]
    pub fn piece_index(&self, index: Piece) -> (r: Bitboard)
        requires
            1 <= index <= 6,
        ensures
            r == self.pbb(index as int),
    {
        self.pieces[(index - 1) as usize]
    }

    /// The bitboard of a color, as `board[color]` reads it.
    #[inline]
    pub fn color_index(&self, index: Color) -> (r: Bitboard)
        ensures
            r == self.cbb(index),
    {
        if index { self.colors[1] } else { self.colors[0] }
    }

    #[inline]
    pub fn get_pieces(&self, piecetype: Piece, color: Color) -> (r: Bitboard)
        requires
            1 <= piecetype <= 6,
        ensures
            r == self.pbb(piecetype as int) & self.cbb(color),
    {
        self.piece_index(piecetype) & self.color_index(color)
    }

    #[inline]
    pub fn get_diagonal_sliders(&self, color: Color) -> (r: Bitboard)
        ensures
            r == (self.pbb(5) | self.pbb(3)) & self.cbb(color),
    {
        (self.piece_index(QUEEN) | self.piece_index(BISHOP)) & self.color_index(color)
    }

    #[inline]
    pub fn get_orthogonal_sliders(&self, color: Color) -> (r: Bitboard)
        ensures
            r == (self.pbb(5) | self.pbb(4)) & self.cbb(color),
    {
        (self.piece_index(QUEEN) | self.piece_index(ROOK)) & self.color_index(color)
    }

    #[inline]
    pub fn get_occupancy(&self) -> (r: Bitboard)
        ensures
            r == self.occ(),
    {
        self.color_index(WHITE) | self.color_index(BLACK)
    }

    /// The castling rights of one side in the two low bits: kingside then queenside.
    #[inline]
    pub fn get_castlerights(&self, color: Color) -> (r: u8)
        ensures
            r == if color { self.castling_rights } else { self.castling_rights >> 2 },
    {
        let shiftrights: [u8; 2] = [2, 0];
        let ci: usize = if color { 1 } else { 0 };
        proof {
            let cr = self.castling_rights;
            assert(cr >> 0u8 == cr) by (bit_vector);
        }
        self.castling_rights >> shiftrights[ci]
    }

    #[inline]
    pub fn get_at_square(&self, square: Square) -> (r: Piece)
        requires
            square < 64,
        ensures
            r == self.at_square(square as int),
            self.wf() ==> r <= 6,
    {
        proof {
            lemma_bitv_exec(self.pieces[0], square as u64);
            lemma_bitv_exec(self.pieces[1], square as u64);
            lemma_bitv_exec(self.pieces[2], square as u64);
            lemma_bitv_exec(self.pieces[3], square as u64);
            lemma_bitv_exec(self.pieces[4], square as u64);
            lemma_bitv_exec(self.pieces[5], square as u64);
            if self.wf() {
                self.lemma_wf_square(square as int);
            }
        }
        (((self.pieces[0] >> square) & 1) + ((self.pieces[1] >> square) & 1) * 2 + ((self.pieces[2]
            >> square) & 1) * 3 + ((self.pieces[3] >> square) & 1) * 4 + ((self.pieces[4] >> square)
            & 1) * 5 + ((self.pieces[5] >> square) & 1) * 6) as u8
    }

    /// On a consistent board a square holds at most one piece; an occupied square's piece
    /// type is `at_square`, and its bitboard is the only one that holds it.
    pub proof fn lemma_wf_square(&self, s: int)
        requires
            self.wf(),
            0 <= s < 64,
        ensures
            0 <= self.at_square(s) <= 6,
            self.at_square(s) == 0 <==> !bit(self.occ(), s),
            bit(self.occ(), s) ==> bit(self.pbb(self.at_square(s)), s),
            forall|i: int| 0 <= i < 6 && bit(#[trigger] self.pieces[i], s) ==> i + 1 == self.at_square(s),
            !(bit(self.colors[0], s) && bit(self.colors[1], s)),
    {
        assert(self.sq_ok(s));
        lemma_bit_ops(self.colors[0], self.colors[1], s);
    }

    #[inline]
    pub fn is_color(&self, square: Square, color: Color) -> (r: bool)
        requires
            square < 64,
        ensures
            r == bit(self.cbb(color), square as int),
    {
        let relevant_color = self.color_index(color);
        proof {
            lemma_bitv_exec(relevant_color, square as u64);
        }
        ((relevant_color >> square) & 1) != 0
    }

    #[inline]
    pub fn is_empty(&self, square: Square) -> (r: bool)
        requires
            square < 64,
        ensures
            r == !bit(self.occ(), square as int),
    {
        let sq = Bitboard::new(square);
        proof {
            lemma_bit_ops(self.occ(), sq, square as int);
            if self.occ() & sq != 0 {
                lemma_lowest(self.occ() & sq);
                lemma_bit_ops(self.occ(), sq, lowest(self.occ() & sq));
            }
            lemma_bit_ops(0u64, 0u64, square as int);
        }
        self.get_occupancy() & sq == 0
    }

    /// `self` is `old` with square `s` added to the bitboard of piece `p` and color `c`
    /// (`add`), or toggled off them (`!add`); everything else but the key and evaluator
    /// is unchanged.
    pub open spec fn placed(&self, old: &Board, s: int, p: int, c: Color, add: bool) -> bool {
        &&& forall|i: int|
            0 <= i < 6 ==> #[trigger] self.pieces[i] == if i == p - 1 {
                if add { old.pieces[i] | single(s) } else { old.pieces[i] ^ single(s) }
            } else {
                old.pieces[i]
            }
        &&& forall|i: int|
            0 <= i < 2 ==> #[trigger] self.colors[i] == if i == color_index(c) {
                if add { old.colors[i] | single(s) } else { old.colors[i] ^ single(s) }
            } else {
                old.colors[i]
            }
        &&& self.tomove == old.tomove
        &&& self.passant_square == old.passant_square
        &&& self.castling_rights == old.castling_rights
        &&& self.halfmove_clock == old.halfmove_clock
    }

    /// Moving a piece from `from` to an empty `to` leaves the bitboards that removing it
    /// from `from` and then setting it on `to` leave: each bitboard of the piece's type and
    /// color changes on the two squares, the others not, and the other fields stay (the hash
    /// and the evaluator change by the same keys and terms in both ways, as the contracts of
    /// `move_piece`, `remove_piece` and `set_piece` state them).
    pub proof fn lemma_move_is_remove_then_set(
        old: Board,
        mid: Board,
        fin: Board,
        from: int,
        to: int,
        p: int,
        c: Color,
    )
        requires
            0 <= from < 64,
            0 <= to < 64,
            from != to,
            1 <= p <= 6,
            bit(old.pbb(p), from),
            bit(old.cbb(c), from),
            old.vacant(to),
            mid.placed(&old, from, p, c, false),
            fin.placed(&mid, to, p, c, true),
        ensures
            forall|i: int|
                0 <= i < 6 ==> #[trigger] fin.pieces[i] == if i == p - 1 {
                    old.pieces[i] ^ (single(from) | single(to))
                } else {
                    old.pieces[i]
                },
            forall|i: int|
                0 <= i < 2 ==> #[trigger] fin.colors[i] == if i == color_index(c) {
                    old.colors[i] ^ (single(from) | single(to))
                } else {
                    old.colors[i]
                },
            fin.tomove == old.tomove,
            fin.passant_square == old.passant_square,
            fin.castling_rights == old.castling_rights,
            fin.halfmove_clock == old.halfmove_clock,
    {
        lemma_single(from as u64);
        lemma_single(to as u64);
        assert forall|x: u64| bit(x, from) && !bit(x, to) implies (x ^ single(from)) | single(to) == x ^ (single(
            from,
        ) | single(to)) by {
            assert forall|t: int| 0 <= t < 64 implies bit((x ^ single(from)) | single(to), t) == bit(
                x ^ (single(from) | single(to)),
                t,
            ) by {
                lemma_bit_ops(x ^ single(from), single(to), t);
                lemma_bit_ops(x, single(from), t);
                lemma_bit_ops(x, single(from) | single(to), t);
                lemma_bit_ops(single(from), single(to), t);
            }
            super::bitboard::lemma_bits_ext((x ^ single(from)) | single(to), x ^ (single(from) | single(to)));
        }
        assert(!bit(old.pieces[p - 1], to));
        assert(!bit(old.colors[color_index(c)], to));
    }

    /// Setting a piece on a vacant square and then removing it gives back the board it
    /// started from: bitboards, key and evaluator included.
    pub proof fn lemma_set_then_remove(
        b: Board,
        b1: Board,
        b2: Board,
        s: int,
        p: int,
        c: Color,
        z: &Zobrist,
    )
        requires
            0 <= s < 64,
            1 <= p <= 6,
            b.vacant(s),
            b.evaluator.phase + phase_of(p - 1) <= 32767,
            b1.placed(&b, s, p, c, true),
            b1.zobrist_key == b.zobrist_key ^ z.piece_key(s, c, p),
            b1.evaluator == b.evaluator.with_piece(s, p, c, 1),
            b2.placed(&b1, s, p, c, false),
            b2.zobrist_key == b1.zobrist_key ^ z.piece_key(s, c, p),
            b2.evaluator == b1.evaluator.with_piece(s, p, c, -1),
        ensures
            b2 == b,
    {
        lemma_single(s as u64);
        assert forall|x: u64| !bit(x, s) implies (x | single(s)) ^ single(s) == x by {
            assert forall|t: int| 0 <= t < 64 implies bit((x | single(s)) ^ single(s), t) == bit(x, t) by {
                lemma_bit_ops(x | single(s), single(s), t);
                lemma_bit_ops(x, single(s), t);
            }
            super::bitboard::lemma_bits_ext((x | single(s)) ^ single(s), x);
        }
        assert(!bit(b.pieces[p - 1], s));
        assert(!bit(b.colors[color_index(c)], s)) by {
            if c {
                assert(!bit(b.colors[1], s));
            } else {
                assert(!bit(b.colors[0], s));
            }
        }
        assert(b2.pieces =~= b.pieces);
        assert(b2.colors =~= b.colors);
        lemma_xor(b.zobrist_key, z.piece_key(s, c, p), z.piece_key(s, c, p));
        lemma_xor(z.piece_key(s, c, p), z.piece_key(s, c, p), 0);
        let (e, e1) = (b.evaluator, b1.evaluator);
        let ts = crate::search::evaluate::table_square(s, c);
        let mv = crate::search::evaluate::mg_value(p - 1, ts);
        let ev = crate::search::evaluate::eg_value(p - 1, ts);
        lemma_wrap16(e.mg(c) + mv, -mv);
        lemma_wrap16(e.eg(c) + ev, -ev);
        lemma_wrap16(e.mg(c), 0);
        lemma_wrap16(e.eg(c), 0);
        assert(e1.mg(c) == crate::search::evaluate::wrap16(e.mg(c) + mv));
        assert(e1.eg(c) == crate::search::evaluate::wrap16(e.eg(c) + ev));
        assert(b2.evaluator.mg_material =~= e.mg_material);
        assert(b2.evaluator.eg_material =~= e.eg_material);
    }

    /// Adding a piece to a vacant square of a consistent board keeps it consistent, puts the
    /// piece there, and changes the hash by the piece's key.
    pub proof fn lemma_placed_add(&self, old: &Board, s: int, p: int, c: Color, z: &Zobrist)
        requires
            0 <= s < 64,
            1 <= p <= 6,
            self.placed(old, s, p, c, true),
            old.wf(),
            old.vacant(s),
            z.wf(),
        ensures
            self.wf(),
            self.at_square(s) == p,
            bit(self.cbb(c), s),
            !bit(self.cbb(!c), s),
            forall|t: int| 0 <= t < 64 && t != s ==> self.same_at(old, t),
            self.psq_key(z, 64) == old.psq_key(z, 64) ^ z.piece_key(s, c, p),
    {
        lemma_single(s as u64);
        assert forall|t: int| 0 <= t < 64 && t != s implies self.same_at(old, t) by {
            assert forall|i: int| 0 <= i < 6 implies bit(#[trigger] self.pieces[i], t) == bit(old.pieces[i], t) by {
                lemma_bit_ops(old.pieces[i], single(s), t);
            }
            lemma_bit_ops(old.colors[0], single(s), t);
            lemma_bit_ops(old.colors[1], single(s), t);
        }
        assert forall|i: int| 0 <= i < 6 implies bit(#[trigger] self.pieces[i], s) == (i == p - 1) by {
            lemma_bit_ops(old.pieces[i], single(s), s);
        }
        lemma_bit_ops(old.colors[0], single(s), s);
        lemma_bit_ops(old.colors[1], single(s), s);
        assert forall|t: int| 0 <= t < 64 implies #[trigger] self.sq_ok(t) by {
            if t != s {
                assert(self.same_at(old, t));
                assert(old.sq_ok(t));
            }
        }
        assert forall|t: int| 0 <= t < 64 && t != s implies #[trigger] old.square_key(z, t) == self.square_key(z, t) by {
            assert(self.same_at(old, t));
        }
        lemma_xor(0, 0, 0);
        lemma_xor(z.piece_key(s, c, p), 0, 0);
        assert(self.at_square(s) == p);
        assert(old.square_key(z, s) == 0);
        assert(self.square_key(z, s) == z.piece_key(s, c, p));
        lemma_psq_change(old, self, z, s, 64);
        lemma_xor(z.piece_key(s, c, p), 0, 0);
    }

    /// Toggling a piece off its square of a consistent board keeps it consistent, vacates the
    /// square, and changes the hash by the piece's key.
    pub proof fn lemma_placed_remove(&self, old: &Board, s: int, p: int, c: Color, z: &Zobrist)
        requires
            0 <= s < 64,
            1 <= p <= 6,
            self.placed(old, s, p, c, false),
            old.wf(),
            bit(old.pbb(p), s),
            bit(old.cbb(c), s),
            z.wf(),
        ensures
            self.wf(),
            self.vacant(s),
            old.at_square(s) == p,
            forall|t: int| 0 <= t < 64 && t != s ==> self.same_at(old, t),
            self.psq_key(z, 64) == old.psq_key(z, 64) ^ z.piece_key(s, c, p),
    {
        lemma_single(s as u64);
        old.lemma_wf_square(s);
        lemma_bit_ops(old.colors[0], old.colors[1], s);
        assert forall|t: int| 0 <= t < 64 && t != s implies self.same_at(old, t) by {
            assert forall|i: int| 0 <= i < 6 implies bit(#[trigger] self.pieces[i], t) == bit(old.pieces[i], t) by {
                lemma_bit_ops(old.pieces[i], single(s), t);
            }
            lemma_bit_ops(old.colors[0], single(s), t);
            lemma_bit_ops(old.colors[1], single(s), t);
        }
        assert forall|i: int| 0 <= i < 6 implies !bit(#[trigger] self.pieces[i], s) by {
            lemma_bit_ops(old.pieces[i], single(s), s);
        }
        lemma_bit_ops(old.colors[0], single(s), s);
        lemma_bit_ops(old.colors[1], single(s), s);
        assert forall|t: int| 0 <= t < 64 implies #[trigger] self.sq_ok(t) by {
            if t != s {
                assert(self.same_at(old, t));
                assert(old.sq_ok(t));
            }
        }
        assert forall|t: int| 0 <= t < 64 && t != s implies #[trigger] old.square_key(z, t) == self.square_key(z, t) by {
            assert(self.same_at(old, t));
        }
        lemma_psq_change(old, self, z, s, 64);
        lemma_xor(z.piece_key(s, c, p), 0, 0);
    }

    /// When `with` holds piece `p` of color `c` on `s` where `without` is vacant and they
    /// agree elsewhere, an evaluator that describes one board, updated by that piece,
    /// describes the other.
    pub proof fn lemma_eval_transfer(with: &Board, without: &Board, s: int, p: int, c: Color)
        requires
            0 <= s < 64,
            1 <= p <= 6,
            forall|t: int| 0 <= t < 64 && t != s ==> with.same_at(without, t),
            without.vacant(s),
            forall|i: int| 0 <= i < 6 ==> bit(#[trigger] with.pieces[i], s) == (i == p - 1),
            bit(with.colors[color_index(c)], s),
            !bit(with.colors[color_index(!c)], s),
        ensures
            without.eval_spec().with_piece(s, p, c, 1) == with.eval_spec(),
            with.eval_spec().with_piece(s, p, c, -1) == without.eval_spec(),
    {
        Board::lemma_eval_vacancy(with, without, s, p, c, 6);
        with.lemma_phase_bounds(6);
        without.lemma_phase_bounds(6);
        let ts = crate::search::evaluate::table_square(s, c);
        let mv = crate::search::evaluate::mg_value(p - 1, ts) as int;
        let ev = crate::search::evaluate::eg_value(p - 1, ts) as int;
        lemma_wrap16(without.mg_upto(c, 6), mv);
        lemma_wrap16(without.eg_upto(c, 6), ev);
        lemma_wrap16(with.mg_upto(c, 6), -mv);
        lemma_wrap16(with.eg_upto(c, 6), -ev);
        lemma_wrap16(without.mg_upto(!c, 6), 0);
        lemma_wrap16(without.eg_upto(!c, 6), 0);
        let e1 = without.eval_spec().with_piece(s, p, c, 1);
        assert(e1.mg_material =~= with.eval_spec().mg_material);
        assert(e1.eg_material =~= with.eval_spec().eg_material);
        let e2 = with.eval_spec().with_piece(s, p, c, -1);
        assert(e2.mg_material =~= without.eval_spec().mg_material);
        assert(e2.eg_material =~= without.eval_spec().eg_material);
    }

    #[inline]
    pub fn set_piece(&mut self, square: Square, piecetype: Piece, color: Color, z: &Zobrist)
        requires
            square < 64,
            1 <= piecetype <= 6,
            z.wf(),
            old(self).evaluator.phase + phase_of(piecetype - 1) <= 32767,
        ensures
            final(self).placed(old(self), square as int, piecetype as int, color, true),
            final(self).zobrist_key == old(self).zobrist_key ^ z.piece_key(
                square as int,
                color,
                piecetype as int,
            ),
            final(self).evaluator == old(self).evaluator.with_piece(
                square as int,
                piecetype as int,
                color,
                1,
            ),
            old(self).wf() && old(self).vacant(square as int) ==> {
                &&& final(self).wf()
                &&& final(self).at_square(square as int) == piecetype
                &&& bit(final(self).cbb(color), square as int)
                &&& (old(self).hash_ok(z) ==> final(self).hash_ok(z))
                &&& (old(self).eval_ok() ==> final(self).eval_ok())
                &&& final(self).phase_upto(6) == old(self).phase_upto(6) + phase_of(piecetype - 1)
            },
    {
        let square_bb = Bitboard::new(square);
        let pi = (piecetype - 1) as usize;
        self.pieces[pi] = self.pieces[pi] | square_bb;
        if color {
            self.colors[1] = self.colors[1] | square_bb;
        } else {
            self.colors[0] = self.colors[0] | square_bb;
        }
        let relevant_zobrist = z.get_piece_zob(square, color, piecetype);
        self.zobrist_key ^= relevant_zobrist;
        self.evaluator.set_piece(square, piecetype, color);
        proof {
            if old(self).wf() && old(self).vacant(square as int) {
                self.lemma_placed_add(old(self), square as int, piecetype as int, color, z);
                assert forall|i: int| 0 <= i < 6 implies bit(#[trigger] self.pieces[i], square as int) == (i == piecetype - 1) by {
                    assert(self.at_square(square as int) == piecetype);
                    assert(self.sq_ok(square as int));
                }
                Board::lemma_eval_transfer(self, old(self), square as int, piecetype as int, color);
                self.lemma_phase_bounds(6);
                old(self).lemma_phase_bounds(6);
                lemma_hash_xor(
                    old(self).psq_key(z, 64),
                    old(self).ep_key(z),
                    old(self).stm_key(z),
                    old(self).castling_key(z),
                    relevant_zobrist,
                );
            }
        }
    }

    #[inline]
    pub fn remove_piece(&mut self, square: Square, piecetype: Piece, color: Color, z: &Zobrist)
        requires
            square < 64,
            1 <= piecetype <= 6,
            z.wf(),
            bit(old(self).pbb(piecetype as int), square as int),
            bit(old(self).cbb(color), square as int),
            old(self).evaluator.phase - phase_of(piecetype - 1) >= -32768,
        ensures
            final(self).placed(old(self), square as int, piecetype as int, color, false),
            final(self).zobrist_key == old(self).zobrist_key ^ z.piece_key(
                square as int,
                color,
                piecetype as int,
            ),
            final(self).evaluator == old(self).evaluator.with_piece(
                square as int,
                piecetype as int,
                color,
                -1,
            ),
            old(self).wf() ==> {
                &&& final(self).wf()
                &&& final(self).vacant(square as int)
                &&& (old(self).hash_ok(z) ==> final(self).hash_ok(z))
                &&& (old(self).eval_ok() ==> final(self).eval_ok())
            },
    {
        let square_bb = Bitboard::new(square);
        let pi = (piecetype - 1) as usize;
        self.pieces[pi] = self.pieces[pi] ^ square_bb;
        if color {
            self.colors[1] = self.colors[1] ^ square_bb;
        } else {
            self.colors[0] = self.colors[0] ^ square_bb;
        }
        let relevant_zobrist = z.get_piece_zob(square, color, piecetype);
        self.zobrist_key ^= relevant_zobrist;
        self.evaluator.remove_piece(square, piecetype, color);
        proof {
            if old(self).wf() {
                self.lemma_placed_remove(old(self), square as int, piecetype as int, color, z);
                old(self).lemma_wf_square(square as int);
                lemma_bit_ops(old(self).colors[0], old(self).colors[1], square as int);
                assert forall|t: int| 0 <= t < 64 && t != square as int implies old(self).same_at(self, t) by {
                    assert(self.same_at(old(self), t));
                }
                Board::lemma_eval_transfer(old(self), self, square as int, piecetype as int, color);
                lemma_hash_xor(
                    old(self).psq_key(z, 64),
                    old(self).ep_key(z),
                    old(self).stm_key(z),
                    old(self).castling_key(z),
                    relevant_zobrist,
                );
            }
        }
    }

    /// The board with square `s` toggled in the bitboards of piece `p` and color `c`.
    pub open spec fn toggled(&self, s: int, p: int, c: Color) -> Board {
        let x = single(s);
        Board {
            pieces: [
                if p == 1 { self.pieces[0] ^ x } else { self.pieces[0] },
                if p == 2 { self.pieces[1] ^ x } else { self.pieces[1] },
                if p == 3 { self.pieces[2] ^ x } else { self.pieces[2] },
                if p == 4 { self.pieces[3] ^ x } else { self.pieces[3] },
                if p == 5 { self.pieces[4] ^ x } else { self.pieces[4] },
                if p == 6 { self.pieces[5] ^ x } else { self.pieces[5] },
            ],
            colors: [
                if !c { self.colors[0] ^ x } else { self.colors[0] },
                if c { self.colors[1] ^ x } else { self.colors[1] },
            ],
            ..*self
        }
    }

    /// Moves a piece by toggling both squares in its bitboards. The starting square must
    /// hold the piece.
    #[inline]
    pub fn move_piece(&mut self, from: Square, to: Square, piecetype: Piece, color: Color, z: &Zobrist)
        requires
            from < 64,
            to < 64,
            1 <= piecetype <= 6,
            z.wf(),
            bit(old(self).pbb(piecetype as int), from as int),
            bit(old(self).cbb(color), from as int),
            old(self).evaluator.phase - phase_of(piecetype - 1) >= -32768,
        ensures
            forall|i: int|
                0 <= i < 6 ==> #[trigger] final(self).pieces[i] == if i == piecetype - 1 {
                    old(self).pieces[i] ^ (single(from as int) | single(to as int))
                } else {
                    old(self).pieces[i]
                },
            forall|i: int|
                0 <= i < 2 ==> #[trigger] final(self).colors[i] == if i == color_index(color) {
                    old(self).colors[i] ^ (single(from as int) | single(to as int))
                } else {
                    old(self).colors[i]
                },
            final(self).tomove == old(self).tomove,
            final(self).passant_square == old(self).passant_square,
            final(self).castling_rights == old(self).castling_rights,
            final(self).halfmove_clock == old(self).halfmove_clock,
            final(self).zobrist_key == (old(self).zobrist_key ^ z.piece_key(
                from as int,
                color,
                piecetype as int,
            )) ^ z.piece_key(to as int, color, piecetype as int),
            final(self).evaluator == old(self).evaluator.with_piece(
                from as int,
                piecetype as int,
                color,
                -1,
            ).with_piece(to as int, piecetype as int, color, 1),
            old(self).wf() && from != to && old(self).vacant(to as int) ==> {
                &&& final(self).wf()
                &&& final(self).vacant(from as int)
                &&& final(self).at_square(to as int) == piecetype
                &&& bit(final(self).cbb(color), to as int)
                &&& (old(self).hash_ok(z) ==> final(self).hash_ok(z))
                &&& (old(self).eval_ok() ==> final(self).eval_ok())
            },
    {
        let bbfrom = Bitboard::new(from);
        let bbto = Bitboard::new(to);
        let square_bb = bbfrom | bbto;
        let pi = (piecetype - 1) as usize;
        self.pieces[pi] = self.pieces[pi] ^ square_bb;
        if color {
            self.colors[1] = self.colors[1] ^ square_bb;
        } else {
            self.colors[0] = self.colors[0] ^ square_bb;
        }
        let fromzob = z.get_piece_zob(from, color, piecetype);
        let tozob = z.get_piece_zob(to, color, piecetype);
        self.zobrist_key ^= fromzob;
        self.zobrist_key ^= tozob;
        self.evaluator.move_piece(from, to, piecetype, color);
        proof {
            let o = *old(self);
            if o.wf() && from != to && o.vacant(to as int) {
                let mid = o.toggled(from as int, piecetype as int, color);
                assert(mid.placed(&o, from as int, piecetype as int, color, false));
                mid.lemma_placed_remove(&o, from as int, piecetype as int, color, z);
                assert(mid.same_at(&o, to as int));
                assert forall|i: int| 0 <= i < 6 implies !bit(#[trigger] mid.pieces[i], to as int) by {
                    assert(!bit(o.pieces[i], to as int));
                }
                assert(mid.vacant(to as int));
                let (f, t) = (from as u64, to as u64);
                assert forall|x: u64| ((x >> t) & 1) != 1 implies ((x ^ (1u64 << f)) | (1u64 << t))
                    == x ^ ((1u64 << f) | (1u64 << t)) by {
                    assert(((x >> t) & 1) != 1 && f != t && f < 64 && t < 64 ==> ((x ^ (1u64 << f)) | (
                    1u64 << t)) == x ^ ((1u64 << f) | (1u64 << t))) by (bit_vector);
                }
                assert(self.placed(&mid, to as int, piecetype as int, color, true));
                self.lemma_placed_add(&mid, to as int, piecetype as int, color, z);
                assert(self.same_at(&mid, from as int));
                assert forall|i: int| 0 <= i < 6 implies !bit(#[trigger] self.pieces[i], from as int) by {
                    assert(!bit(mid.pieces[i], from as int));
                }
                assert(self.vacant(from as int));
                o.lemma_wf_square(from as int);
                lemma_bit_ops(o.colors[0], o.colors[1], from as int);
                assert forall|t: int| 0 <= t < 64 && t != from as int implies o.same_at(&mid, t) by {
                    assert(mid.same_at(&o, t));
                }
                Board::lemma_eval_transfer(&o, &mid, from as int, piecetype as int, color);
                assert forall|i: int| 0 <= i < 6 implies bit(#[trigger] self.pieces[i], to as int) == (i == piecetype - 1) by {
                    assert(self.sq_ok(to as int));
                }
                Board::lemma_eval_transfer(self, &mid, to as int, piecetype as int, color);
                lemma_hash_xor(o.psq_key(z, 64), o.ep_key(z), o.stm_key(z), o.castling_key(z), fromzob);
                lemma_hash_xor(mid.psq_key(z, 64), o.ep_key(z), o.stm_key(z), o.castling_key(z), tozob);
            }
        }
    }

    #[inline]
    pub fn set_castling_rights(&mut self, castlingrights: u8, z: &Zobrist)
        requires
            castlingrights < 16,
            old(self).castling_rights < 16,
            z.wf(),
        ensures
            *final(self) == (Board {
                castling_rights: castlingrights,
                zobrist_key: (old(self).zobrist_key ^ z.castling_rights@[old(self).castling_rights as int])
                    ^ z.castling_rights@[castlingrights as int],
                ..*old(self)
            }),
            old(self).wf() ==> final(self).wf(),
            old(self).hash_ok(z) ==> final(self).hash_ok(z),
    {
        let init_zob = z.castling_rights[self.castling_rights as usize];
        let next_zob = z.castling_rights[castlingrights as usize];
        self.zobrist_key ^= init_zob;
        self.zobrist_key ^= next_zob;
        self.castling_rights = castlingrights;
        proof {
            let o = *old(self);
            let (a, e, t) = (o.psq_key(z, 64), o.ep_key(z), o.stm_key(z));
            lemma_hash_xor(a, e, t, init_zob, next_zob);
            assert forall|s: int| 0 <= s < 64 implies #[trigger] self.square_key(z, s) == o.square_key(z, s) by {}
            lemma_psq_same(&o, self, z, 64);
            if o.wf() {
                assert forall|t: int| 0 <= t < 64 implies #[trigger] self.sq_ok(t) by {
                    assert(o.sq_ok(t));
                }
            }
        }
    }

    /// The castling rights that survive the current placement of kings and rooks: a right
    /// is kept only while its king and its rook stand on their starting squares.
    pub open spec fn castle_mask(&self) -> u8 {
        let wr = self.pbb(4) & self.cbb(WHITE);
        let br = self.pbb(4) & self.cbb(BLACK);
        let wkg = self.pbb(6) & self.cbb(WHITE);
        let bkg = self.pbb(6) & self.cbb(BLACK);
        ((if bit(wkg, 4) && bit(wr, 7) { 8u8 } else { 0u8 }) | (if bit(wkg, 4) && bit(wr, 0) {
            4u8
        } else {
            0u8
        }) | (if bit(bkg, 60) && bit(br, 63) { 2u8 } else { 0u8 }) | (if bit(bkg, 60) && bit(br, 56) {
            1u8
        } else {
            0u8
        }))
    }

    #[inline]
    pub fn update_castlerights(&self) -> (r: u8)
        ensures
            r == self.castling_rights & self.castle_mask(),
    {
        let whiterooks = self.get_pieces(ROOK, WHITE);
        let wq = whiterooks & A1_BB;
        let wk = whiterooks & H1_BB;

        let blackrooks = self.get_pieces(ROOK, BLACK);
        let bq = blackrooks & A8_BB;
        let bk = blackrooks & H8_BB;

        let w_king = self.get_pieces(KING, WHITE) & E1_BB;
        let b_king = self.get_pieces(KING, BLACK) & E8_BB;

        let mut rookrights = (wq << 2) | (wk >> 4) | (bk >> 62) | (bq >> 56);

        let wkingrights = (w_king >> 1) | (w_king >> 2);

        let bkingrights = (b_king >> 59) | (b_king >> 60);

        rookrights &= wkingrights | bkingrights;
        proof {
            let (wr, br, wkg, bkg, cr) = (whiterooks, blackrooks, self.pbb(6) & self.cbb(WHITE),
                self.pbb(6) & self.cbb(BLACK), self.castling_rights);
            assert(((((((wr & 1) << 2) | ((wr & 0x80) >> 4) | ((br & 0x8000000000000000) >> 62) | ((br
                & 0x100000000000000) >> 56)) & ((((wkg & 0x10) >> 1) | ((wkg & 0x10) >> 2)) | (((bkg
                & 0x1000000000000000) >> 59) | ((bkg & 0x1000000000000000) >> 60)))) as u8) & cr) == cr
                & ((if (wkg >> 4) & 1 == 1 && (wr >> 7) & 1 == 1 { 8u8 } else { 0u8 }) | (if (wkg >> 4)
                & 1 == 1 && (wr >> 0) & 1 == 1 { 4u8 } else { 0u8 }) | (if (bkg >> 60) & 1 == 1 && (br
                >> 63) & 1 == 1 { 2u8 } else { 0u8 }) | (if (bkg >> 60) & 1 == 1 && (br >> 56) & 1 == 1 {
                1u8
            } else {
                0u8
            }))) by (bit_vector);
        }
        (rookrights as u8) & self.castling_rights
    }

    /// Sets the en passant square (the previous one must be cleared first).
    #[inline]
    pub fn set_ep_sqr(&mut self, sqr: Square, z: &Zobrist)
        requires
            sqr < 64,
            z.wf(),
        ensures
            *final(self) == (Board {
                passant_square: Some(sqr),
                zobrist_key: old(self).zobrist_key ^ z.ep_square@[sqr as int],
                ..*old(self)
            }),
            old(self).wf() ==> final(self).wf(),
            old(self).passant_square is None && old(self).hash_ok(z) ==> final(self).hash_ok(z),
    {
        self.zobrist_key ^= z.ep_square[sqr as usize];
        self.passant_square = Some(sqr);
        proof {
            let o = *old(self);
            let (a, t, c, k) = (o.psq_key(z, 64), o.stm_key(z), o.castling_key(z), z.ep_square@[sqr as int]);
            lemma_hash_xor(a, 0, t, c, k);
            assert forall|s: int| 0 <= s < 64 implies #[trigger] self.square_key(z, s) == o.square_key(z, s) by {}
            lemma_psq_same(&o, self, z, 64);
            if o.wf() {
                assert forall|t: int| 0 <= t < 64 implies #[trigger] self.sq_ok(t) by {
                    assert(o.sq_ok(t));
                }
            }
        }
    }

    #[inline]
    pub fn reset_ep(&mut self, z: &Zobrist)
        requires
            old(self).passant_square matches Some(s) ==> s < 64,
            z.wf(),
        ensures
            *final(self) == (Board {
                passant_square: None,
                zobrist_key: old(self).zobrist_key ^ old(self).ep_key(z),
                ..*old(self)
            }),
            old(self).wf() ==> final(self).wf(),
            old(self).hash_ok(z) ==> final(self).hash_ok(z),
    {
        let curr_ep_zob = match self.passant_square {
            None => 0,
            Some(square) => z.ep_square[square as usize],
        };
        self.zobrist_key ^= curr_ep_zob;
        self.passant_square = None;
        proof {
            let o = *old(self);
            let (a, t, c, k) = (o.psq_key(z, 64), o.stm_key(z), o.castling_key(z), curr_ep_zob);
            lemma_hash_xor(a, 0, t, c, k);
            assert forall|s: int| 0 <= s < 64 implies #[trigger] self.square_key(z, s) == o.square_key(z, s) by {}
            lemma_psq_same(&o, self, z, 64);
            if o.wf() {
                assert forall|t: int| 0 <= t < 64 implies #[trigger] self.sq_ok(t) by {
                    assert(o.sq_ok(t));
                }
            }
        }
    }

    #[inline]
    pub fn swap_sides(&mut self, z: &Zobrist)
        ensures
            *final(self) == (Board {
                tomove: !old(self).tomove,
                zobrist_key: old(self).zobrist_key ^ z.active_color,
                ..*old(self)
            }),
            old(self).wf() ==> final(self).wf(),
            old(self).hash_ok(z) ==> final(self).hash_ok(z),
    {
        self.tomove = !self.tomove;
        self.zobrist_key ^= z.active_color;
        proof {
            let o = *old(self);
            let (a, e, c, k) = (o.psq_key(z, 64), o.ep_key(z), o.castling_key(z), z.active_color);
            lemma_hash_xor(a, e, 0, c, k);
            assert forall|s: int| 0 <= s < 64 implies #[trigger] self.square_key(z, s) == o.square_key(z, s) by {}
            lemma_psq_same(&o, self, z, 64);
            if o.wf() {
                assert forall|t: int| 0 <= t < 64 implies #[trigger] self.sq_ok(t) by {
                    assert(o.sq_ok(t));
                }
            }
        }
    }
}

} // verus!
