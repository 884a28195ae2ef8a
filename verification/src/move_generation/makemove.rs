use vstd::prelude::*;
use crate::board_state::bitboard::{bit, bitv, lemma_bit_ops, lemma_bits_ext, lemma_single, single};
use crate::board_state::board::Board;
use crate::board_state::typedefs::{Square, KING, PAWN, ROOK};
use crate::board_state::zobrist::Zobrist;
use crate::search::evaluate::phase_of;
use super::action::{
    capture_of, double_of, from_of, piece_of, promo_of, to_of, type_of, Action, Move, CASTLE,
    NORMAL, PASSANT, PROMOTION,
};

verus! {

pub const A1: Square = 0;
pub const C1: Square = 2;
pub const D1: Square = 3;
pub const F1: Square = 5;
pub const G1: Square = 6;
pub const H1: Square = 7;
pub const A8: Square = 56;
pub const C8: Square = 58;
pub const D8: Square = 59;
pub const F8: Square = 61;
pub const G8: Square = 62;
pub const H8: Square = 63;

/// Where the rook of a castling move starts and ends; 64 for squares a king does not
/// castle to.
#[derive(Copy, Clone)]
pub struct CastleData {
    pub fromsqr: Square,
    pub tosqr: Square,
}

/// The rook's start square for a king castling to `to`.
pub open spec fn rook_from(to: int) -> int {
    if to == 6 { 7 } else if to == 2 { 0 } else if to == 62 { 63 } else if to == 58 { 56 } else { 64 }
}

/// The rook's end square for a king castling to `to`.
pub open spec fn rook_to(to: int) -> int {
    if to == 6 { 5 } else if to == 2 { 3 } else if to == 62 { 61 } else if to == 58 { 59 } else { 64 }
}

/// The rook squares for each king destination.
pub fn initialize_castlevals() -> (r: [CastleData; 64])
    ensures
        forall|t: int| 0 <= t < 64 ==> #[trigger] r[t].fromsqr == rook_from(t) && r[t].tosqr == rook_to(t),
{
    let mut initval = [CastleData { fromsqr: 64, tosqr: 64 };64];
    let w_kingside = CastleData { fromsqr: H1, tosqr: F1 };
    let w_queenside = CastleData { fromsqr: A1, tosqr: D1 };
    let b_kingside = CastleData { fromsqr: H8, tosqr: F8 };
    let b_queenside = CastleData { fromsqr: A8, tosqr: D8 };
    initval[G1 as usize] = w_kingside;
    initval[C1 as usize] = w_queenside;
    initval[G8 as usize] = b_kingside;
    initval[C8 as usize] = b_queenside;
    initval
}

/// The square of the pawn an en passant capture to `to` takes.
pub open spec fn passant_victim(to: int) -> int {
    ((to as u8) ^ 8u8) as int
}

pub proof fn lemma_flip_rank_bit(to: u8)
    by (bit_vector)
    requires
        to < 64,
    ensures
        to ^ 8u8 < 64,
        to ^ 8u8 != to,
{
}

proof fn lemma_and_below(a: u8, b: u8)
    by (bit_vector)
    requires
        a < 16,
    ensures
        a & b < 16,
{
}

impl Board {
    /// A piece of type `p` of the side to move stands on `s`.
    pub open spec fn own_at(&self, s: int, p: int) -> bool {
        bit(self.pbb(p), s) && bit(self.cbb(self.tomove), s)
    }

    /// The move fits the position: its piece stands on its start square, its target is empty
    /// or (for a capture) holds an enemy piece, and for castling and en passant the rook,
    /// the captured pawn and the squares they use are where the move needs them.
    pub open spec fn fits(&self, m: Move) -> bool {
        let (f, t, p) = (from_of(m), to_of(m), piece_of(m));
        &&& f != t
        &&& if type_of(m) == NORMAL {
            &&& 1 <= p <= 6
            &&& self.own_at(f, p)
            &&& if capture_of(m) { bit(self.cbb(!self.tomove), t) } else { self.vacant(t) }
        } else if type_of(m) == CASTLE {
            &&& (t == 2 || t == 6 || t == 58 || t == 62)
            &&& self.own_at(f, 6)
            &&& self.own_at(rook_from(t), 4)
            &&& self.vacant(t)
            &&& self.vacant(rook_to(t))
            &&& f != rook_from(t)
            &&& f != rook_to(t)
        } else if type_of(m) == PASSANT {
            &&& self.own_at(f, 1)
            &&& bit(self.pbb(1), passant_victim(t))
            &&& bit(self.cbb(!self.tomove), passant_victim(t))
            &&& self.vacant(t)
            &&& f != passant_victim(t)
        } else {
            &&& self.own_at(f, 1)
            &&& if capture_of(m) { bit(self.cbb(!self.tomove), t) } else { self.vacant(t) }
        }
    }

    /// The squares a move changes.
    pub open spec fn touched(m: Move, t: int) -> bool {
        ||| t == from_of(m)
        ||| t == to_of(m)
        ||| (type_of(m) == CASTLE && (t == rook_from(to_of(m)) || t == rook_to(to_of(m))))
        ||| (type_of(m) == PASSANT && t == passant_victim(to_of(m)))
    }

    /// The piece type a move leaves on its target square.
    pub open spec fn arriving(m: Move) -> int {
        if type_of(m) == NORMAL {
            piece_of(m)
        } else if type_of(m) == CASTLE {
            KING as int
        } else if type_of(m) == PASSANT {
            PAWN as int
        } else {
            promo_of(m) as int
        }
    }

    /// Whether a move resets the halfmove clock: a capture, a pawn move or a promotion.
    pub open spec fn resets_clock(m: Move) -> bool {
        ||| (type_of(m) == NORMAL && (capture_of(m) || piece_of(m) == PAWN))
        ||| type_of(m) == PASSANT
        ||| type_of(m) == PROMOTION
    }

    /// `self` is `old` with the pieces of move `m` played: the squares the move does not
    /// touch are as they were, its start square is empty, its target holds the arriving
    /// piece of the mover's color, and for castling and en passant the rook and the
    /// captured pawn have gone where they go.
    pub open spec fn played(&self, old: &Board, m: Move) -> bool {
        &&& forall|t: int| 0 <= t < 64 && !Board::touched(m, t) ==> #[trigger] self.same_at(old, t)
        &&& self.vacant(from_of(m))
        &&& self.at_square(to_of(m)) == Board::arriving(m)
        &&& bit(self.cbb(old.tomove), to_of(m))
        &&& type_of(m) == CASTLE ==> self.vacant(rook_from(to_of(m))) && self.at_square(
            rook_to(to_of(m)),
        ) == ROOK && bit(self.cbb(old.tomove), rook_to(to_of(m)))
        &&& type_of(m) == PASSANT ==> self.vacant(passant_victim(to_of(m)))
    }

    /// `r` is a board that playing `m` on `self` leads to: consistent, with the pieces of
    /// the move played, the other side to move, the en passant square, clock and castling
    /// rights the move leaves, and its key and evaluator those of its position.
    pub open spec fn moved_to(&self, m: Move, z: &Zobrist, r: Board) -> bool {
        &&& r.wf()
        &&& r.played(self, m)
        &&& r.tomove == !self.tomove
        &&& r.passant_square == if type_of(m) == NORMAL && piece_of(m) == PAWN && double_of(m) {
            Some(passant_victim(to_of(m)) as u8)
        } else {
            None::<u8>
        }
        &&& r.halfmove_clock == if Board::resets_clock(m) {
            0
        } else {
            (self.halfmove_clock + 1) % 256
        }
        &&& r.castling_rights == self.castling_rights & r.castle_mask()
        &&& r.hash_ok(z)
        &&& r.eval_ok()
    }

    /// The board that playing `m` on `self` leads to (there is at most one, see
    /// `lemma_moved_to_unique`).
    pub open spec fn after(&self, m: Move, z: &Zobrist) -> Board {
        choose|r: Board| self.moved_to(m, z, r)
    }

    /// Plays a move on a copy of the board: the piece goes to its target (taking what stood
    /// there, or for castling bringing the rook, for en passant taking the passed pawn, for
    /// a promotion becoming the new piece), the side to move changes, a double pawn push
    /// sets the en passant square, and castling rights whose king or rook has left its
    /// square are dropped.
    pub fn do_move(&self, action: Move, z: &Zobrist) -> (r: Board)
        requires
            self.wf(),
            self.fits(action),
            z.wf(),
            -32000 <= self.evaluator.phase <= 32000,
        ensures
            r.wf(),
            r.played(self, action),
            r.tomove == !self.tomove,
            r.passant_square == if type_of(action) == NORMAL && piece_of(action) == PAWN && double_of(
                action,
            ) {
                Some(passant_victim(to_of(action)) as u8)
            } else {
                None::<u8>
            },
            r.halfmove_clock == if Board::resets_clock(action) {
                0
            } else {
                (self.halfmove_clock + 1) % 256
            },
            r.castling_rights == self.castling_rights & r.castle_mask(),
            self.hash_ok(z) ==> r.hash_ok(z),
            self.eval_ok() ==> r.eval_ok(),
            self.hash_ok(z) && self.eval_ok() ==> r == self.after(action, z),
    {
        let mut board = *self;
        let ghost pre = board;
        board.halfmove_clock = board.halfmove_clock.wrapping_add(1);
        proof {
            lemma_fields(pre, board, z);
        }
        let ghost pre2 = board;
        board.reset_ep(z);
        let ghost start = board;
        proof {
            crate::board_state::fen::lemma_eval_same(pre2, start, 6);
            assert(start.pieces == self.pieces && start.colors == self.colors);
            assert(start.fits(action));
        }

        let mt = action.move_type();
        if mt == NORMAL {
            board.play_normal(action, z);
        } else if mt == CASTLE {
            board.play_castle(action, z);
        } else if mt == PASSANT {
            board.play_passant(action, z);
        } else {
            board.play_promotion(action, z);
        }
        let ghost moved = board;
        board.swap_sides(z);
        let rights = board.update_castlerights();
        proof {
            lemma_and_below(board.castling_rights, board.castle_mask());
        }
        board.set_castling_rights(rights, z);
        proof {
            assert(board.pieces == moved.pieces && board.colors == moved.colors);
            crate::board_state::fen::lemma_eval_same(moved, board, 6);
            assert forall|t: int| 0 <= t < 64 && !Board::touched(action, t) implies #[trigger] board.same_at(self, t) by {
                assert(moved.same_at(&start, t));
            }
        }
        proof {
            if self.hash_ok(z) && self.eval_ok() {
                assert(self.moved_to(action, z, board));
                lemma_moved_to_unique(*self, action, z, board, self.after(action, z));
            }
        }
        board
    }

    fn play_normal(&mut self, action: Move, z: &Zobrist)
        requires
            old(self).wf(),
            old(self).fits(action),
            old(self).passant_square is None,
            type_of(action) == NORMAL,
            z.wf(),
            -32000 <= old(self).evaluator.phase <= 32000,
        ensures
            final(self).wf(),
            final(self).played(old(self), action),
            final(self).tomove == old(self).tomove,
            final(self).castling_rights == old(self).castling_rights,
            final(self).passant_square == if piece_of(action) == PAWN && double_of(action) {
                Some(passant_victim(to_of(action)) as u8)
            } else {
                None::<u8>
            },
            final(self).halfmove_clock == if Board::resets_clock(action) {
                0
            } else {
                old(self).halfmove_clock
            },
            old(self).hash_ok(z) ==> final(self).hash_ok(z),
            old(self).eval_ok() ==> final(self).eval_ok(),
    {
        let ghost start = *self;
        let from = action.move_from();
        let to = action.move_to();
        let ghost mut taken_board = start;
        if action.is_capture() {
            let capturedpiece = self.get_at_square(to);
            proof {
                self.lemma_wf_square(to as int);
                lemma_bit_ops(self.colors[0], self.colors[1], to as int);
            }
            let enemy = !self.tomove;
            self.remove_piece(to, capturedpiece, enemy, z);
            proof {
                lemma_removed_same(*self, start, to as int, capturedpiece as int, enemy);
                assert(self.same_at(&start, from as int));
                assert(self.own_at(from as int, piece_of(action)));
                taken_board = *self;
            }
            let ghost pre = *self;
            self.halfmove_clock = 0;
            proof {
                lemma_fields(pre, *self, z);
                assert(self.own_at(from as int, piece_of(action)));
            }
        }
        let ghost mid = *self;
        let moving_piece = action.piece_moved();
        if moving_piece == PAWN {
            if action.is_pawn_doublepush() {
                proof {
                    lemma_flip_rank_bit(to);
                }
                let ghost pre_ep = *self;
                self.set_ep_sqr(to ^ 8, z);
                proof {
                    crate::board_state::fen::lemma_eval_same(pre_ep, *self, 6);
                }
            }
            let ghost pre = *self;
            self.halfmove_clock = 0;
            proof {
                lemma_fields(pre, *self, z);
            }
        }
        proof {
            assert(self.same_at(&mid, from as int));
            assert(self.own_at(from as int, moving_piece as int));
            assert(self.same_at(&mid, to as int));
        }
        let side = self.tomove;
        let ghost before_move = *self;
        self.move_piece(from, to, moving_piece, side, z);
        proof {
            lemma_moved_same(*self, before_move, from as int, to as int, moving_piece as int, side);
            assert forall|t: int| 0 <= t < 64 && !Board::touched(action, t) implies #[trigger] self.same_at(&start, t) by {
                assert(self.same_at(&before_move, t));
                assert(before_move.same_at(&mid, t));
                assert(taken_board.same_at(&start, t));
                assert(mid.same_at(&taken_board, t));
            }
        }
    }

    fn play_castle(&mut self, action: Move, z: &Zobrist)
        requires
            old(self).wf(),
            old(self).fits(action),
            old(self).passant_square is None,
            type_of(action) == CASTLE,
            z.wf(),
            -32000 <= old(self).evaluator.phase <= 32000,
        ensures
            final(self).wf(),
            final(self).played(old(self), action),
            final(self).tomove == old(self).tomove,
            final(self).castling_rights == old(self).castling_rights,
            final(self).passant_square is None,
            final(self).halfmove_clock == old(self).halfmove_clock,
            old(self).hash_ok(z) ==> final(self).hash_ok(z),
            old(self).eval_ok() ==> final(self).eval_ok(),
    {
        let ghost start = *self;
        let from = action.move_from();
        let to = action.move_to();
        let castle_squares = initialize_castlevals();
        let castledata = castle_squares[to as usize];
        let side = self.tomove;
        self.move_piece(castledata.fromsqr, castledata.tosqr, ROOK, side, z);
        let ghost rook_moved = *self;
        proof {
            lemma_moved_same(*self, start, castledata.fromsqr as int, castledata.tosqr as int, ROOK as int, side);
            assert(self.same_at(&start, from as int));
            assert(self.own_at(from as int, KING as int));
            assert(self.same_at(&start, to as int));
            assert(self.vacant(to as int));
        }
        self.move_piece(from, to, KING, side, z);
        proof {
            lemma_moved_same(*self, rook_moved, from as int, to as int, KING as int, side);
            assert forall|t: int| 0 <= t < 64 && !Board::touched(action, t) implies #[trigger] self.same_at(&start, t) by {
                assert(self.same_at(&rook_moved, t));
                assert(rook_moved.same_at(&start, t));
            }
            let rf = rook_from(to as int);
            let rt = rook_to(to as int);
            assert(self.same_at(&rook_moved, rf));
            assert(self.same_at(&rook_moved, rt));
        }
    }

    fn play_passant(&mut self, action: Move, z: &Zobrist)
        requires
            old(self).wf(),
            old(self).fits(action),
            old(self).passant_square is None,
            type_of(action) == PASSANT,
            z.wf(),
            -32000 <= old(self).evaluator.phase <= 32000,
        ensures
            final(self).wf(),
            final(self).played(old(self), action),
            final(self).tomove == old(self).tomove,
            final(self).castling_rights == old(self).castling_rights,
            final(self).passant_square is None,
            final(self).halfmove_clock == 0,
            old(self).hash_ok(z) ==> final(self).hash_ok(z),
            old(self).eval_ok() ==> final(self).eval_ok(),
    {
        let ghost start = *self;
        let from = action.move_from();
        let to = action.move_to();
        proof {
            lemma_flip_rank_bit(to);
        }
        let captured_sqr = to ^ 8;
        let enemy = !self.tomove;
        self.remove_piece(captured_sqr, PAWN, enemy, z);
        let ghost taken = *self;
        proof {
            lemma_removed_same(*self, start, captured_sqr as int, PAWN as int, enemy);
            assert(self.same_at(&start, from as int));
            assert(self.own_at(from as int, PAWN as int));
            assert(self.same_at(&start, to as int));
            assert(self.vacant(to as int));
        }
        let side = self.tomove;
        self.move_piece(from, to, PAWN, side, z);
        proof {
            lemma_moved_same(*self, taken, from as int, to as int, PAWN as int, side);
            assert forall|t: int| 0 <= t < 64 && !Board::touched(action, t) implies #[trigger] self.same_at(&start, t) by {
                assert(self.same_at(&taken, t));
                assert(taken.same_at(&start, t));
            }
            assert(self.same_at(&taken, captured_sqr as int));
            assert(self.vacant(captured_sqr as int));
            assert(self.vacant(from as int));
        }
        let ghost pre = *self;
        self.halfmove_clock = 0;
        proof {
            lemma_fields(pre, *self, z);
            assert(self.pieces == pre.pieces && self.colors == pre.colors);
            assert(self.vacant(from as int));
            assert(self.vacant(captured_sqr as int));
            assert(self.at_square(to as int) == PAWN);
            assert forall|t: int| 0 <= t < 64 && !Board::touched(action, t) implies #[trigger] self.same_at(&start, t) by {
                assert(pre.same_at(&start, t));
            }
        }
    }

    fn play_promotion(&mut self, action: Move, z: &Zobrist)
        requires
            old(self).wf(),
            old(self).fits(action),
            old(self).passant_square is None,
            type_of(action) == PROMOTION,
            z.wf(),
            -32000 <= old(self).evaluator.phase <= 32000,
        ensures
            final(self).wf(),
            final(self).played(old(self), action),
            final(self).tomove == old(self).tomove,
            final(self).castling_rights == old(self).castling_rights,
            final(self).passant_square is None,
            final(self).halfmove_clock == 0,
            old(self).hash_ok(z) ==> final(self).hash_ok(z),
            old(self).eval_ok() ==> final(self).eval_ok(),
    {
        let ghost start = *self;
        let from = action.move_from();
        let to = action.move_to();
        let ghost mut taken_board = start;
        if action.is_capture() {
            let capturedpiece = self.get_at_square(to);
            proof {
                self.lemma_wf_square(to as int);
                lemma_bit_ops(self.colors[0], self.colors[1], to as int);
            }
            let enemy = !self.tomove;
            self.remove_piece(to, capturedpiece, enemy, z);
            proof {
                lemma_removed_same(*self, start, to as int, capturedpiece as int, enemy);
                assert(self.same_at(&start, from as int));
                assert(self.own_at(from as int, PAWN as int));
                taken_board = *self;
            }
        }
        let ghost mid = *self;
        proof {
            assert(mid.own_at(from as int, PAWN as int));
            assert(mid.vacant(to as int));
        }
        let side = self.tomove;
        self.remove_piece(from, PAWN, side, z);
        let ghost lifted = *self;
        proof {
            lemma_removed_same(*self, mid, from as int, PAWN as int, side);
            assert(self.same_at(&mid, to as int));
            assert(self.vacant(to as int));
        }
        self.set_piece(to, action.promote_to(), side, z);
        proof {
            lemma_added_same(*self, lifted, to as int, promo_of(action) as int, side);
            assert forall|t: int| 0 <= t < 64 && !Board::touched(action, t) implies #[trigger] self.same_at(&start, t) by {
                assert(self.same_at(&lifted, t));
                assert(lifted.same_at(&mid, t));
                assert(taken_board.same_at(&start, t));
                assert(mid.same_at(&taken_board, t));
            }
            assert(self.same_at(&lifted, from as int));
            assert(self.vacant(from as int));
        }
        let ghost pre = *self;
        self.halfmove_clock = 0;
        proof {
            lemma_fields(pre, *self, z);
            assert(self.pieces == pre.pieces && self.colors == pre.colors);
            assert(self.vacant(from as int));
            assert(self.at_square(to as int) == promo_of(action));
            assert forall|t: int| 0 <= t < 64 && !Board::touched(action, t) implies #[trigger] self.same_at(&start, t) by {
                assert(pre.same_at(&start, t));
            }
        }
    }
}

impl Board {
    /// Whether `piece` of the side to move stands on `s`.
    fn own_piece_at(&self, s: Square, piece: u8) -> (r: bool)
        requires
            s < 64,
            1 <= piece <= 6,
        ensures
            r == self.own_at(s as int, piece as int),
    {
        let b = self.get_pieces(piece, self.tomove);
        proof {
            crate::board_state::bitboard::lemma_bitv_exec(b, s as u64);
            lemma_bit_ops(self.pbb(piece as int), self.cbb(self.tomove), s as int);
        }
        (b >> s) & 1 == 1
    }

    /// Whether square `s` holds nothing.
    fn vacant_at(&self, s: Square) -> (r: bool)
        requires
            self.wf(),
            s < 64,
        ensures
            r == self.vacant(s as int),
    {
        let r = self.is_empty(s);
        proof {
            self.lemma_wf_square(s as int);
            lemma_bit_ops(self.colors[0], self.colors[1], s as int);
            if r {
                assert forall|i: int| 0 <= i < 6 implies !bit(#[trigger] self.pieces[i], s as int) by {
                    assert(self.sq_ok(s as int));
                }
            }
        }
        r
    }

    /// Whether an enemy piece stands on `s`.
    fn enemy_at(&self, s: Square) -> (r: bool)
        requires
            s < 64,
        ensures
            r == bit(self.cbb(!self.tomove), s as int),
    {
        let b = self.color_index(!self.tomove);
        proof {
            crate::board_state::bitboard::lemma_bitv_exec(b, s as u64);
        }
        (b >> s) & 1 == 1
    }

    /// Whether a move fits the board, as `do_move` needs.
    pub fn move_fits(&self, m: Move) -> (r: bool)
        requires
            self.wf(),
        ensures
            r == self.fits(m),
    {
        let f = m.move_from();
        let t = m.move_to();
        let p = m.piece_moved();
        if f == t {
            return false;
        }
        let mt = m.move_type();
        if mt == NORMAL {
            1 <= p && p <= 6 && self.own_piece_at(f, p) && if m.is_capture() {
                self.enemy_at(t)
            } else {
                self.vacant_at(t)
            }
        } else if mt == CASTLE {
            if !(t == 2 || t == 6 || t == 58 || t == 62) {
                return false;
            }
            let castle_squares = initialize_castlevals();
            let cd = castle_squares[t as usize];
            self.own_piece_at(f, KING) && self.own_piece_at(cd.fromsqr, ROOK) && self.vacant_at(t)
                && self.vacant_at(cd.tosqr) && f != cd.fromsqr && f != cd.tosqr
        } else if mt == PASSANT {
            proof {
                lemma_flip_rank_bit(t);
            }
            let victim = t ^ 8;
            let enemy_pawns = self.get_pieces(PAWN, !self.tomove);
            proof {
                crate::board_state::bitboard::lemma_bitv_exec(enemy_pawns, victim as u64);
                lemma_bit_ops(self.pbb(1), self.cbb(!self.tomove), victim as int);
                crate::board_state::bitboard::lemma_bitv_exec(self.pbb(1), victim as u64);
                crate::board_state::bitboard::lemma_bitv_exec(self.cbb(!self.tomove), victim as u64);
            }
            self.own_piece_at(f, PAWN) && (enemy_pawns >> victim) & 1 == 1 && self.vacant_at(t) && f
                != victim
        } else {
            self.own_piece_at(f, PAWN) && if m.is_capture() {
                self.enemy_at(t)
            } else {
                self.vacant_at(t)
            }
        }
    }
}

/// Setting the halfmove clock changes neither the hash, the evaluation nor consistency.
proof fn lemma_fields(a: Board, b: Board, z: &Zobrist)
    requires
        b == (Board { halfmove_clock: b.halfmove_clock, ..a }),
    ensures
        a.wf() ==> b.wf(),
        a.hash(z) == b.hash(z),
        a.eval_spec() == b.eval_spec(),
{
    assert forall|t: int| 0 <= t < 64 implies #[trigger] a.square_key(z, t) == b.square_key(z, t) by {}
    crate::board_state::zobrist::lemma_psq_same(&a, &b, z, 64);
    crate::board_state::fen::lemma_eval_same(a, b, 6);
    if a.wf() {
        assert forall|t: int| 0 <= t < 64 implies #[trigger] b.sq_ok(t) by {
            assert(a.sq_ok(t));
        }
    }
}

/// A piece taken off square `s` leaves every other square as it was.
proof fn lemma_removed_same(new: Board, old: Board, s: int, p: int, c: bool)
    requires
        0 <= s < 64,
        new.placed(&old, s, p, c, false),
    ensures
        forall|t: int| 0 <= t < 64 && t != s ==> #[trigger] new.same_at(&old, t),
{
    lemma_single(s as u64);
    assert forall|t: int| 0 <= t < 64 && t != s implies #[trigger] new.same_at(&old, t) by {
        assert forall|i: int| 0 <= i < 6 implies bit(#[trigger] new.pieces[i], t) == bit(old.pieces[i], t) by {
            lemma_bit_ops(old.pieces[i], single(s), t);
        }
        lemma_bit_ops(old.colors[0], single(s), t);
        lemma_bit_ops(old.colors[1], single(s), t);
    }
}

/// A piece put on square `s` leaves every other square as it was.
proof fn lemma_added_same(new: Board, old: Board, s: int, p: int, c: bool)
    requires
        0 <= s < 64,
        new.placed(&old, s, p, c, true),
    ensures
        forall|t: int| 0 <= t < 64 && t != s ==> #[trigger] new.same_at(&old, t),
{
    lemma_single(s as u64);
    assert forall|t: int| 0 <= t < 64 && t != s implies #[trigger] new.same_at(&old, t) by {
        assert forall|i: int| 0 <= i < 6 implies bit(#[trigger] new.pieces[i], t) == bit(old.pieces[i], t) by {
            lemma_bit_ops(old.pieces[i], single(s), t);
        }
        lemma_bit_ops(old.colors[0], single(s), t);
        lemma_bit_ops(old.colors[1], single(s), t);
    }
}

/// A piece moved from `f` to `t2` leaves every other square as it was.
proof fn lemma_moved_same(new: Board, old: Board, f: int, t2: int, p: int, c: bool)
    requires
        0 <= f < 64,
        0 <= t2 < 64,
        forall|i: int|
            0 <= i < 6 ==> #[trigger] new.pieces[i] == if i == p - 1 {
                old.pieces[i] ^ (single(f) | single(t2))
            } else {
                old.pieces[i]
            },
        forall|i: int|
            0 <= i < 2 ==> #[trigger] new.colors[i] == if i == crate::board_state::typedefs::color_index(c) {
                old.colors[i] ^ (single(f) | single(t2))
            } else {
                old.colors[i]
            },
    ensures
        forall|t: int| 0 <= t < 64 && t != f && t != t2 ==> #[trigger] new.same_at(&old, t),
{
    lemma_single(f as u64);
    lemma_single(t2 as u64);
    assert forall|t: int| 0 <= t < 64 && t != f && t != t2 implies #[trigger] new.same_at(&old, t) by {
        lemma_bit_ops(single(f), single(t2), t);
        assert forall|i: int| 0 <= i < 6 implies bit(#[trigger] new.pieces[i], t) == bit(old.pieces[i], t) by {
            lemma_bit_ops(old.pieces[i], single(f) | single(t2), t);
        }
        lemma_bit_ops(old.colors[0], single(f) | single(t2), t);
        lemma_bit_ops(old.colors[1], single(f) | single(t2), t);
    }
}

/// A square holding one piece of a known type and color is the same on two consistent
/// boards.
proof fn lemma_square_known(x: Board, y: Board, t: int, c: bool)
    requires
        x.sq_ok(t),
        y.sq_ok(t),
        x.at_square(t) == y.at_square(t),
        bit(x.cbb(c), t),
        bit(y.cbb(c), t),
    ensures
        x.same_at(&y, t),
{
    assert forall|i: int| 0 <= i < 6 implies bit(#[trigger] x.pieces[i], t) == bit(y.pieces[i], t) by {
        assert(bitv(x.pieces[i], t) == if bit(x.pieces[i], t) { 1int } else { 0int });
        assert(bitv(y.pieces[i], t) == if bit(y.pieces[i], t) { 1int } else { 0int });
    }
}

/// Two boards that playing a move can lead to agree on every square.
proof fn lemma_played_square(b: Board, m: Move, x: Board, y: Board, t: int)
    requires
        x.wf(),
        y.wf(),
        x.played(&b, m),
        y.played(&b, m),
        0 <= t < 64,
    ensures
        x.same_at(&y, t),
{
    assert(x.sq_ok(t) && y.sq_ok(t));
    if !Board::touched(m, t) {
        assert(x.same_at(&b, t) && y.same_at(&b, t));
    } else if t == from_of(m) || (type_of(m) == CASTLE && t == rook_from(to_of(m))) || (type_of(m)
        == PASSANT && t == passant_victim(to_of(m))) {
        assert(x.vacant(t) && y.vacant(t));
    } else if t == to_of(m) {
        lemma_square_known(x, y, t, b.tomove);
    } else {
        lemma_square_known(x, y, t, b.tomove);
    }
}

/// Playing a move leads to one board only.
pub proof fn lemma_moved_to_unique(b: Board, m: Move, z: &Zobrist, x: Board, y: Board)
    requires
        b.moved_to(m, z, x),
        b.moved_to(m, z, y),
    ensures
        x == y,
{
    assert forall|t: int| 0 <= t < 64 implies #[trigger] x.same_at(&y, t) by {
        lemma_played_square(b, m, x, y, t);
    }
    assert forall|i: int| 0 <= i < 6 implies x.pieces[i] == y.pieces[i] by {
        assert forall|t: int| 0 <= t < 64 implies bit(x.pieces[i], t) == bit(y.pieces[i], t) by {
            assert(x.same_at(&y, t));
        }
        lemma_bits_ext(x.pieces[i], y.pieces[i]);
    }
    assert forall|i: int| 0 <= i < 2 implies x.colors[i] == y.colors[i] by {
        assert forall|t: int| 0 <= t < 64 implies bit(x.colors[i], t) == bit(y.colors[i], t) by {
            assert(x.same_at(&y, t));
        }
        lemma_bits_ext(x.colors[i], y.colors[i]);
    }
    assert(x.pieces =~= y.pieces);
    assert(x.colors =~= y.colors);
    crate::board_state::fen::lemma_eval_same(x, y, 6);
    assert forall|t: int| 0 <= t < 64 implies #[trigger] x.square_key(z, t) == y.square_key(z, t) by {}
    crate::board_state::zobrist::lemma_psq_same(&x, &y, z, 64);
}

} // verus!
