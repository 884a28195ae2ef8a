use vstd::prelude::*;
use crate::board_state::bitboard as bbs;
use crate::board_state::bitboard::{bit, count, count_ones, lemma_xor, single};
use crate::board_state::board::Board as PlainBoard;
use crate::search::evaluate::{phase_of, IncrementalEval};
use super::bitboard::{self, Bitboard};
use super::types::{color_index, other, piece_index, square, Color, Piece, Square};
use super::zobrist::{self, castling_index, Zobrist, ZobristContainer};

verus! {

#[derive(Clone, Debug)]
pub struct Board {
    pub piece_bbs: [Bitboard; 6],
    pub colors: [Bitboard; 2],
    pub piece_array: [Piece; 64],
    pub active_color: Color,
    pub info: Vec<BoardInfo>,
    pub evalinfo: IncrementalEval,
}

impl Default for Board {
    fn default() -> (r: Self)
        ensures
            r.is_blank(),
    {
        let mut info: Vec<BoardInfo> = Vec::new();
        for _i in 0..40usize
            invariant
                info@.len() == _i,
                forall|i: int| 0 <= i < info@.len() ==> info@[i] == BoardInfo::blank(),
        {
            info.push(BoardInfo::default());
        }
        let mut piece_array = [Piece::Empty; 64];
        for i in 0..64usize
            invariant
                forall|s: int| 0 <= s < i ==> piece_array[s] == Piece::Empty,
        {
            piece_array[i] = Piece::Empty;
        }
        let r = Self {
            piece_bbs: [0; 6],
            colors: [0; 2],
            piece_array,
            active_color: Color::W,
            info,
            evalinfo: IncrementalEval::default(),
        };
        assert(r.piece_bbs@ =~= seq![0u64, 0, 0, 0, 0, 0]);
        assert(r.colors@ =~= seq![0u64, 0]);
        r
    }
}

#[derive(Clone, Copy)]
pub enum Castling {
    WK,
    WQ,
    BK,
    BQ,
}

impl Castling {
    /// The right's index, as `castling as usize` gives it.
    pub fn index(&self) -> (r: usize)
        ensures
            r == castling_index(*self),
    {
        match self {
            Castling::WK => 0,
            Castling::WQ => 1,
            Castling::BK => 2,
            Castling::BQ => 3,
        }
    }
}

#[derive(Copy, Clone, Debug)]
pub struct BoardInfo {
    pub passant_square: Option<Square>,
    pub captured_piece: Piece,
    pub halfmove_clock: u8,
    pub zobrist: Zobrist,
    pub castling_rights: [bool; 4],
}

impl Default for BoardInfo {
    fn default() -> (r: Self)
        ensures
            r == BoardInfo::blank(),
    {
        BoardInfo {
            passant_square: None,
            captured_piece: Piece::Empty,
            halfmove_clock: 0,
            zobrist: 0,
            castling_rights: [false, false, false, false],
        }
    }
}

impl BoardInfo {
    pub open spec fn blank() -> BoardInfo {
        BoardInfo {
            passant_square: None,
            captured_piece: Piece::Empty,
            halfmove_clock: 0,
            zobrist: 0,
            castling_rights: [false, false, false, false],
        }
    }
}

impl Board {
    /// The empty board, white to move, with forty blank history records.
    pub open spec fn is_blank(&self) -> bool {
        &&& self.piece_bbs@ == seq![0u64, 0, 0, 0, 0, 0]
        &&& self.colors@ == seq![0u64, 0]
        &&& forall|s: int| 0 <= s < 64 ==> self.piece_array[s] == Piece::Empty
        &&& self.active_color == Color::W
        &&& self.info@.len() == 40
        &&& forall|i: int| 0 <= i < 40 ==> self.info@[i] == BoardInfo::blank()
        &&& self.evalinfo == IncrementalEval::initial()
    }

    /// The record of the current position: the last one kept.
    pub open spec fn cur(&self) -> BoardInfo {
        self.info@.last()
    }

    /// The bitboards as a plain board, which the evaluation reads.
    pub open spec fn plain(&self) -> PlainBoard {
        PlainBoard {
            pieces: self.piece_bbs,
            colors: self.colors,
            tomove: self.active_color == Color::B,
            zobrist_key: 0,
            passant_square: None,
            castling_rights: 0,
            halfmove_clock: 0,
            evaluator: self.evalinfo,
        }
    }

    /// The pieces of a type and color.
    pub open spec fn side(&self, piece: Piece, color: Color) -> u64 {
        self.piece_bbs[piece_index(piece)] & self.colors[color_index(color)]
    }

    pub open spec fn occ(&self) -> u64 {
        self.colors[0] | self.colors[1]
    }

    /// The score from the side to move's point of view.
    pub fn evaluate(&self) -> (r: i16)
        requires
            self.evalinfo.score_fits(),
            !(self.active_color == Color::B && self.evalinfo.score() == i16::MIN),
        ensures
            r == if self.active_color == Color::B {
                -self.evalinfo.score()
            } else {
                self.evalinfo.score() as int
            },
    {
        let multipliers: [i16; 2] = [1, -1];
        let eval = self.evalinfo.evaluate();
        eval * multipliers[self.active_color().index()]
    }

    /// Recomputes the evaluator from the bitboards.
    pub fn set_evalinfo(&mut self)
        ensures
            final(self).evalinfo == old(self).plain().eval_spec(),
            final(self).piece_bbs == old(self).piece_bbs,
            final(self).colors == old(self).colors,
            final(self).piece_array == old(self).piece_array,
            final(self).active_color == old(self).active_color,
            final(self).info == old(self).info,
    {
        let plain = PlainBoard {
            pieces: self.piece_bbs,
            colors: self.colors,
            tomove: self.active_color == Color::B,
            zobrist_key: 0,
            passant_square: None,
            castling_rights: 0,
            halfmove_clock: 0,
            evaluator: self.evalinfo,
        };
        self.evalinfo = plain.generate_eval();
    }

    /// Whether the position is a draw: no mating material on the board, or fifty moves
    /// without a capture or pawn move.
    pub fn is_draw(&self) -> (r: bool)
        requires
            self.info@.len() > 0,
        ensures
            r == (!self.can_force_mate() || self.cur().halfmove_clock >= 100),
    {
        let can_force_mate = self.piece_bbs[0] > 0 || self.piece_bbs[3] > 0 || self.piece_bbs[4] > 0
            || count_ones(self.piece_bb(Piece::B, Color::W)) >= 2 || count_ones(
            self.piece_bb(Piece::B, Color::B),
        ) >= 2 || (count_ones(self.piece_bb(Piece::B, Color::W)) >= 1 && self.piece_bb(
            Piece::N,
            Color::W,
        ) >= 1) || (count_ones(self.piece_bb(Piece::B, Color::B)) >= 1 && self.piece_bb(
            Piece::N,
            Color::B,
        ) >= 1);
        !can_force_mate || self.halfmove_clock() >= 100
    }

    /// Some side has a pawn, rook or queen, two bishops, or bishop and knight.
    pub open spec fn can_force_mate(&self) -> bool {
        ||| self.piece_bbs[0] > 0
        ||| self.piece_bbs[3] > 0
        ||| self.piece_bbs[4] > 0
        ||| count(self.side(Piece::B, Color::W)) >= 2
        ||| count(self.side(Piece::B, Color::B)) >= 2
        ||| (count(self.side(Piece::B, Color::W)) >= 1 && self.side(Piece::N, Color::W) >= 1)
        ||| (count(self.side(Piece::B, Color::B)) >= 1 && self.side(Piece::N, Color::B) >= 1)
    }

    #[inline]
    fn current_info(&self) -> (r: &BoardInfo)
        requires
            self.info@.len() > 0,
        ensures
            *r == self.cur(),
    {
        &self.info[self.info.len() - 1]
    }

    #[inline]
    pub fn is_color(&self, square: Square, color: Color) -> (r: bool)
        requires
            square < 64,
        ensures
            r == bit(self.colors[color_index(color)], square as int),
    {
        bitboard::is_set(self.colors[color.index()], square)
    }

    #[inline]
    pub fn get_piece(&self, square: Square) -> (r: Piece)
        requires
            square < 64,
        ensures
            r == self.piece_array[square as int],
    {
        self.piece_array[square as usize]
    }

    #[inline]
    pub fn color_bb(&self, color: Color) -> (r: Bitboard)
        ensures
            r == self.colors[color_index(color)],
    {
        self.colors[color.index()]
    }

    #[inline]
    pub fn piece_bb(&self, piece: Piece, color: Color) -> (r: Bitboard)
        requires
            piece != Piece::Empty,
        ensures
            r == self.side(piece, color),
    {
        self.piece_bbs[piece.index()] & self.colors[color.index()]
    }

    #[inline]
    pub fn occupancy(&self) -> (r: Bitboard)
        ensures
            r == self.occ(),
    {
        self.colors[0] | self.colors[1]
    }

    #[inline]
    pub fn diagonal_sliders(&self, color: Color) -> (r: Bitboard)
        ensures
            r == (self.piece_bbs[2] | self.piece_bbs[4]) & self.colors[color_index(color)],
    {
        (self.piece_bbs[2] | self.piece_bbs[4]) & self.colors[color.index()]
    }

    #[inline]
    pub fn orthogonal_sliders(&self, color: Color) -> (r: Bitboard)
        ensures
            r == (self.piece_bbs[3] | self.piece_bbs[4]) & self.colors[color_index(color)],
    {
        (self.piece_bbs[3] | self.piece_bbs[4]) & self.colors[color.index()]
    }

    #[inline]
    pub fn pieces(&self) -> (r: &[Bitboard; 6])
        ensures
            *r == self.piece_bbs,
    {
        &self.piece_bbs
    }

    #[inline]
    pub fn halfmove_clock(&self) -> (r: u8)
        requires
            self.info@.len() > 0,
        ensures
            r == self.cur().halfmove_clock,
    {
        self.current_info().halfmove_clock
    }

    #[inline]
    pub fn passant_square(&self) -> (r: Option<Square>)
        requires
            self.info@.len() > 0,
        ensures
            r == self.cur().passant_square,
    {
        self.current_info().passant_square
    }

    #[inline]
    pub fn active_color(&self) -> (r: Color)
        ensures
            r == self.active_color,
    {
        self.active_color
    }

    #[inline]
    pub fn castling(&self, castling: Castling) -> (r: &bool)
        requires
            self.info@.len() > 0,
        ensures
            *r == self.cur().castling_rights[castling_index(castling)],
    {
        &self.current_info().castling_rights[castling.index()]
    }

    #[inline]
    pub fn zobrist(&self) -> (r: Zobrist)
        requires
            self.info@.len() > 0,
        ensures
            r == self.cur().zobrist,
    {
        self.current_info().zobrist
    }

    #[inline]
    pub fn piecetype(&self, piecetype: Piece) -> (r: Bitboard)
        requires
            piecetype != Piece::Empty,
        ensures
            r == self.piece_bbs[piece_index(piecetype)],
    {
        self.piece_bbs[piecetype.index()]
    }

    /// Whether no side has a minor or major piece: kings and pawns only.
    #[inline]
    pub fn is_kp(&self) -> (r: bool)
        ensures
            r == (self.piece_bbs[1] == 0 && self.piece_bbs[2] == 0 && self.piece_bbs[3] == 0
                && self.piece_bbs[4] == 0),
    {
        self.piecetype(Piece::N) == 0 && self.piecetype(Piece::B) == 0 && self.piecetype(Piece::R)
            == 0 && self.piecetype(Piece::Q) == 0
    }
}

/// The castling rights `rights` with entry `i` set to `value`.
pub open spec fn with_right(rights: [bool; 4], i: int, value: bool) -> [bool; 4] {
    [
        if i == 0 { value } else { rights[0] },
        if i == 1 { value } else { rights[1] },
        if i == 2 { value } else { rights[2] },
        if i == 3 { value } else { rights[3] },
    ]
}

/// What setting right `i` from `from` to `to` does to the key: it takes out the key of the
/// old value and puts in that of the new one.
pub open spec fn right_change(z: &ZobristContainer, i: int, from: bool, to: bool) -> u64 {
    z.castling_rights@[i * 2 + if from { 1int } else { 0 }] ^ z.castling_rights@[i * 2 + if to {
        1int
    } else {
        0
    }]
}

// These methods all involve changing the zobrist hash.
impl Board {
    /// The history with the current record replaced.
    pub open spec fn info_with(&self, cur: BoardInfo) -> Seq<BoardInfo> {
        self.info@.update(self.info@.len() - 1, cur)
    }

    /// The bitboards, squares and history are as in `old` but for square `s`, which now
    /// holds `piece` of `color` in the bitboards (`add`) or has been cleared from them.
    pub open spec fn changed_square(&self, old: &Board, s: int, piece: Piece, color: Color, add: bool) -> bool {
        &&& forall|i: int|
            0 <= i < 6 ==> #[trigger] self.piece_bbs[i] == if i == piece_index(piece) {
                if add { old.piece_bbs[i] | single(s) } else { old.piece_bbs[i] & !single(s) }
            } else {
                old.piece_bbs[i]
            }
        &&& forall|i: int|
            0 <= i < 2 ==> #[trigger] self.colors[i] == if i == color_index(color) {
                if add { old.colors[i] | single(s) } else { old.colors[i] & !single(s) }
            } else {
                old.colors[i]
            }
        &&& forall|t: int|
            0 <= t < 64 ==> #[trigger] self.piece_array[t] == if t == s {
                if add { piece } else { Piece::Empty }
            } else {
                old.piece_array[t]
            }
        &&& self.active_color == old.active_color
    }

    #[inline]
    fn current_info_mut(&mut self) -> (r: &mut BoardInfo)
        requires
            old(self).info@.len() > 0,
        ensures
            *r == old(self).cur(),
            final(self).info@ == old(self).info_with(*final(r)),
            final(self).piece_bbs == old(self).piece_bbs,
            final(self).colors == old(self).colors,
            final(self).piece_array == old(self).piece_array,
            final(self).active_color == old(self).active_color,
            final(self).evalinfo == old(self).evalinfo,
    {
        let n = self.info.len();
        &mut self.info[n - 1]
    }

    #[inline]
    pub(super) fn add_piece<const CHANGE_ZOBRIST: bool>(
        &mut self,
        square: Square,
        piece: Piece,
        color: Color,
        z: &ZobristContainer,
    )
        requires
            square < 64,
            piece != Piece::Empty,
            old(self).info@.len() > 0,
            z.wf(),
            old(self).evalinfo.phase + phase_of(piece_index(piece)) <= 32767,
        ensures
            final(self).changed_square(old(self), square as int, piece, color, true),
            final(self).info@ == if CHANGE_ZOBRIST {
                old(self).info_with(
                    BoardInfo {
                        zobrist: old(self).cur().zobrist ^ z.piece_key(piece, square as int, color),
                        ..old(self).cur()
                    },
                )
            } else {
                old(self).info@
            },
            final(self).evalinfo == old(self).evalinfo.with_piece(
                square as int,
                piece_index(piece) + 1,
                color == Color::B,
                1,
            ),
    {
        let pi = piece.index();
        let ci = color.index();
        let mut pb = self.piece_bbs[pi];
        bitboard::set_bit(&mut pb, square);
        self.piece_bbs[pi] = pb;
        let mut cb = self.colors[ci];
        bitboard::set_bit(&mut cb, square);
        self.colors[ci] = cb;
        self.piece_array[square as usize] = piece;
        if CHANGE_ZOBRIST {
            let key = zobrist::psqt_zobrist(z, piece, square, color);
            let cur = self.current_info_mut();
            cur.zobrist ^= key;
        }
        self.evalinfo.set_piece(square, (pi + 1) as u8, color == Color::B);
    }

    #[inline]
    pub(super) fn remove_piece<const CHANGE_ZOBRIST: bool>(
        &mut self,
        square: Square,
        piece: Piece,
        color: Color,
        z: &ZobristContainer,
    )
        requires
            square < 64,
            piece != Piece::Empty,
            old(self).info@.len() > 0,
            z.wf(),
            old(self).evalinfo.phase - phase_of(piece_index(piece)) >= -32768,
        ensures
            final(self).changed_square(old(self), square as int, piece, color, false),
            final(self).info@ == if CHANGE_ZOBRIST {
                old(self).info_with(
                    BoardInfo {
                        zobrist: old(self).cur().zobrist ^ z.piece_key(piece, square as int, color),
                        ..old(self).cur()
                    },
                )
            } else {
                old(self).info@
            },
            final(self).evalinfo == old(self).evalinfo.with_piece(
                square as int,
                piece_index(piece) + 1,
                color == Color::B,
                -1,
            ),
    {
        let pi = piece.index();
        let ci = color.index();
        let mut pb = self.piece_bbs[pi];
        bitboard::clear_bit(&mut pb, square);
        self.piece_bbs[pi] = pb;
        let mut cb = self.colors[ci];
        bitboard::clear_bit(&mut cb, square);
        self.colors[ci] = cb;
        self.piece_array[square as usize] = Piece::Empty;
        if CHANGE_ZOBRIST {
            let key = zobrist::psqt_zobrist(z, piece, square, color);
            let cur = self.current_info_mut();
            cur.zobrist ^= key;
        }
        self.evalinfo.remove_piece(square, (pi + 1) as u8, color == Color::B);
    }

    /// Takes a piece off one square and puts it on another.
    #[inline]
    pub(super) fn move_piece<const CHANGE_ZOBRIST: bool>(
        &mut self,
        from: Square,
        to: Square,
        piece: Piece,
        color: Color,
        z: &ZobristContainer,
    )
        requires
            from < 64,
            to < 64,
            piece != Piece::Empty,
            old(self).info@.len() > 0,
            z.wf(),
            old(self).evalinfo.phase - phase_of(piece_index(piece)) >= -32768,
        ensures
            final(self).info@.len() == old(self).info@.len(),
            final(self).active_color == old(self).active_color,
            final(self).piece_array[to as int] == piece,
            from != to ==> final(self).piece_array[from as int] == Piece::Empty,
            forall|t: int| 0 <= t < 64 && t != from && t != to ==> #[trigger] final(self).piece_array[t] == old(self).piece_array[t],
            final(self).evalinfo == old(self).evalinfo.with_piece(
                from as int,
                piece_index(piece) + 1,
                color == Color::B,
                -1,
            ).with_piece(to as int, piece_index(piece) + 1, color == Color::B, 1),
            CHANGE_ZOBRIST ==> final(self).cur().zobrist == (old(self).cur().zobrist ^ z.piece_key(
                piece,
                from as int,
                color,
            )) ^ z.piece_key(piece, to as int, color),
            !CHANGE_ZOBRIST ==> final(self).info@ == old(self).info@,
    {
        self.remove_piece::<CHANGE_ZOBRIST>(from, piece, color, z);
        self.add_piece::<CHANGE_ZOBRIST>(to, piece, color, z)
    }

    #[inline]
    pub(super) fn swap_sides(&mut self, z: &ZobristContainer)
        requires
            old(self).info@.len() > 0,
        ensures
            final(self).active_color == other(old(self).active_color),
            final(self).info@ == old(self).info_with(
                BoardInfo { zobrist: old(self).cur().zobrist ^ z.active_color, ..old(self).cur() },
            ),
            final(self).piece_bbs == old(self).piece_bbs,
            final(self).colors == old(self).colors,
            final(self).piece_array == old(self).piece_array,
            final(self).evalinfo == old(self).evalinfo,
    {
        self.active_color = std::ops::Not::not(self.active_color);
        let key = zobrist::turn_zobrist(z);
        let cur = self.current_info_mut();
        cur.zobrist ^= key;
    }

    #[inline]
    pub(super) fn set_castling(&mut self, castling: Castling, value: bool, z: &ZobristContainer)
        requires
            old(self).info@.len() > 0,
            z.wf(),
        ensures
            final(self).info@ == old(self).info_with(
                BoardInfo {
                    castling_rights: with_right(old(self).cur().castling_rights, castling_index(castling), value),
                    zobrist: (old(self).cur().zobrist ^ z.castling_rights@[castling_index(castling) * 2
                        + if old(self).cur().castling_rights[castling_index(castling)] {
                        1int
                    } else {
                        0
                    }]) ^ z.castling_rights@[castling_index(castling) * 2 + if value {
                        1int
                    } else {
                        0
                    }],
                    ..old(self).cur()
                },
            ),
            final(self).piece_bbs == old(self).piece_bbs,
            final(self).colors == old(self).colors,
            final(self).piece_array == old(self).piece_array,
            final(self).active_color == old(self).active_color,
            final(self).evalinfo == old(self).evalinfo,
    {
        let current_castling = self.current_info().castling_rights[castling.index()];
        let k1 = zobrist::castling_zobrist(z, current_castling, castling);
        let k2 = zobrist::castling_zobrist(z, value, castling);
        let ghost before = self.cur();
        let cur = self.current_info_mut();
        cur.castling_rights[castling.index()] = value;
        cur.zobrist ^= k1;
        cur.zobrist ^= k2;
        proof {
            let want = with_right(before.castling_rights, castling_index(castling), value);
            assert(cur.castling_rights@ =~= want@);
            vstd::array::axiom_array_ext_equal(cur.castling_rights, want);
        }
    }

    #[inline]
    pub(super) fn set_fifty(&mut self, value: u8)
        requires
            old(self).info@.len() > 0,
        ensures
            final(self).info@ == old(self).info_with(BoardInfo { halfmove_clock: value, ..old(self).cur() }),
            final(self).piece_bbs == old(self).piece_bbs,
            final(self).colors == old(self).colors,
            final(self).piece_array == old(self).piece_array,
            final(self).active_color == old(self).active_color,
            final(self).evalinfo == old(self).evalinfo,
    {
        let cur = self.current_info_mut();
        cur.halfmove_clock = value;
    }

    #[inline]
    pub(super) fn reset_fifty(&mut self)
        requires
            old(self).info@.len() > 0,
        ensures
            final(self).info@ == old(self).info_with(BoardInfo { halfmove_clock: 0, ..old(self).cur() }),
            final(self).piece_bbs == old(self).piece_bbs,
            final(self).colors == old(self).colors,
            final(self).piece_array == old(self).piece_array,
            final(self).active_color == old(self).active_color,
            final(self).evalinfo == old(self).evalinfo,
    {
        self.set_fifty(0)
    }

    #[inline]
    pub(super) fn increment_fifty(&mut self)
        requires
            old(self).info@.len() > 0,
            old(self).cur().halfmove_clock < 255,
        ensures
            final(self).info@ == old(self).info_with(
                BoardInfo { halfmove_clock: (old(self).cur().halfmove_clock + 1) as u8, ..old(self).cur() },
            ),
            final(self).piece_bbs == old(self).piece_bbs,
            final(self).colors == old(self).colors,
            final(self).piece_array == old(self).piece_array,
            final(self).active_color == old(self).active_color,
            final(self).evalinfo == old(self).evalinfo,
    {
        self.set_fifty(self.halfmove_clock() + 1)
    }

    /// The key of the current en passant file, or 0 without one.
    #[inline]
    fn current_ep_zob(&self, z: &ZobristContainer) -> (r: Zobrist)
        requires
            self.info@.len() > 0,
            z.wf(),
        ensures
            r == match self.cur().passant_square {
                Some(s) => z.passant_file@[(s % 8) as int],
                None => 0,
            },
    {
        match self.passant_square() {
            Some(square) => zobrist::passant_zobrist(z, square),
            None => 0,
        }
    }

    #[inline]
    pub(super) fn set_ep(&mut self, square: Square, z: &ZobristContainer)
        requires
            old(self).info@.len() > 0,
            z.wf(),
        ensures
            final(self).info@ == old(self).info_with(
                BoardInfo {
                    passant_square: Some(square),
                    zobrist: (old(self).cur().zobrist ^ match old(self).cur().passant_square {
                        Some(s) => z.passant_file@[(s % 8) as int],
                        None => 0,
                    }) ^ z.passant_file@[(square % 8) as int],
                    ..old(self).cur()
                },
            ),
            final(self).piece_bbs == old(self).piece_bbs,
            final(self).colors == old(self).colors,
            final(self).piece_array == old(self).piece_array,
            final(self).active_color == old(self).active_color,
            final(self).evalinfo == old(self).evalinfo,
    {
        let k1 = self.current_ep_zob(z);
        let k2 = zobrist::passant_zobrist(z, square);
        let cur = self.current_info_mut();
        cur.zobrist ^= k1;
        cur.zobrist ^= k2;
        cur.passant_square = Some(square);
    }

    #[inline]
    pub(super) fn reset_passant(&mut self, z: &ZobristContainer)
        requires
            old(self).info@.len() > 0,
            z.wf(),
        ensures
            final(self).info@ == old(self).info_with(
                BoardInfo {
                    passant_square: None,
                    zobrist: old(self).cur().zobrist ^ match old(self).cur().passant_square {
                        Some(s) => z.passant_file@[(s % 8) as int],
                        None => 0,
                    },
                    ..old(self).cur()
                },
            ),
            final(self).piece_bbs == old(self).piece_bbs,
            final(self).colors == old(self).colors,
            final(self).piece_array == old(self).piece_array,
            final(self).active_color == old(self).active_color,
            final(self).evalinfo == old(self).evalinfo,
    {
        let k = self.current_ep_zob(z);
        let cur = self.current_info_mut();
        cur.zobrist ^= k;
        cur.passant_square = None;
    }

    /// What `update_castle` leaves of right `i`: the right stays only while the king and
    /// the rook on its side still stand on their home squares.
    pub open spec fn kept_right(&self, i: int) -> bool {
        let wk = bit(self.side(Piece::K, Color::W), 4);
        let bk = bit(self.side(Piece::K, Color::B), 60);
        let wr = self.side(Piece::R, Color::W);
        let br = self.side(Piece::R, Color::B);
        self.cur().castling_rights[i] && if i == 0 {
            wk && bit(wr, 7)
        } else if i == 1 {
            wk && bit(wr, 0)
        } else if i == 2 {
            bk && bit(br, 63)
        } else {
            bk && bit(br, 56)
        }
    }

    #[inline]
    pub(super) fn update_castle(&mut self, z: &ZobristContainer)
        requires
            old(self).info@.len() > 0,
            z.wf(),
        ensures
            final(self).info@ == old(self).info_with(
                BoardInfo {
                    castling_rights: [
                        old(self).kept_right(0),
                        old(self).kept_right(1),
                        old(self).kept_right(2),
                        old(self).kept_right(3),
                    ],
                    zobrist: old(self).cur().zobrist
                        ^ right_change(z, 0, old(self).cur().castling_rights[0], old(self).kept_right(0))
                        ^ right_change(z, 1, old(self).cur().castling_rights[1], old(self).kept_right(1))
                        ^ right_change(z, 2, old(self).cur().castling_rights[2], old(self).kept_right(2))
                        ^ right_change(z, 3, old(self).cur().castling_rights[3], old(self).kept_right(3)),
                    ..old(self).cur()
                },
            ),
            final(self).piece_bbs == old(self).piece_bbs,
            final(self).colors == old(self).colors,
            final(self).piece_array == old(self).piece_array,
            final(self).active_color == old(self).active_color,
            final(self).evalinfo == old(self).evalinfo,
    {
        let white_rooks = self.piece_bb(Piece::R, Color::W);
        let black_rooks = self.piece_bb(Piece::R, Color::B);

        let wk_rook = bitboard::is_set(white_rooks, square::H1);
        let wq_rook = bitboard::is_set(white_rooks, square::A1);

        let bk_rook = bitboard::is_set(black_rooks, square::H8);
        let bq_rook = bitboard::is_set(black_rooks, square::A8);

        let white_king = self.piece_bb(Piece::K, Color::W);
        let black_king = self.piece_bb(Piece::K, Color::B);

        let w_king = bitboard::is_set(white_king, square::E1);
        let b_king = bitboard::is_set(black_king, square::E8);

        let ghost start = *self;
        let wk = *self.castling(Castling::WK) && w_king && wk_rook;
        self.set_castling(Castling::WK, wk, z);
        let ghost s1 = *self;
        let wq = *self.castling(Castling::WQ) && w_king && wq_rook;
        self.set_castling(Castling::WQ, wq, z);
        let ghost s2 = *self;
        let bk = *self.castling(Castling::BK) && b_king && bk_rook;
        self.set_castling(Castling::BK, bk, z);
        let ghost s3 = *self;
        let bq = *self.castling(Castling::BQ) && b_king && bq_rook;
        self.set_castling(Castling::BQ, bq, z);
        proof {
            let c = start.cur().castling_rights;
            let rights = [
                start.kept_right(0),
                start.kept_right(1),
                start.kept_right(2),
                start.kept_right(3),
            ];
            assert(self.cur().castling_rights =~= rights);
            let k = |i: int, v: bool| z.castling_rights@[i * 2 + if v { 1int } else { 0 }];
            let z0 = start.cur().zobrist;
            lemma_xor(z0, k(0, c[0]), k(0, rights[0]));
            let z1 = s1.cur().zobrist;
            lemma_xor(z1, k(1, c[1]), k(1, rights[1]));
            let z2 = s2.cur().zobrist;
            lemma_xor(z2, k(2, c[2]), k(2, rights[2]));
            let z3 = s3.cur().zobrist;
            lemma_xor(z3, k(3, c[3]), k(3, rights[3]));
            let want = BoardInfo {
                castling_rights: rights,
                zobrist: z0 ^ right_change(z, 0, c[0], rights[0]) ^ right_change(z, 1, c[1], rights[1])
                    ^ right_change(z, 2, c[2], rights[2]) ^ right_change(z, 3, c[3], rights[3]),
                ..start.cur()
            };
            assert(self.cur() == want);
            assert(self.info@ =~= start.info_with(want));
        }
    }
}

// These methods store and restore what undoing a move needs.
impl Board {
    /// Takes `piece` off `square`, as `remove_piece` does, and records it as captured so that
    /// it can be put back later.
    #[inline]
    pub(super) fn capture_piece(&mut self, square: Square, piece: Piece, color: Color, z: &ZobristContainer)
        requires
            square < 64,
            piece != Piece::Empty,
            old(self).info@.len() > 0,
            z.wf(),
            old(self).evalinfo.phase - phase_of(piece_index(piece)) >= -32768,
        ensures
            final(self).changed_square(old(self), square as int, piece, color, false),
            final(self).info@ == old(self).info_with(
                BoardInfo {
                    zobrist: old(self).cur().zobrist ^ z.piece_key(piece, square as int, color),
                    captured_piece: piece,
                    ..old(self).cur()
                },
            ),
            final(self).evalinfo == old(self).evalinfo.with_piece(
                square as int,
                piece_index(piece) + 1,
                color == Color::B,
                -1,
            ),
    {
        self.remove_piece::<true>(square, piece, color, z);
        let cur = self.current_info_mut();
        cur.captured_piece = piece;
    }

    /// Puts the recorded captured piece, if any, back on `square` for `color`; the key is
    /// left as it is, since the record that held the key before the capture is the one
    /// that is current again.
    #[inline]
    pub(super) fn restore_piece(&mut self, square: Square, color: Color, z: &ZobristContainer)
        requires
            square < 64,
            old(self).info@.len() > 0,
            z.wf(),
            old(self).cur().captured_piece != Piece::Empty ==> old(self).evalinfo.phase + phase_of(
                piece_index(old(self).cur().captured_piece),
            ) <= 32767,
        ensures
            old(self).cur().captured_piece == Piece::Empty ==> *final(self) == *old(self),
            old(self).cur().captured_piece != Piece::Empty ==> {
                &&& final(self).changed_square(
                    old(self),
                    square as int,
                    old(self).cur().captured_piece,
                    color,
                    true,
                )
                &&& final(self).info@ == old(self).info@
                &&& final(self).evalinfo == old(self).evalinfo.with_piece(
                    square as int,
                    piece_index(old(self).cur().captured_piece) + 1,
                    color == Color::B,
                    1,
                )
            },
    {
        let captured = self.current_info().captured_piece;
        if captured != Piece::Empty {
            self.add_piece::<false>(square, captured, color, z)
        }
    }

    /// Starts the record of a new position: a copy of the current one with no captured piece.
    #[inline]
    pub(super) fn push_info(&mut self)
        requires
            old(self).info@.len() > 0,
        ensures
            final(self).info@ == old(self).info@.push(
                BoardInfo { captured_piece: Piece::Empty, ..old(self).cur() },
            ),
            final(self).piece_bbs == old(self).piece_bbs,
            final(self).colors == old(self).colors,
            final(self).piece_array == old(self).piece_array,
            final(self).active_color == old(self).active_color,
            final(self).evalinfo == old(self).evalinfo,
    {
        let copy = *self.current_info();
        self.info.push(copy);
        let cur = self.current_info_mut();
        cur.captured_piece = Piece::Empty;
    }

    /// Drops the record of the current position, which makes the one before it current.
    /// At least one record must remain.
    #[inline]
    pub(super) fn pop_info(&mut self)
        requires
            old(self).info@.len() >= 2,
        ensures
            final(self).info@ == old(self).info@.drop_last(),
            final(self).piece_bbs == old(self).piece_bbs,
            final(self).colors == old(self).colors,
            final(self).piece_array == old(self).piece_array,
            final(self).active_color == old(self).active_color,
            final(self).evalinfo == old(self).evalinfo,
    {
        self.info.pop();
    }

    /// How many of the positions 2, 4, .., 2j records back have the current key.
    pub open spec fn reps_upto(&self, j: int) -> int
        decreases j,
    {
        if j <= 0 {
            0
        } else {
            self.reps_upto(j - 1) + if self.info@[self.info@.len() - 1 - 2 * j].zobrist
                == self.cur().zobrist {
                1int
            } else {
                0
            }
        }
    }

    /// How far back a repetition can lie: the positions since the last capture or pawn move
    /// in which the same side was to move, as far as the history reaches.
    pub open spec fn rep_span(&self) -> int {
        let by_clock = self.cur().halfmove_clock / 2;
        let by_history = (self.info@.len() - 1) / 2;
        if by_clock < by_history {
            by_clock as int
        } else {
            by_history as int
        }
    }

    proof fn lemma_reps_grow(&self, i: int, j: int)
        requires
            i <= j,
        ensures
            self.reps_upto(i) <= self.reps_upto(j),
        decreases j - i,
    {
        if i < j {
            self.lemma_reps_grow(i, j - 1);
        }
    }

    /// Whether the current position occurred `count` times before (at least once), among
    /// the positions within reach of the halfmove clock with the same side to move. Under
    /// four halfmoves there is none.
    pub fn is_repetition(&self, count: usize) -> (r: bool)
        requires
            self.info@.len() > 0,
        ensures
            r == (self.cur().halfmove_clock >= 4 && self.reps_upto(self.rep_span()) >= if count
                == 0 {
                1
            } else {
                count as int
            }),
    {
        let hmc = self.halfmove_clock();
        let zobrist = self.zobrist();
        if hmc < 4 {
            return false;
        }
        let len = self.info.len();
        let need: usize = if count == 0 { 1 } else { count };
        let span: usize = if (hmc as usize) / 2 < (len - 1) / 2 { (hmc as usize) / 2 } else { (len - 1) / 2 };
        let mut num_reps: usize = 0;
        let mut j: usize = 1;
        while j <= span
            invariant
                len == self.info@.len(),
                len > 0,
                hmc == self.cur().halfmove_clock,
                hmc >= 4,
                span == self.rep_span(),
                zobrist == self.cur().zobrist,
                1 <= j <= span + 1,
                num_reps == self.reps_upto(j - 1),
                num_reps < need,
                need == if count == 0 { 1 } else { count },
            decreases span + 1 - j,
        {
            if self.info[len - 1 - 2 * j].zobrist == zobrist {
                num_reps += 1;
                if num_reps >= need {
                    proof {
                        assert(self.reps_upto(j as int) == self.reps_upto(j - 1) + 1);
                        self.lemma_reps_grow(j as int, span as int);
                    }
                    return true;
                }
            }
            j += 1;
        }
        false
    }
}

} // verus!
