use vstd::prelude::*;
use crate::board_state::bitboard::{lemma_xor, single};
use crate::search::evaluate::phase_of;
use crate::text::{chars_of, parse_u8, split_words, u8_of, words};
use super::board::{right_change, Board, BoardInfo, Castling};
use super::types::{color_index, piece_index, Color, Piece, Square};
use super::zobrist::ZobristContainer;

verus! {

/// Why a FEN string was refused.
#[derive(PartialEq, Eq, Structural, Clone, Copy, Debug)]
pub enum FenError {
    /// A field is missing or malformed.
    Invalid,
    /// The halfmove clock is not a number from 0 to 255.
    BadClock,
}

/// The most pieces a placement field may put down; more would overflow the evaluator's
/// phase.
pub const MAX_PLACED: usize = 8000;

pub const START_FEN: &'static str = "rnbqkbnr/pppppppp/8/8/8/8/PPPPPPPP/RNBQKBNR w KQkq - 0 1";

/// The piece a lowercase letter names.
pub open spec fn piece_named(c: char) -> Option<Piece> {
    if c == 'p' {
        Some(Piece::P)
    } else if c == 'n' {
        Some(Piece::N)
    } else if c == 'b' {
        Some(Piece::B)
    } else if c == 'r' {
        Some(Piece::R)
    } else if c == 'q' {
        Some(Piece::Q)
    } else if c == 'k' {
        Some(Piece::K)
    } else {
        None
    }
}

/// Where the placement field has got to: the square (starting at a8), how many pieces are
/// down, the piece and color bitboards, the square contents and the key.
pub struct Placed {
    pub square: u8,
    pub count: int,
    pub pieces: Seq<u64>,
    pub colors: Seq<u64>,
    pub squares: Seq<Piece>,
    pub key: u64,
}

/// One character of the placement field. Square arithmetic is on bytes and wraps; a digit
/// moves on that many squares, a slash goes to the first file of the rank below (which must
/// be on the board), a letter puts a piece (white when upper case) on the current square,
/// which must be on the board, and moves on one square.
pub open spec fn placed_step(st: Placed, c: char, z: &ZobristContainer) -> Option<Placed> {
    if '0' <= c <= '9' {
        let sq = st.square + (c as int - '0' as int);
        Some(Placed { square: (if sq > 255 { sq - 256 } else { sq }) as u8, ..st })
    } else if c == '/' {
        let sq = (if st.square < 16 { st.square + 240 } else { st.square - 16 }) as u8;
        if sq >= 64 || sq % 8 != 0 {
            None
        } else {
            Some(Placed { square: sq, ..st })
        }
    } else {
        let lower = if 'A' <= c <= 'Z' { (c as int + 32) as char } else { c };
        let color = if 'A' <= c <= 'Z' { Color::W } else { Color::B };
        match piece_named(lower) {
            None => None,
            Some(p) => if st.square >= 64 || st.count >= MAX_PLACED {
                None
            } else {
                let s = st.square as int;
                let pi = piece_index(p);
                let ci = color_index(color);
                Some(
                    Placed {
                        square: (if s == 255 { 0 } else { s + 1 }) as u8,
                        count: st.count + 1,
                        pieces: st.pieces.update(pi, st.pieces[pi] | single(s)),
                        colors: st.colors.update(ci, st.colors[ci] | single(s)),
                        squares: st.squares.update(s, p),
                        key: st.key ^ z.piece_key(p, s, color),
                    },
                )
            },
        }
    }
}

/// The placement field read onto an empty board.
pub open spec fn placed(s: Seq<char>, z: &ZobristContainer) -> Option<Placed>
    decreases s.len(),
{
    if s.len() == 0 {
        Some(
            Placed {
                square: 56,
                count: 0,
                pieces: seq![0u64, 0, 0, 0, 0, 0],
                colors: seq![0u64, 0],
                squares: Seq::new(64, |i: int| Piece::Empty),
                key: 0,
            },
        )
    } else {
        match placed(s.drop_last(), z) {
            None => None,
            Some(st) => placed_step(st, s.last(), z),
        }
    }
}

/// The castling field read into the rights and the key so far: each of KQkq grants its
/// right, a dash ends the field, anything else is refused.
pub open spec fn rights_read(s: Seq<char>, rights: Seq<bool>, key: u64, z: &ZobristContainer) -> Option<
    (Seq<bool>, u64),
>
    decreases s.len(),
{
    if s.len() == 0 {
        Some((rights, key))
    } else {
        let c = s[0];
        let i = if c == 'K' { 0int } else if c == 'Q' { 1 } else if c == 'k' { 2 } else { 3 };
        if c == '-' {
            Some((rights, key))
        } else if c == 'K' || c == 'Q' || c == 'k' || c == 'q' {
            rights_read(s.drop_first(), rights.update(i, true), key ^ right_change(z, i, rights[i], true), z)
        } else {
            None
        }
    }
}

/// A square's name: exactly a file letter then a rank digit.
pub open spec fn square_of_chars(s: Seq<char>) -> Option<Square> {
    if s.len() == 2 && 'a' <= s[0] <= 'h' && '1' <= s[1] <= '8' {
        Some(((s[1] as int - '1' as int) * 8 + (s[0] as int - 'a' as int)) as u8)
    } else {
        None
    }
}

/// What the rest of the fields make of the placement: the side to move, the castling
/// rights, the en passant square and the halfmove clock, with the key updated for each.
pub open spec fn fen_rest(w: Seq<Seq<char>>, st: Placed, z: &ZobristContainer) -> Result<
    (Color, Seq<bool>, Option<Square>, u8, u64),
    FenError,
> {
    if w.len() < 2 || (w[1] != seq!['b'] && w[1] != seq!['w']) {
        Err(FenError::Invalid)
    } else {
        let black = w[1] == seq!['b'];
        let k1 = if black { st.key ^ z.active_color } else { st.key };
        if w.len() < 3 {
            Err(FenError::Invalid)
        } else {
            match rights_read(w[2], seq![false, false, false, false], k1, z) {
                None => Err(FenError::Invalid),
                Some((rights, k2)) => if w.len() < 4 {
                    Err(FenError::Invalid)
                } else {
                    let ep = if w[3] == seq!['-'] { None } else { square_of_chars(w[3]) };
                    if w[3] != seq!['-'] && ep is None {
                        Err(FenError::Invalid)
                    } else {
                        let k3 = match ep {
                            None => k2,
                            Some(s) => k2 ^ z.passant_file@[(s % 8) as int],
                        };
                        if w.len() < 5 {
                            Err(FenError::Invalid)
                        } else {
                            match u8_of(w[4]) {
                                None => Err(FenError::BadClock),
                                Some(n) => Ok(
                                    (if black { Color::B } else { Color::W }, rights, ep, n, k3),
                                ),
                            }
                        }
                    }
                },
            }
        }
    }
}

/// What `parse_fen` makes of a FEN string: its white-space separated fields, the placement
/// then the rest. Fields after the fifth are ignored.
pub open spec fn fen_spec(fen: Seq<char>, z: &ZobristContainer) -> Result<
    (Placed, (Color, Seq<bool>, Option<Square>, u8, u64)),
    FenError,
> {
    let w = words(fen);
    if w.len() == 0 {
        Err(FenError::Invalid)
    } else {
        match placed(w[0], z) {
            None => Err(FenError::Invalid),
            Some(st) => match fen_rest(w, st, z) {
                Err(e) => Err(e),
                Ok(rest) => Ok((st, rest)),
            },
        }
    }
}

impl Board {
    /// The board holds what the FEN result describes, on a fresh history of forty records
    /// whose last one is current.
    pub open spec fn holds_fen(&self, st: Placed, rest: (Color, Seq<bool>, Option<Square>, u8, u64)) -> bool {
        let (color, rights, ep, clock, key) = rest;
        &&& self.piece_bbs@ == st.pieces
        &&& self.colors@ == st.colors
        &&& self.piece_array@ == st.squares
        &&& self.active_color == color
        &&& self.info@.len() == 40
        &&& forall|i: int| 0 <= i < 39 ==> self.info@[i] == BoardInfo::blank()
        &&& self.cur() == BoardInfo {
            passant_square: ep,
            captured_piece: Piece::Empty,
            halfmove_clock: clock,
            zobrist: key,
            castling_rights: [rights[0], rights[1], rights[2], rights[3]],
        }
        &&& self.evalinfo == self.plain().eval_spec()
    }

    /// The starting position.
    pub fn new(z: &ZobristContainer) -> (r: Board)
        requires
            z.wf(),
        ensures
            fen_spec(START_FEN@, z) matches Ok((st, rest)) ==> r.holds_fen(st, rest),
    {
        let mut default = Board::default();
        let _ = default.parse_fen(START_FEN, z);
        default
    }

    /// Sets up the position a FEN string describes. On an error the board is left in some
    /// state that is not to be used.
    pub fn parse_fen(&mut self, fen: &str, z: &ZobristContainer) -> (r: Result<(), FenError>)
        requires
            z.wf(),
        ensures
            match fen_spec(fen@, z) {
                Err(e) => r == Err::<(), FenError>(e),
                Ok((st, rest)) => r is Ok && final(self).holds_fen(st, rest),
            },
    {
        *self = Self::default();
        let chars = chars_of(fen);
        let split_fen = split_words(&chars);
        let ghost w = words(fen@);
        if split_fen.len() == 0 {
            return Err(FenError::Invalid);
        }
        if !self.read_placement(&split_fen[0], z) {
            return Err(FenError::Invalid);
        }
        let ghost st = placed(w[0], z)->Some_0;
        let ghost after_placement = *self;

        if split_fen.len() < 2 {
            return Err(FenError::Invalid);
        }
        let to_move = &split_fen[1];
        if to_move.len() == 1 && to_move[0] == 'b' {
            proof {
                assert(to_move@ =~= seq!['b']);
            }
            self.swap_sides(z);
        } else if !(to_move.len() == 1 && to_move[0] == 'w') {
            proof {
                assert(to_move@ != seq!['b'] && to_move@ != seq!['w']) by {
                    if to_move@ == seq!['b'] || to_move@ == seq!['w'] {
                        assert(to_move@.len() == 1);
                    }
                }
            }
            return Err(FenError::Invalid);
        } else {
            proof {
                assert(to_move@ =~= seq!['w']);
            }
        }
        let ghost after_side = *self;

        if split_fen.len() < 3 {
            return Err(FenError::Invalid);
        }
        if !self.read_castling(&split_fen[2], z) {
            return Err(FenError::Invalid);
        }
        let ghost after_castling = *self;

        if split_fen.len() < 4 {
            return Err(FenError::Invalid);
        }
        let passant = &split_fen[3];
        if !(passant.len() == 1 && passant[0] == '-') {
            proof {
                if passant@ == seq!['-'] {
                    assert(passant@.len() == 1);
                }
            }
            let ep_square = match square_from_chars(passant) {
                Some(s) => s,
                None => {
                    return Err(FenError::Invalid);
                },
            };
            self.set_ep(ep_square, z);
        } else {
            proof {
                assert(passant@ =~= seq!['-']);
            }
        }

        if split_fen.len() < 5 {
            return Err(FenError::Invalid);
        }
        let fifty = match parse_u8(&split_fen[4]) {
            Some(n) => n,
            None => {
                return Err(FenError::BadClock);
            },
        };
        self.set_fifty(fifty);
        let ghost before_eval = *self;
        self.set_evalinfo();
        proof {
            crate::board_state::fen::lemma_eval_same(before_eval.plain(), self.plain(), 6);
            lemma_xor(after_castling.cur().zobrist, 0, 0);
            let rest = fen_rest(w, st, z)->Ok_0;
            assert(fen_spec(fen@, z) == Ok::<(Placed, (Color, Seq<bool>, Option<Square>, u8, u64)), FenError>((st, rest)));
            assert(self.cur().castling_rights =~= [
                self.cur().castling_rights@[0],
                self.cur().castling_rights@[1],
                self.cur().castling_rights@[2],
                self.cur().castling_rights@[3],
            ]);
            assert forall|i: int| 0 <= i < 39 implies self.info@[i] == BoardInfo::blank() by {
                assert(after_castling.info@[i] == after_placement.info@[i]);
            }
        }
        Ok(())
    }

    /// Reads the placement field onto a blank board; false when it is malformed.
    fn read_placement(&mut self, placement: &Vec<char>, z: &ZobristContainer) -> (ok: bool)
        requires
            old(self).is_blank(),
            z.wf(),
        ensures
            ok == placed(placement@, z) is Some,
            ok ==> {
                let st = placed(placement@, z)->Some_0;
                &&& final(self).piece_bbs@ == st.pieces
                &&& final(self).colors@ == st.colors
                &&& final(self).piece_array@ == st.squares
                &&& final(self).active_color == Color::W
                &&& final(self).info@.len() == 40
                &&& forall|j: int| 0 <= j < 39 ==> final(self).info@[j] == BoardInfo::blank()
                &&& final(self).cur() == (BoardInfo { zobrist: st.key, ..BoardInfo::blank() })
            },
    {
        let mut square: u8 = 56;
        let mut count: usize = 0;
        let mut i: usize = 0;
        proof {
            assert(placement@.take(0) =~= Seq::<char>::empty());
            assert(self.piece_array@ =~= Seq::new(64, |i: int| Piece::Empty));
        }
        while i < placement.len()
            invariant
                z.wf(),
                i <= placement@.len(),
                placed(placement@.take(i as int), z) matches Some(st) && st.square == square
                    && st.count == count && st.pieces == self.piece_bbs@ && st.colors
                    == self.colors@ && st.squares == self.piece_array@ && st.key
                    == self.cur().zobrist,
                count <= MAX_PLACED,
                self.evalinfo.phase <= 24 + 4 * count,
                self.evalinfo.phase >= -32768 + 24,
                self.info@.len() == 40,
                forall|j: int| 0 <= j < 39 ==> self.info@[j] == BoardInfo::blank(),
                self.cur() == (BoardInfo { zobrist: self.cur().zobrist, ..BoardInfo::blank() }),
                self.active_color == Color::W,
            decreases placement.len() - i,
        {
            let character = placement[i];
            proof {
                assert(placement@.take(i + 1).drop_last() =~= placement@.take(i as int));
            }
            if '0' <= character && character <= '9' {
                square = square.wrapping_add((character as u32 - '0' as u32) as u8);
            } else if character == '/' {
                square = square.wrapping_sub(16);
                if square >= 64 || square % 8 != 0 {
                    proof {
                        lemma_placed_none(placement@, i as int + 1, z);
                    }
                    return false;
                }
            } else {
                let found: Option<Piece> = if character == 'p' || character == 'P' {
                    Some(Piece::P)
                } else if character == 'n' || character == 'N' {
                    Some(Piece::N)
                } else if character == 'b' || character == 'B' {
                    Some(Piece::B)
                } else if character == 'r' || character == 'R' {
                    Some(Piece::R)
                } else if character == 'q' || character == 'Q' {
                    Some(Piece::Q)
                } else if character == 'k' || character == 'K' {
                    Some(Piece::K)
                } else {
                    None
                };
                let piece = match found {
                    Some(p) => p,
                    None => {
                        proof {
                            lemma_placed_none(placement@, i as int + 1, z);
                        }
                        return false;
                    },
                };
                if square >= 64 || count >= MAX_PLACED {
                    proof {
                        lemma_placed_none(placement@, i as int + 1, z);
                    }
                    return false;
                }
                let piece_color = if 'A' <= character && character <= 'Z' { Color::W } else { Color::B };
                let ghost before = *self;
                self.add_piece::<true>(square, piece, piece_color, z);
                proof {
                    let s = square as int;
                    let pi = piece_index(piece);
                    let ci = color_index(piece_color);
                    assert(self.piece_bbs@ =~= before.piece_bbs@.update(pi, before.piece_bbs@[pi] | single(s)));
                    assert(self.colors@ =~= before.colors@.update(ci, before.colors@[ci] | single(s)));
                    assert(self.piece_array@ =~= before.piece_array@.update(s, piece));
                }
                square = square.wrapping_add(1);
                count += 1;
            }
            i += 1;
        }
        proof {
            assert(placement@.take(placement@.len() as int) =~= placement@);
        }
        true
    }

    /// Reads the castling field; false when it holds anything but KQkq before a dash.
    fn read_castling(&mut self, castling: &Vec<char>, z: &ZobristContainer) -> (ok: bool)
        requires
            old(self).info@.len() > 0,
            old(self).cur().castling_rights == [false, false, false, false],
            z.wf(),
        ensures
            ok == rights_read(castling@, seq![false, false, false, false], old(self).cur().zobrist, z) is Some,
            ok ==> rights_read(castling@, seq![false, false, false, false], old(self).cur().zobrist, z)
                == Some((final(self).cur().castling_rights@, final(self).cur().zobrist)),
            final(self).info@ == old(self).info_with(
                BoardInfo {
                    castling_rights: final(self).cur().castling_rights,
                    zobrist: final(self).cur().zobrist,
                    ..old(self).cur()
                },
            ),
            final(self).piece_bbs == old(self).piece_bbs,
            final(self).colors == old(self).colors,
            final(self).piece_array == old(self).piece_array,
            final(self).active_color == old(self).active_color,
            final(self).evalinfo == old(self).evalinfo,
    {
        let ghost k1 = self.cur().zobrist;
        let mut j: usize = 0;
        proof {
            assert(castling@.skip(0) =~= castling@);
            assert(self.cur().castling_rights@ =~= seq![false, false, false, false]);
        }
        while j < castling.len()
            invariant
                z.wf(),
                j <= castling@.len(),
                self.info@.len() == old(self).info@.len(),
                self.info@ == old(self).info_with(
                    BoardInfo {
                        castling_rights: self.cur().castling_rights,
                        zobrist: self.cur().zobrist,
                        ..old(self).cur()
                    },
                ),
                self.piece_bbs == old(self).piece_bbs,
                self.colors == old(self).colors,
                self.piece_array == old(self).piece_array,
                self.active_color == old(self).active_color,
                self.evalinfo == old(self).evalinfo,
                k1 == old(self).cur().zobrist,
                old(self).info@.len() > 0,
                rights_read(castling@.skip(j as int), self.cur().castling_rights@, self.cur().zobrist, z)
                    == rights_read(castling@, seq![false, false, false, false], k1, z),
            decreases castling.len() - j,
        {
            let c = castling[j];
            proof {
                assert(castling@.skip(j as int).drop_first() =~= castling@.skip(j + 1));
                assert(castling@.skip(j as int)[0] == c);
            }
            let ghost before = *self;
            if c == 'K' {
                self.set_castling(Castling::WK, true, z);
            } else if c == 'Q' {
                self.set_castling(Castling::WQ, true, z);
            } else if c == 'k' {
                self.set_castling(Castling::BK, true, z);
            } else if c == 'q' {
                self.set_castling(Castling::BQ, true, z);
            } else if c == '-' {
                return true;
            } else {
                return false;
            }
            proof {
                let ci: int = if c == 'K' { 0 } else if c == 'Q' { 1 } else if c == 'k' { 2 } else { 3 };
                assert(self.cur().castling_rights@ =~= before.cur().castling_rights@.update(ci, true));
                let kk = |v: bool| z.castling_rights@[ci * 2 + if v { 1int } else { 0 }];
                lemma_xor(before.cur().zobrist, kk(before.cur().castling_rights[ci]), kk(true));
                assert(self.info@ =~= old(self).info_with(
                    BoardInfo {
                        castling_rights: self.cur().castling_rights,
                        zobrist: self.cur().zobrist,
                        ..old(self).cur()
                    },
                ));
            }
            j += 1;
        }
        proof {
            assert(castling@.skip(j as int) =~= Seq::<char>::empty());
        }
        true
    }
}

/// A square's name read from characters.
pub fn square_from_chars(chars: &Vec<char>) -> (r: Option<Square>)
    ensures
        r == square_of_chars(chars@),
        r matches Some(s) ==> s < 64,
{
    if chars.len() == 2 {
        let f = chars[0];
        let rk = chars[1];
        if 'a' <= f && f <= 'h' && '1' <= rk && rk <= '8' {
            let file = (f as u32 - 'a' as u32) as u8;
            let rank = (rk as u32 - '1' as u32) as u8;
            return Some(rank * 8 + file);
        }
    }
    None
}

/// Once a prefix of the placement field is refused, so is the whole field.
proof fn lemma_placed_none(s: Seq<char>, n: int, z: &ZobristContainer)
    requires
        0 <= n <= s.len(),
        placed(s.take(n), z) is None,
    ensures
        placed(s, z) is None,
    decreases s.len() - n,
{
    if n < s.len() {
        assert(s.take(n + 1).drop_last() =~= s.take(n));
        lemma_placed_none(s, n + 1, z);
    } else {
        assert(s.take(n) =~= s);
    }
}

} // verus!
