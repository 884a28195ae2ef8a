use vstd::prelude::*;
use crate::board_state::typedefs::{Piece, Square, BISHOP, KNIGHT, QUEEN, ROOK};
use crate::text::{push_square_name, square_name, string_from_chars};

verus! {

// A move is packed into an integer:
// 0000 0000 0011 1111 <- move from
// 0000 1111 1100 0000 <- move to
// 0011 0000 0000 0000 <- move type
// 1100 0000 0000 0000 <- promotion piece
// and above those sixteen bits:
// 0000 0000 0000 0111 <- moving piece
// 0000 0000 0000 1000 <- capture flag
// 0000 0000 0001 0000 <- double pawn push flag
pub type Move = u32;

/// The low sixteen bits of a move (squares, type and promotion), as a table stores it.
pub type ShortMove = u16;

pub type MoveType = u8;

pub const NORMAL: MoveType = 0;
pub const CASTLE: MoveType = 1;
pub const PASSANT: MoveType = 2;
pub const PROMOTION: MoveType = 3;

const PR_PIECES: [Piece; 4] = [KNIGHT, BISHOP, ROOK, QUEEN];

/// The promotion piece a two-bit code stands for: knight, bishop, rook, queen.
pub open spec fn promotion_piece(code: int) -> Piece {
    if code == 0 { KNIGHT } else if code == 1 { BISHOP } else if code == 2 { ROOK } else { QUEEN }
}

/// The letter of a promotion piece in move notation.
pub open spec fn promotion_letter(p: Piece) -> char {
    if p == KNIGHT { 'n' } else if p == BISHOP { 'b' } else if p == ROOK { 'r' } else { 'q' }
}

/// The fields of a move.
pub open spec fn from_of(m: u32) -> int { (m & 63) as int }
pub open spec fn to_of(m: u32) -> int { ((m >> 6) & 63) as int }
pub open spec fn type_of(m: u32) -> int { ((m >> 12) & 3) as int }
pub open spec fn promo_of(m: u32) -> Piece { promotion_piece(((m >> 14) & 3) as int) }
pub open spec fn piece_of(m: u32) -> int { ((m >> 16) & 7) as int }
pub open spec fn capture_of(m: u32) -> bool { (m >> 19) & 1 != 0 }
pub open spec fn double_of(m: u32) -> bool { (m >> 20) & 1 != 0 }

/// The move's name in coordinate notation, such as "e2e4" or "e7e8q".
pub open spec fn algebraic(m: u32) -> Seq<char> {
    square_name(from_of(m)) + square_name(to_of(m)) + if type_of(m) == PROMOTION {
        seq![promotion_letter(promo_of(m))]
    } else {
        Seq::empty()
    }
}

pub trait Action: Sized {
    fn move_from(&self) -> Square;
    fn move_to(&self) -> Square;
    fn move_type(&self) -> MoveType;
    fn promote_to(&self) -> Piece;
    fn piece_moved(&self) -> Piece;
    fn is_capture(&self) -> bool;
    fn is_pawn_doublepush(&self) -> bool;

    fn new_move(from: Square, to: Square, movetype: MoveType, piece: Piece) -> Self
        requires
            piece != 0,
    ;

    fn set_pr_piece(&mut self, piece: Piece)
        requires
            piece >= 2,
    ;

    fn set_capture(&mut self);

    fn set_doublemove(&mut self);

    fn to_algebraic(&self) -> String;
}

impl Action for Move {
    #[inline]
    fn move_from(&self) -> (r: Square)
        ensures
            r == from_of(*self),
            r < 64,
    {
        proof {
            let m = *self;
            lemma_field_bounds(m);
        }
        (*self & 0b111111) as u8
    }

    #[inline]
    fn move_to(&self) -> (r: Square)
        ensures
            r == to_of(*self),
            r < 64,
    {
        proof {
            let m = *self;
            lemma_field_bounds(m);
        }
        ((*self >> 6) & 0b111111) as u8
    }

    #[inline]
    fn move_type(&self) -> (r: MoveType)
        ensures
            r == type_of(*self),
            r < 4,
    {
        proof {
            let m = *self;
            lemma_field_bounds(m);
        }
        ((*self >> 12) & 0b11) as u8
    }

    #[inline]
    fn promote_to(&self) -> (r: Piece)
        ensures
            r == promo_of(*self),
    {
        let idx = (*self >> 14) & 0b11;
        proof {
            let m = *self;
            lemma_field_bounds(m);
        }
        PR_PIECES[idx as usize]
    }

    #[inline]
    fn piece_moved(&self) -> (r: Piece)
        ensures
            r == piece_of(*self),
            r < 8,
    {
        proof {
            let m = *self;
            lemma_field_bounds(m);
        }
        ((*self >> 16) & 0b111) as u8
    }

    #[inline]
    fn is_capture(&self) -> (r: bool)
        ensures
            r == capture_of(*self),
    {
        ((*self >> 19) & 1) != 0
    }

    #[inline]
    fn is_pawn_doublepush(&self) -> (r: bool)
        ensures
            r == double_of(*self),
    {
        ((*self >> 20) & 1) != 0
    }

    /// Packs a move with no promotion, capture or double push flag. Fields in range come
    /// back out unchanged.
    #[inline]
    fn new_move(from: Square, to: Square, movetype: MoveType, moving_piece: Piece) -> (r: Self)
        ensures
            r == (from as u32) | ((to as u32) << 6) | ((movetype as u32) << 12) | ((
                moving_piece as u32) << 16),
            from < 64 && to < 64 && movetype < 4 && moving_piece < 8 ==> {
                &&& from_of(r) == from
                &&& to_of(r) == to
                &&& type_of(r) == movetype
                &&& piece_of(r) == moving_piece
                &&& (r >> 14) & 3 == 0
                &&& !capture_of(r)
                &&& !double_of(r)
            },
    {
        let r = (from as u32) | ((to as u32) << 6) | ((movetype as u32) << 12) | ((moving_piece as u32)
            << 16);
        proof {
            let (f, t, y, p) = (from as u32, to as u32, movetype as u32, moving_piece as u32);
            assert(f < 64 && t < 64 && y < 4 && p < 8 ==> {
                let m = f | (t << 6) | (y << 12) | (p << 16);
                &&& m & 63 == f
                &&& (m >> 6) & 63 == t
                &&& (m >> 12) & 3 == y
                &&& (m >> 16) & 7 == p
                &&& (m >> 14) & 3 == 0
                &&& (m >> 19) & 1 == 0
                &&& (m >> 20) & 1 == 0
            }) by (bit_vector);
        }
        r
    }

    /// Sets the promotion field to the piece (knight 2 to queen 5), over a clear field.
    #[inline]
    fn set_pr_piece(&mut self, piece: Piece)
        ensures
            *final(self) == *old(self) | (((piece - 2) as u32) << 14),
            2 <= piece <= 5 && (*old(self) >> 14) & 3 == 0 ==> {
                &&& promo_of(*final(self)) == piece
                &&& from_of(*final(self)) == from_of(*old(self))
                &&& to_of(*final(self)) == to_of(*old(self))
                &&& type_of(*final(self)) == type_of(*old(self))
                &&& piece_of(*final(self)) == piece_of(*old(self))
                &&& capture_of(*final(self)) == capture_of(*old(self))
                &&& double_of(*final(self)) == double_of(*old(self))
            },
    {
        let pval = (piece - 2) as u32;
        proof {
            let m = *self;
            assert(pval < 4 && (m >> 14) & 3 == 0 ==> {
                let n = m | (pval << 14);
                &&& (n >> 14) & 3 == pval
                &&& n & 63 == m & 63
                &&& (n >> 6) & 63 == (m >> 6) & 63
                &&& (n >> 12) & 3 == (m >> 12) & 3
                &&& (n >> 16) & 7 == (m >> 16) & 7
                &&& (n >> 19) & 1 == (m >> 19) & 1
                &&& (n >> 20) & 1 == (m >> 20) & 1
            }) by (bit_vector);
        }
        *self |= pval << 14;
    }

    #[inline]
    fn set_capture(&mut self)
        ensures
            *final(self) == *old(self) | (1u32 << 19),
            capture_of(*final(self)),
            from_of(*final(self)) == from_of(*old(self)),
            to_of(*final(self)) == to_of(*old(self)),
            type_of(*final(self)) == type_of(*old(self)),
            promo_of(*final(self)) == promo_of(*old(self)),
            piece_of(*final(self)) == piece_of(*old(self)),
            double_of(*final(self)) == double_of(*old(self)),
    {
        proof {
            let m = *self;
            let n = m | (1u32 << 19);
            assert((n >> 19) & 1 != 0 && n & 63 == m & 63 && (n >> 6) & 63 == (m >> 6) & 63 && (n
                >> 12) & 3 == (m >> 12) & 3 && (n >> 14) & 3 == (m >> 14) & 3 && (n >> 16) & 7 == (m
                >> 16) & 7 && (n >> 20) & 1 == (m >> 20) & 1) by (bit_vector)
                requires
                    n == m | (1u32 << 19),
            ;
        }
        *self |= 1 << 19;
    }

    #[inline]
    fn set_doublemove(&mut self)
        ensures
            *final(self) == *old(self) | (1u32 << 20),
            double_of(*final(self)),
            from_of(*final(self)) == from_of(*old(self)),
            to_of(*final(self)) == to_of(*old(self)),
            type_of(*final(self)) == type_of(*old(self)),
            promo_of(*final(self)) == promo_of(*old(self)),
            piece_of(*final(self)) == piece_of(*old(self)),
            capture_of(*final(self)) == capture_of(*old(self)),
    {
        proof {
            let m = *self;
            let n = m | (1u32 << 20);
            assert((n >> 20) & 1 != 0 && n & 63 == m & 63 && (n >> 6) & 63 == (m >> 6) & 63 && (n
                >> 12) & 3 == (m >> 12) & 3 && (n >> 14) & 3 == (m >> 14) & 3 && (n >> 16) & 7 == (m
                >> 16) & 7 && (n >> 19) & 1 == (m >> 19) & 1) by (bit_vector)
                requires
                    n == m | (1u32 << 20),
            ;
        }
        *self |= 1 << 20;
    }

    fn to_algebraic(&self) -> (r: String)
        ensures
            r@ == algebraic(*self),
    {
        let mut chars: Vec<char> = Vec::new();
        push_algebraic(&mut chars, *self);
        assert(chars@ =~= algebraic(*self));
        string_from_chars(&chars)
    }
}

/// Appends the move's name in coordinate notation.
pub fn push_algebraic(out: &mut Vec<char>, m: Move)
    ensures
        final(out)@ == old(out)@ + algebraic(m),
{
    push_square_name(out, m.move_from());
    push_square_name(out, m.move_to());
    if m.move_type() == PROMOTION {
        let pr = m.promote_to();
        let letter = if pr == KNIGHT {
            'n'
        } else if pr == BISHOP {
            'b'
        } else if pr == ROOK {
            'r'
        } else {
            'q'
        };
        out.push(letter);
    }
    proof {
        assert(final(out)@ =~= old(out)@ + algebraic(m));
    }
}

/// Each field of an encoded move lies below its width's limit.
proof fn lemma_field_bounds(m: u32)
    by (bit_vector)
    ensures
        m & 63 < 64,
        (m >> 6) & 63 < 64,
        (m >> 12) & 3 < 4,
        (m >> 14) & 3 < 4,
        (m >> 16) & 7 < 8,
{
}

} // verus!
