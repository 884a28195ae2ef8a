use vstd::prelude::*;

verus! {

/// A piece type: 0 means no piece, 1..=6 are pawn, knight, bishop, rook, queen, king.
pub type Piece = u8;

pub const NOPIECE: u8 = 0;
pub const PAWN: u8 = 1;
pub const KNIGHT: u8 = 2;
pub const BISHOP: u8 = 3;
pub const ROOK: u8 = 4;
pub const QUEEN: u8 = 5;
pub const KING: u8 = 6;

/// A side: `false` is white, `true` is black.
pub type Color = bool;

pub const WHITE: Color = false;
pub const BLACK: Color = true;

/// A square index, 0 (a1) to 63 (h8), rank-major.
pub type Square = u8;

/// The index of a color into two-element tables.
pub open spec fn color_index(c: Color) -> int {
    if c { 1 } else { 0 }
}

/// The square a rank and file name: file letter then rank digit.
pub open spec fn square_of_name(name: Seq<char>) -> Option<u8> {
    if name.len() >= 2 && 'a' <= name[0] <= 'h' && '1' <= name[1] <= '8' {
        Some(((name[1] as int - '1' as int) * 8 + (name[0] as int - 'a' as int)) as u8)
    } else {
        None
    }
}

/// A square's name reads back as that square.
pub proof fn lemma_square_name_reads_back(s: int)
    requires
        0 <= s < 64,
    ensures
        square_of_name(crate::text::square_name(s)) == Some(s as u8),
{
}

pub trait Sq: Sized {
    /// The square mirrored across the horizontal mid-line of the board.
    fn flip(&self) -> Self;

    /// Reads a square's algebraic name such as "e4".
    fn algebraic_to_sqr(squarename: &str) -> Option<Square>;
}

impl Sq for Square {
    fn flip(&self) -> (r: Self)
        ensures
            r == *self ^ 56,
            *self < 64 ==> r < 64 && r / 8 == 7 - *self / 8 && r % 8 == *self % 8,
    {
        let r = *self ^ 56;
        proof {
            let s = *self;
            assert(s < 64 ==> (s ^ 56) < 64 && (s ^ 56) / 8 == 7 - s / 8 && (s ^ 56) % 8 == s % 8)
                by (bit_vector);
        }
        r
    }

    /// Reads the first two characters: a file letter `a`..`h` then a rank digit `1`..`8`;
    /// anything after them is ignored.
    fn algebraic_to_sqr(square: &str) -> (r: Option<Square>)
        ensures
            r == square_of_name(square@),
    {
        let chars = crate::text::chars_of(square);
        if chars.len() < 2 {
            return None;
        }
        let f = chars[0];
        let rk = chars[1];
        if 'a' <= f && f <= 'h' && '1' <= rk && rk <= '8' {
            let file = (f as u32 - 'a' as u32) as u8;
            let rank = (rk as u32 - '1' as u32) as u8;
            Some(rank * 8 + file)
        } else {
            None
        }
    }
}

} // verus!
