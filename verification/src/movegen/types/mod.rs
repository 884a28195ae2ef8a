use vstd::prelude::*;
use vstd::std_specs::convert::FromSpecImpl;
use vstd::std_specs::ops::NotSpecImpl;


pub mod square;

verus! {

#[derive(Copy, Clone, PartialEq, Eq, Structural, Debug)]
pub enum Piece {
    P,
    N,
    B,
    R,
    Q,
    K,
    Empty,
}

impl Default for Piece {
    fn default() -> (r: Self)
        ensures
            r == Piece::Empty,
    {
        Piece::Empty
    }
}

/// The index of a piece type, pawn 0 to king 5, and 6 for no piece.
pub open spec fn piece_index(p: Piece) -> int {
    match p {
        Piece::P => 0,
        Piece::N => 1,
        Piece::B => 2,
        Piece::R => 3,
        Piece::Q => 4,
        Piece::K => 5,
        Piece::Empty => 6,
    }
}

/// The piece type of an index; indices past the king give no piece.
pub open spec fn piece_of_index(v: int) -> Piece {
    if v == 0 {
        Piece::P
    } else if v == 1 {
        Piece::N
    } else if v == 2 {
        Piece::B
    } else if v == 3 {
        Piece::R
    } else if v == 4 {
        Piece::Q
    } else if v == 5 {
        Piece::K
    } else {
        Piece::Empty
    }
}

impl From<u8> for Piece {
    fn from(value: u8) -> (r: Self) {
        if value == 0 {
            Piece::P
        } else if value == 1 {
            Piece::N
        } else if value == 2 {
            Piece::B
        } else if value == 3 {
            Piece::R
        } else if value == 4 {
            Piece::Q
        } else if value == 5 {
            Piece::K
        } else {
            Piece::Empty
        }
    }
}

impl FromSpecImpl<u8> for Piece {
    open spec fn obeys_from_spec() -> bool {
        true
    }

    open spec fn from_spec(v: u8) -> Piece {
        piece_of_index(v as int)
    }
}

/// The letter of a piece type, and '.' for no piece.
pub open spec fn piece_letter(p: Piece) -> char {
    match p {
        Piece::P => 'p',
        Piece::N => 'n',
        Piece::B => 'b',
        Piece::R => 'r',
        Piece::Q => 'q',
        Piece::K => 'k',
        Piece::Empty => '.',
    }
}

impl Piece {
    /// The piece's index, as `piece as usize` gives it.
    pub fn index(&self) -> (r: usize)
        ensures
            r == piece_index(*self),
    {
        match self {
            Piece::P => 0,
            Piece::N => 1,
            Piece::B => 2,
            Piece::R => 3,
            Piece::Q => 4,
            Piece::K => 5,
            Piece::Empty => 6,
        }
    }

    pub fn name(&self) -> (r: char)
        ensures
            r == piece_letter(*self),
    {
        let piece_names: [char; 7] = ['p', 'n', 'b', 'r', 'q', 'k', '.'];
        piece_names[self.index()]
    }
}

#[derive(PartialEq, Eq, Structural, Copy, Clone, Debug)]
pub enum Color {
    W,
    B,
}

impl Default for Color {
    fn default() -> (r: Self)
        ensures
            r == Color::W,
    {
        Color::W
    }
}

/// The index of a color: white 0, black 1.
pub open spec fn color_index(c: Color) -> int {
    match c {
        Color::W => 0,
        Color::B => 1,
    }
}

/// The other color.
pub open spec fn other(c: Color) -> Color {
    match c {
        Color::W => Color::B,
        Color::B => Color::W,
    }
}

impl Color {
    /// The color's index, as `color as usize` gives it.
    pub fn index(&self) -> (r: usize)
        ensures
            r == color_index(*self),
    {
        match self {
            Color::W => 0,
            Color::B => 1,
        }
    }
}

impl From<u8> for Color {
    fn from(value: u8) -> (r: Self) {
        if value == 0 { Color::W } else { Color::B }
    }
}

impl FromSpecImpl<u8> for Color {
    open spec fn obeys_from_spec() -> bool {
        true
    }

    open spec fn from_spec(v: u8) -> Color {
        if v == 0 { Color::W } else { Color::B }
    }
}

impl std::ops::Not for Color {
    type Output = Color;

    fn not(self) -> (r: Self::Output) {
        let bit_bool = self.index() != 0;  // the color as a bit
        Color::from((!bit_bool) as u8)
    }
}

impl NotSpecImpl for Color {
    open spec fn obeys_not_spec() -> bool {
        true
    }

    open spec fn not_req(self) -> bool {
        true
    }

    open spec fn not_spec(self) -> Color {
        other(self)
    }
}

/// A square index, 0 (a1) to 63 (h8).
pub type Square = u8;

pub const FULL: u64 = 0xffff_ffff_ffff_ffff;

} // verus!
