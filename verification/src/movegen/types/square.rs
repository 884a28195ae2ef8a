use vstd::prelude::*;
use super::Square;
use crate::movegen::bitboard::Direction;
use crate::text::square_name;
use vstd::string::StringSliceAdditionalSpecFns;

verus! {

pub fn rank_of(square: Square) -> (r: u8)
    ensures
        r == square / 8,
{
    square / 8
}

pub fn file_of(square: Square) -> (r: u8)
    ensures
        r == square % 8,
{
    square % 8
}

pub fn new_sq(rank: u8, file: u8) -> (r: Square)
    requires
        rank * 8 + file <= 255,
    ensures
        r == rank * 8 + file,
{
    rank * 8 + file
}

/// The square mirrored top to bottom.
pub fn flip_v(square: Square) -> (r: Square)
    ensures
        r == square ^ 56,
        square < 64 ==> r < 64 && r / 8 == 7 - square / 8 && r % 8 == square % 8,
{
    proof {
        lemma_flips(square);
    }
    square ^ 56
}

/// Flipping the rank or the file bits of a square.
proof fn lemma_flips(square: u8)
    by (bit_vector)
    ensures
        square < 64 ==> (square ^ 56) < 64 && (square ^ 56) / 8 == 7 - square / 8 && (square ^ 56)
            % 8 == square % 8,
        square < 64 ==> (square ^ 7) < 64 && (square ^ 7) / 8 == square / 8 && (square ^ 7) % 8
            == 7 - square % 8,
{
}

/// The square mirrored left to right.
pub fn flip_h(square: Square) -> (r: Square)
    ensures
        r == square ^ 7,
        square < 64 ==> r < 64 && r / 8 == square / 8 && r % 8 == 7 - square % 8,
{
    proof {
        lemma_flips(square);
    }
    square ^ 7
}

/// The square index one step away in a direction (no check for the board's edge).
pub(crate) fn shift(square: Square, direction: Direction) -> (r: Square)
    requires
        9 <= square <= 246,
    ensures
        r == match direction {
            Direction::N => square + 8,
            Direction::S => square - 8,
            Direction::E => square + 1,
            Direction::W => square - 1,
            Direction::NE => square + 9,
            Direction::NW => square + 7,
            Direction::SE => square - 7,
            Direction::SW => square - 9,
        },
{
    match direction {
        Direction::N => square + 8,
        Direction::S => square - 8,
        Direction::E => square + 1,
        Direction::W => square - 1,
        Direction::NE => square + 9,
        Direction::NW => square + 7,
        Direction::SE => square - 7,
        Direction::SW => square - 9,
    }
}

/// The square two bytes name: a file letter `a`..`h` then a rank digit `1`..`8`.
pub open spec fn square_of_bytes(b: Seq<u8>) -> Option<Square> {
    if b.len() == 2 && 97 <= b[0] <= 104 && 49 <= b[1] <= 56 {
        Some(((b[1] - 49) * 8 + (b[0] - 97)) as u8)
    } else {
        None
    }
}

/// Reads a square's name; the string must be exactly two bytes long.
pub fn from_algebraic(string: &str) -> (r: Option<Square>)
    ensures
        r == square_of_bytes(string.spec_bytes()),
{
    let bytes = string.as_bytes();
    if bytes.len() == 2 {
        let file_name = bytes[0];
        let rank_name = bytes[1];
        if 97 <= file_name && file_name <= 104 && 49 <= rank_name && rank_name <= 56 {
            let file = file_name - 97;  // 'a'
            let rank = rank_name - 49;  // '1'
            return Some(new_sq(rank, file));
        }
    }
    None
}

const SQUARE_NAMES: [&'static str; 64] = [
    "a1",
    "b1",
    "c1",
    "d1",
    "e1",
    "f1",
    "g1",
    "h1",
    "a2",
    "b2",
    "c2",
    "d2",
    "e2",
    "f2",
    "g2",
    "h2",
    "a3",
    "b3",
    "c3",
    "d3",
    "e3",
    "f3",
    "g3",
    "h3",
    "a4",
    "b4",
    "c4",
    "d4",
    "e4",
    "f4",
    "g4",
    "h4",
    "a5",
    "b5",
    "c5",
    "d5",
    "e5",
    "f5",
    "g5",
    "h5",
    "a6",
    "b6",
    "c6",
    "d6",
    "e6",
    "f6",
    "g6",
    "h6",
    "a7",
    "b7",
    "c7",
    "d7",
    "e7",
    "f7",
    "g7",
    "h7",
    "a8",
    "b8",
    "c8",
    "d8",
    "e8",
    "f8",
    "g8",
    "h8",
];

/// The name of a square.
pub fn name(square: Square) -> (r: &'static str)
    requires
        square < 64,
    ensures
        r@ == square_name(square as int),
{
    proof {
        reveal_strlit("a1");
        reveal_strlit("b1");
        reveal_strlit("c1");
        reveal_strlit("d1");
        reveal_strlit("e1");
        reveal_strlit("f1");
        reveal_strlit("g1");
        reveal_strlit("h1");
        reveal_strlit("a2");
        reveal_strlit("b2");
        reveal_strlit("c2");
        reveal_strlit("d2");
        reveal_strlit("e2");
        reveal_strlit("f2");
        reveal_strlit("g2");
        reveal_strlit("h2");
        reveal_strlit("a3");
        reveal_strlit("b3");
        reveal_strlit("c3");
        reveal_strlit("d3");
        reveal_strlit("e3");
        reveal_strlit("f3");
        reveal_strlit("g3");
        reveal_strlit("h3");
        reveal_strlit("a4");
        reveal_strlit("b4");
        reveal_strlit("c4");
        reveal_strlit("d4");
        reveal_strlit("e4");
        reveal_strlit("f4");
        reveal_strlit("g4");
        reveal_strlit("h4");
        reveal_strlit("a5");
        reveal_strlit("b5");
        reveal_strlit("c5");
        reveal_strlit("d5");
        reveal_strlit("e5");
        reveal_strlit("f5");
        reveal_strlit("g5");
        reveal_strlit("h5");
        reveal_strlit("a6");
        reveal_strlit("b6");
        reveal_strlit("c6");
        reveal_strlit("d6");
        reveal_strlit("e6");
        reveal_strlit("f6");
        reveal_strlit("g6");
        reveal_strlit("h6");
        reveal_strlit("a7");
        reveal_strlit("b7");
        reveal_strlit("c7");
        reveal_strlit("d7");
        reveal_strlit("e7");
        reveal_strlit("f7");
        reveal_strlit("g7");
        reveal_strlit("h7");
        reveal_strlit("a8");
        reveal_strlit("b8");
        reveal_strlit("c8");
        reveal_strlit("d8");
        reveal_strlit("e8");
        reveal_strlit("f8");
        reveal_strlit("g8");
        reveal_strlit("h8");
    }
    SQUARE_NAMES[square as usize]
}

pub const A1: Square = 0;
pub const B1: Square = 1;
pub const C1: Square = 2;
pub const D1: Square = 3;
pub const E1: Square = 4;
pub const F1: Square = 5;
pub const G1: Square = 6;
pub const H1: Square = 7;
pub const A2: Square = 8;
pub const B2: Square = 9;
pub const C2: Square = 10;
pub const D2: Square = 11;
pub const E2: Square = 12;
pub const F2: Square = 13;
pub const G2: Square = 14;
pub const H2: Square = 15;
pub const A3: Square = 16;
pub const B3: Square = 17;
pub const C3: Square = 18;
pub const D3: Square = 19;
pub const E3: Square = 20;
pub const F3: Square = 21;
pub const G3: Square = 22;
pub const H3: Square = 23;
pub const A4: Square = 24;
pub const B4: Square = 25;
pub const C4: Square = 26;
pub const D4: Square = 27;
pub const E4: Square = 28;
pub const F4: Square = 29;
pub const G4: Square = 30;
pub const H4: Square = 31;
pub const A5: Square = 32;
pub const B5: Square = 33;
pub const C5: Square = 34;
pub const D5: Square = 35;
pub const E5: Square = 36;
pub const F5: Square = 37;
pub const G5: Square = 38;
pub const H5: Square = 39;
pub const A6: Square = 40;
pub const B6: Square = 41;
pub const C6: Square = 42;
pub const D6: Square = 43;
pub const E6: Square = 44;
pub const F6: Square = 45;
pub const G6: Square = 46;
pub const H6: Square = 47;
pub const A7: Square = 48;
pub const B7: Square = 49;
pub const C7: Square = 50;
pub const D7: Square = 51;
pub const E7: Square = 52;
pub const F7: Square = 53;
pub const G7: Square = 54;
pub const H7: Square = 55;
pub const A8: Square = 56;
pub const B8: Square = 57;
pub const C8: Square = 58;
pub const D8: Square = 59;
pub const E8: Square = 60;
pub const F8: Square = 61;
pub const G8: Square = 62;
pub const H8: Square = 63;

} // verus!
