use vstd::prelude::*;
use crate::board_state::bitboard as bbs;
use crate::board_state::bitboard::{bit, lemma_bit_ops, lemma_lowest, lemma_single, lowest, single, rotl};
use super::types::{color_index, square, Color, Square};

verus! {

pub type Bitboard = u64;

pub(crate) fn new_bb(square: Square) -> (r: Bitboard)
    requires
        square < 64,
    ensures
        r == single(square as int),
        forall|t: int| bit(r, t) == (t == square),
{
    proof {
        lemma_single(square as u64);
    }
    1 << square
}

/// The squares of a rank.
pub(super) fn rank_bb(number: u8) -> (r: Bitboard)
    requires
        number < 8,
    ensures
        r == 0xffu64 << (number * 8) as u64,
        forall|t: int| 0 <= t < 64 ==> bit(r, t) == (t / 8 == number),
{
    let r = 0xffu64 << (number * 8);
    proof {
        assert forall|t: int| 0 <= t < 64 implies bit(r, t) == (t / 8 == number) by {
            let (tu, n) = (t as u64, number as u64);
            assert(n < 8 && tu < 64 ==> (((0xffu64 << (n * 8)) >> tu) & 1 == 1 <==> tu / 8 == n))
                by (bit_vector);
        }
    }
    r
}

pub(super) fn rank_bb_of(square: Square) -> (r: Bitboard)
    requires
        square < 64,
    ensures
        forall|t: int| 0 <= t < 64 ==> bit(r, t) == (t / 8 == square / 8),
{
    rank_bb(square::rank_of(square))
}

pub(super) fn file_bb_of(square: Square) -> (r: Bitboard)
    requires
        square < 64,
    ensures
        r == 0x101010101010101u64 << (square % 8) as u64,
        forall|t: int| 0 <= t < 64 ==> bit(r, t) == (t % 8 == square % 8),
{
    let r = 0x101010101010101u64 << square::file_of(square);
    proof {
        assert forall|t: int| 0 <= t < 64 implies bit(r, t) == (t % 8 == square % 8) by {
            let (tu, f) = (t as u64, (square % 8) as u64);
            assert(f < 8 && tu < 64 ==> (((0x101010101010101u64 << f) >> tu) & 1 == 1 <==> tu % 8
                == f)) by (bit_vector);
        }
    }
    r
}

pub fn pop_bb(bitboard: &mut Bitboard) -> (r: Bitboard)
    requires
        *old(bitboard) != 0,
    ensures
        r == single(lowest(*old(bitboard))),
        *final(bitboard) == *old(bitboard) & ((*old(bitboard) - 1) as u64),
        forall|s: int| bit(*final(bitboard), s) == (bit(*old(bitboard), s) && s != lowest(*old(bitboard))),
{
    proof {
        lemma_lowest(*bitboard);
    }
    let val = *bitboard;
    *bitboard &= *bitboard - 1;
    proof {
        let nb = *bitboard;
        bbs::lemma_xor(nb, val, 0);
    }
    *bitboard ^ val
}

pub(super) fn popcount(bitboard: Bitboard) -> (r: u8)
    ensures
        r == bbs::count(bitboard),
{
    bbs::count_ones(bitboard) as u8
}

pub(super) fn lsb(bitboard: Bitboard) -> (r: Square)
    requires
        bitboard != 0,
    ensures
        r == lowest(bitboard),
        r < 64,
        bit(bitboard, r as int),
{
    proof {
        lemma_lowest(bitboard);
    }
    bitboard.trailing_zeros() as Square
}

pub fn pop_lsb(bitboard: &mut Bitboard) -> (r: Square)
    requires
        *old(bitboard) != 0,
    ensures
        r == lowest(*old(bitboard)),
        r < 64,
        bit(*old(bitboard), r as int),
        *final(bitboard) == *old(bitboard) & ((*old(bitboard) - 1) as u64),
        forall|s: int| bit(*final(bitboard), s) == (bit(*old(bitboard), s) && s != r),
{
    proof {
        lemma_lowest(*bitboard);
    }
    let lsb = lsb(*bitboard);
    *bitboard &= *bitboard - 1;
    lsb
}

pub(super) fn is_set(bitboard: Bitboard, square: Square) -> (r: bool)
    requires
        square < 64,
    ensures
        r == bit(bitboard, square as int),
{
    proof {
        bbs::lemma_bitv_exec(bitboard, square as u64);
    }
    (bitboard >> square) & 1 != 0
}

pub(super) fn set_bit(bitboard: &mut Bitboard, square: Square)
    requires
        square < 64,
    ensures
        *final(bitboard) == *old(bitboard) | single(square as int),
        forall|t: int| bit(*final(bitboard), t) == (bit(*old(bitboard), t) || t == square),
{
    proof {
        lemma_single(square as u64);
        assert forall|t: int| bit(*old(bitboard) | single(square as int), t) == (bit(*old(bitboard), t) || t == square) by {
            lemma_bit_ops(*old(bitboard), single(square as int), t);
        }
    }
    *bitboard |= new_bb(square)
}

pub(super) fn clear_bit(bitboard: &mut Bitboard, square: Square)
    requires
        square < 64,
    ensures
        *final(bitboard) == *old(bitboard) & !single(square as int),
        forall|t: int| bit(*final(bitboard), t) == (bit(*old(bitboard), t) && t != square),
{
    proof {
        lemma_single(square as u64);
        assert forall|t: int| bit(*old(bitboard) & !single(square as int), t) == (bit(*old(bitboard), t) && t != square) by {
            lemma_bit_ops(*old(bitboard), !single(square as int), t);
            lemma_bit_ops(single(square as int), 0, t);
        }
    }
    *bitboard &= !new_bb(square)
}

/// A left shift for integer amounts, shifting right when the amount is negative.
pub open spec fn shl_spec(value: u64, shift_amount: i32) -> u64 {
    if shift_amount >= 0 {
        value << (shift_amount as u64)
    } else {
        value >> ((-shift_amount) as u64)
    }
}

fn shl(value: Bitboard, shift_amount: i32) -> (r: Bitboard)
    requires
        -64 < shift_amount < 64,
    ensures
        r == shl_spec(value, shift_amount),
{
    if shift_amount >= 0 {
        value << (shift_amount as u32)
    } else {
        value >> (-shift_amount as u32)
    }
}

/// The diagonal (a1-h8 direction) through a square.
pub(crate) fn diagonal_bb(square: Square) -> (r: Bitboard)
    requires
        square < 64,
    ensures
        r == shl_spec(0x8040201008040201u64, (((square / 8) as int - (square % 8) as int) * 8) as i32),
{
    let main_diagonal: Bitboard = 0x8040201008040201;
    let distance = (square::rank_of(square) as i32) - (square::file_of(square) as i32);
    shl(main_diagonal, distance * 8)
}

/// The anti-diagonal (h1-a8 direction) through a square.
pub(crate) fn antidiagonal_bb(square: Square) -> (r: Bitboard)
    requires
        square < 64,
    ensures
        r == shl_spec(0x102040810204080u64, (((square / 8) as int + (square % 8) as int - 7) * 8) as i32),
{
    let main_diagonal: Bitboard = 0x102040810204080;
    let distance = (square::rank_of(square) as i32) + (square::file_of(square) as i32) - 7;
    shl(main_diagonal, distance * 8)
}

#[derive(Clone, Copy)]
pub enum Direction {
    N,
    S,
    E,
    W,
    NE,
    NW,
    SE,
    SW,
}

/// The same direction in the other bitboard module's naming.
pub open spec fn as_dir(d: Direction) -> bbs::Direction {
    match d {
        Direction::N => bbs::Direction::N,
        Direction::S => bbs::Direction::S,
        Direction::E => bbs::Direction::E,
        Direction::W => bbs::Direction::W,
        Direction::NE => bbs::Direction::NE,
        Direction::NW => bbs::Direction::NW,
        Direction::SE => bbs::Direction::SE,
        Direction::SW => bbs::Direction::SW,
    }
}

pub(crate) fn shift(bitboard: Bitboard, direction: Direction) -> (r: Bitboard)
    ensures
        r == bbs::shifted(bitboard, as_dir(direction)),
        forall|t: int|
            0 <= t < 64 ==> (bit(r, t) == (bbs::step(
                t,
                -bbs::delta(as_dir(direction)).0,
                -bbs::delta(as_dir(direction)).1,
            ) >= 0 && bit(
                bitboard,
                bbs::step(t, -bbs::delta(as_dir(direction)).0, -bbs::delta(as_dir(direction)).1),
            ))),
{
    let a_file: Bitboard = 0x101010101010101;
    let h_file: Bitboard = 0x8080808080808080;
    let r = match direction {
        Direction::N => bitboard << 8,
        Direction::S => bitboard >> 8,
        Direction::E => (bitboard << 1) & !a_file,
        Direction::W => (bitboard >> 1) & !h_file,
        Direction::NE => (bitboard << 9) & !a_file,
        Direction::NW => (bitboard << 7) & !h_file,
        Direction::SE => (bitboard >> 7) & !a_file,
        Direction::SW => (bitboard >> 9) & !h_file,
    };
    proof {
        assert(!0x101010101010101u64 == bbs::NOT_A && !0x8080808080808080u64 == bbs::NOT_H)
            by (bit_vector);
        assert forall|t: int|
            0 <= t < 64 implies (bit(r, t) == (bbs::step(
            t,
            -bbs::delta(as_dir(direction)).0,
            -bbs::delta(as_dir(direction)).1,
        ) >= 0 && bit(
            bitboard,
            bbs::step(t, -bbs::delta(as_dir(direction)).0, -bbs::delta(as_dir(direction)).1),
        ))) by {
            bbs::lemma_shifted_bit(bitboard, as_dir(direction), t as u64);
        }
    }
    r
}

/// One rank towards the far side of `color` (up for white, down for black), wrapping.
pub(crate) fn forward(bitboard: Bitboard, color: Color) -> (r: Bitboard)
    ensures
        r == match color {
            Color::W => rotl(bitboard, 8),
            Color::B => rotl(bitboard, 56),
        },
{
    let rotate_offset: [i8; 2] = [8, -8];
    let rotate_by = (64 + rotate_offset[color.index()]) as u32;
    bbs::rotate_left(bitboard, rotate_by)
}

} // verus!
