use vstd::prelude::*;
use crate::board_state::bitboard as bbs;
use crate::board_state::bitboard::{bishop_hit, bit, king_hit, knight_hit, rook_hit};
use crate::move_generation::masks::{
    initialize_bishop_atkmask, initialize_rook_atkmask, king_attacks_from, knight_attacks_from,
};
use super::bitboard::Bitboard;
use super::types::{Piece, Square};

verus! {

// The attack sets are computed directly: each is what the precomputed lookup tables hold
// for its square (and, for sliders, its occupancy).

pub fn bishop_attacks(square: Square, occupancy: Bitboard) -> (r: Bitboard)
    requires
        square < 64,
    ensures
        forall|u: int| 0 <= u < 64 ==> bit(r, u) == bishop_hit(square as int, occupancy, u),
{
    dumb_attacks(square, occupancy, Piece::B)
}

pub fn rook_attacks(square: Square, occupancy: Bitboard) -> (r: Bitboard)
    requires
        square < 64,
    ensures
        forall|u: int| 0 <= u < 64 ==> bit(r, u) == rook_hit(square as int, occupancy, u),
{
    dumb_attacks(square, occupancy, Piece::R)
}

pub fn knight_attacks(square: Square) -> (r: Bitboard)
    requires
        square < 64,
    ensures
        forall|u: int| 0 <= u < 64 ==> bit(r, u) == knight_hit(square as int, u),
{
    knight_attacks_from(square)
}

pub fn king_attacks(square: Square) -> (r: Bitboard)
    requires
        square < 64,
    ensures
        forall|u: int| 0 <= u < 64 ==> bit(r, u) == king_hit(square as int, u),
{
    king_attacks_from(square)
}

/// The attacks of a rook or bishop, one ray step at a time.
fn dumb_attacks(square: Square, occupancy: Bitboard, piece: Piece) -> (r: Bitboard)
    requires
        square < 64,
        piece == Piece::R || piece == Piece::B,
    ensures
        piece == Piece::R ==> forall|u: int| 0 <= u < 64 ==> bit(r, u) == rook_hit(square as int, occupancy, u),
        piece == Piece::B ==> forall|u: int| 0 <= u < 64 ==> bit(r, u) == bishop_hit(square as int, occupancy, u),
{
    if piece == Piece::R {
        initialize_rook_atkmask(occupancy, square)
    } else {
        initialize_bishop_atkmask(occupancy, square)
    }
}

#[verifier::rlimit(100)]
pub proof fn lemma_between_bits(a: u64, b: u64, t: u64)
    requires
        a < 64,
        b < 64,
        t < 64,
    ensures
        ((bbs::between_bits(a, b) >> t) & 1 == 1) == bbs::between(a as int, b as int, t as int),
{
    assert(((bbs::between_bits(a, b) >> t) & 1 == 1) == bbs::between(a as int, b as int, t as int)) by (bit_vector)
        requires
            a < 64,
            b < 64,
            t < 64,
    ;
}

pub fn in_btwn_atks(square1: Square, square2: Square) -> (r: Bitboard)
    requires
        square1 < 64,
        square2 < 64,
    ensures
        forall|t: int| 0 <= t < 64 ==> bit(r, t) == bbs::between(square1 as int, square2 as int, t),
{
    in_between_rays(square1, square2)
}

/// The squares strictly between two squares on a shared line, by the branch-free
/// line-and-range computation (all arithmetic wraps).
pub(crate) fn in_between_rays(square1: Square, square2: Square) -> (r: Bitboard)
    requires
        square1 < 64,
        square2 < 64,
    ensures
        r == bbs::between_bits(square1 as u64, square2 as u64),
        forall|t: int| 0 <= t < 64 ==> bit(r, t) == bbs::between(square1 as int, square2 as int, t),
{
    let m1: u64 = 0xffff_ffff_ffff_ffff;
    let a2a7: u64 = 0x0001010101010100;
    let b2g7: u64 = 0x0040201008040200;
    let h1b7: u64 = 0x0002040810204080;
    let btwn = (m1 << square1) ^ (m1 << square2);
    let f8 = (square2 & 7).wrapping_sub(square1 & 7);
    let file = f8 as u64;
    let r8 = (square2 | 7).wrapping_sub(square1);
    let rank = (r8 >> 3) as u64;
    let x1 = (file & 7).wrapping_sub(1);
    let l1 = x1 & a2a7;
    let x2 = (rank & 7).wrapping_sub(1);
    assert(x2 >> 58 < 64) by (bit_vector);
    let l2 = l1.wrapping_add(2 * (x2 >> 58));
    let x3 = rank.wrapping_sub(file);
    let y3 = (x3 & 15).wrapping_sub(1);
    let l3 = l2.wrapping_add(y3 & b2g7);
    let x4 = rank.wrapping_add(file);
    let y4 = (x4 & 15).wrapping_sub(1);
    let l4 = l3.wrapping_add(y4 & h1b7);
    let low = btwn & 0u64.wrapping_sub(btwn);  // the lowest set bit of `btwn`
    let line = l4.wrapping_mul(low);
    let r = line & btwn;
    proof {
        let (a, b) = (square1 as u64, square2 as u64);
        let (a8, b8) = (square1, square2);
        assert(r == bbs::between_bits(a, b)) by (bit_vector)
            requires
                a == a8 as u64,
                b == b8 as u64,
                a8 < 64,
                b8 < 64,
                btwn == (0xffff_ffff_ffff_ffffu64 << a8) ^ (0xffff_ffff_ffff_ffffu64 << b8),
                f8 == (if (b8 & 7) >= (a8 & 7) { ((b8 & 7) - (a8 & 7)) as u8 } else { ((b8 & 7) - (a8 & 7) + 256) as u8 }),
                file == f8 as u64,
                r8 == (if (b8 | 7) >= a8 { ((b8 | 7) - a8) as u8 } else { ((b8 | 7) - a8 + 256) as u8 }),
                rank == (r8 >> 3) as u64,
                x1 == (if (file & 7) >= 1 { ((file & 7) - 1) as u64 } else { ((file & 7) - 1 + 0x1_0000_0000_0000_0000) as u64 }),
                l1 == x1 & 0x0001010101010100u64,
                x2 == (if (rank & 7) >= 1 { ((rank & 7) - 1) as u64 } else { ((rank & 7) - 1 + 0x1_0000_0000_0000_0000) as u64 }),
                l2 == (if l1 + 2 * (x2 >> 58) > 0xffff_ffff_ffff_ffff { (l1 + 2 * (x2 >> 58) - 0x1_0000_0000_0000_0000) as u64 } else { (l1 + 2 * (x2 >> 58)) as u64 }),
                x3 == (if rank >= file { (rank - file) as u64 } else { (rank - file + 0x1_0000_0000_0000_0000) as u64 }),
                y3 == (if (x3 & 15) >= 1 { ((x3 & 15) - 1) as u64 } else { ((x3 & 15) - 1 + 0x1_0000_0000_0000_0000) as u64 }),
                l3 == (if l2 + (y3 & 0x0040201008040200u64) > 0xffff_ffff_ffff_ffff { (l2 + (y3 & 0x0040201008040200u64) - 0x1_0000_0000_0000_0000) as u64 } else { (l2 + (y3 & 0x0040201008040200u64)) as u64 }),
                x4 == (if rank + file > 0xffff_ffff_ffff_ffff { (rank + file - 0x1_0000_0000_0000_0000) as u64 } else { (rank + file) as u64 }),
                y4 == (if (x4 & 15) >= 1 { ((x4 & 15) - 1) as u64 } else { ((x4 & 15) - 1 + 0x1_0000_0000_0000_0000) as u64 }),
                l4 == (if l3 + (y4 & 0x0002040810204080u64) > 0xffff_ffff_ffff_ffff { (l3 + (y4 & 0x0002040810204080u64) - 0x1_0000_0000_0000_0000) as u64 } else { (l3 + (y4 & 0x0002040810204080u64)) as u64 }),
                low == btwn & (if btwn == 0 { 0u64 } else { (0 - btwn + 0x1_0000_0000_0000_0000) as u64 }),
                line == ((l4 as nat * low as nat) % 0x1_0000_0000_0000_0000) as u64,
                r == line & btwn,
        ;
        assert forall|t: int| 0 <= t < 64 implies bit(r, t) == bbs::between(square1 as int, square2 as int, t) by {
            lemma_between_bits(a, b, t as u64);
        }
    }
    r
}

} // verus!
