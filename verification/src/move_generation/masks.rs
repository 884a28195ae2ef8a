use vstd::prelude::*;
use crate::board_state::bitboard::{
    bishop_hit, bit, king_hit, knight_hit, lemma_bit_ops, lemma_knight_pair, lemma_single,
    lemma_single_shift, pawn_hit, rook_hit, shifted, single, slide, step, Bitboard, Direction, BB,
};
use crate::board_state::typedefs::Square;

verus! {

/// The squares a king on `square` attacks.
pub fn king_attacks_from(square: Square) -> (r: Bitboard)
    requires
        square < 64,
    ensures
        forall|t: int| 0 <= t < 64 ==> bit(r, t) == king_hit(square as int, t),
{
    let bb = <Bitboard as BB>::new(square);
    let r = bb.shift(Direction::N) | bb.shift(Direction::E) | bb.shift(Direction::S) | bb.shift(
        Direction::W,
    ) | bb.shift(Direction::NE) | bb.shift(Direction::SE) | bb.shift(Direction::NW) | bb.shift(
        Direction::SW,
    );
    proof {
        let s = square as int;
        assert forall|t: int| 0 <= t < 64 implies bit(r, t) == king_hit(s, t) by {
            let (n, e, so, w, ne, se, nw, sw) = (
                shifted(bb, Direction::N),
                shifted(bb, Direction::E),
                shifted(bb, Direction::S),
                shifted(bb, Direction::W),
                shifted(bb, Direction::NE),
                shifted(bb, Direction::SE),
                shifted(bb, Direction::NW),
                shifted(bb, Direction::SW),
            );
            lemma_single_shift(s, Direction::N, t);
            lemma_single_shift(s, Direction::E, t);
            lemma_single_shift(s, Direction::S, t);
            lemma_single_shift(s, Direction::W, t);
            lemma_single_shift(s, Direction::NE, t);
            lemma_single_shift(s, Direction::SE, t);
            lemma_single_shift(s, Direction::NW, t);
            lemma_single_shift(s, Direction::SW, t);
            lemma_bit_ops(n | e | so | w | ne | se | nw, sw, t);
            lemma_bit_ops(n | e | so | w | ne | se, nw, t);
            lemma_bit_ops(n | e | so | w | ne, se, t);
            lemma_bit_ops(n | e | so | w, ne, t);
            lemma_bit_ops(n | e | so, w, t);
            lemma_bit_ops(n | e, so, t);
            lemma_bit_ops(n, e, t);
        }
    }
    r
}

/// The squares a knight on `square` attacks.
#[verifier::rlimit(50)]
pub fn knight_attacks_from(square: Square) -> (r: Bitboard)
    requires
        square < 64,
    ensures
        forall|t: int| 0 <= t < 64 ==> bit(r, t) == knight_hit(square as int, t),
{
    let bb = <Bitboard as BB>::new(square);
    let a = bb.shift(Direction::N).shift(Direction::NE);
    let b = bb.shift(Direction::N).shift(Direction::NW);
    let c = bb.shift(Direction::S).shift(Direction::SW);
    let d = bb.shift(Direction::S).shift(Direction::SE);
    let e = bb.shift(Direction::E).shift(Direction::NE);
    let f = bb.shift(Direction::E).shift(Direction::SE);
    let g = bb.shift(Direction::W).shift(Direction::NW);
    let h = bb.shift(Direction::W).shift(Direction::SW);
    let r = a | b | c | d | e | f | g | h;
    proof {
        let s = square as int;
        assert forall|t: int| 0 <= t < 64 implies bit(r, t) == knight_hit(s, t) by {
            lemma_knight_pair(s, Direction::N, Direction::NE, t);
            lemma_knight_pair(s, Direction::N, Direction::NW, t);
            lemma_knight_pair(s, Direction::S, Direction::SW, t);
            lemma_knight_pair(s, Direction::S, Direction::SE, t);
            lemma_knight_pair(s, Direction::E, Direction::NE, t);
            lemma_knight_pair(s, Direction::E, Direction::SE, t);
            lemma_knight_pair(s, Direction::W, Direction::NW, t);
            lemma_knight_pair(s, Direction::W, Direction::SW, t);
            lemma_bit_ops(a | b | c | d | e | f | g, h, t);
            lemma_bit_ops(a | b | c | d | e | f, g, t);
            lemma_bit_ops(a | b | c | d | e, f, t);
            lemma_bit_ops(a | b | c | d, e, t);
            lemma_bit_ops(a | b | c, d, t);
            lemma_bit_ops(a | b, c, t);
            lemma_bit_ops(a, b, t);
        }
    }
    r
}

/// Precalculated king attacks, one bitboard per square.
pub fn initialize_king_attacks() -> (r: [Bitboard; 64])
    ensures
        forall|s: int, t: int| 0 <= s < 64 && 0 <= t < 64 ==> #[trigger] bit(r[s], t) == king_hit(s, t),
{
    let mut arr: [Bitboard; 64] = [0; 64];
    for square in 0..64usize
        invariant
            forall|s: int, t: int| 0 <= s < square && 0 <= t < 64 ==> #[trigger] bit(arr[s], t) == king_hit(s, t),
    {
        arr[square] = king_attacks_from(square as u8);
    }
    arr
}

/// Precalculated knight attacks, one bitboard per square.
pub fn initialize_knight_attacks() -> (r: [Bitboard; 64])
    ensures
        forall|s: int, t: int| 0 <= s < 64 && 0 <= t < 64 ==> #[trigger] bit(r[s], t) == knight_hit(s, t),
{
    let mut arr: [Bitboard; 64] = [0; 64];
    for square in 0..64usize
        invariant
            forall|s: int, t: int| 0 <= s < square && 0 <= t < 64 ==> #[trigger] bit(arr[s], t) == knight_hit(s, t),
    {
        arr[square] = knight_attacks_from(square as u8);
    }
    arr
}

/// The squares a pawn of a color on `square` captures on.
pub fn pawn_attacks_from(square: Square, black: bool) -> (r: Bitboard)
    requires
        square < 64,
    ensures
        forall|t: int| 0 <= t < 64 ==> bit(r, t) == pawn_hit(black, square as int, t),
{
    let bb = <Bitboard as BB>::new(square);
    let (a, b) = if black {
        (bb.shift(Direction::SW), bb.shift(Direction::SE))
    } else {
        (bb.shift(Direction::NW), bb.shift(Direction::NE))
    };
    proof {
        let s = square as int;
        assert forall|t: int| 0 <= t < 64 implies bit(a | b, t) == pawn_hit(black, s, t) by {
            lemma_single_shift(s, Direction::SW, t);
            lemma_single_shift(s, Direction::SE, t);
            lemma_single_shift(s, Direction::NW, t);
            lemma_single_shift(s, Direction::NE, t);
            lemma_bit_ops(a, b, t);
        }
    }
    a | b
}

/// Precalculated pawn captures: white's table, then black's.
pub fn initialize_pawn_attacks() -> (r: [[Bitboard; 64]; 2])
    ensures
        forall|s: int, t: int| 0 <= s < 64 && 0 <= t < 64 ==> #[trigger] bit(r[0][s], t) == pawn_hit(false, s, t),
        forall|s: int, t: int| 0 <= s < 64 && 0 <= t < 64 ==> #[trigger] bit(r[1][s], t) == pawn_hit(true, s, t),
{
    let mut white: [Bitboard; 64] = [0; 64];
    let mut black: [Bitboard; 64] = [0; 64];
    for square in 0..64usize
        invariant
            forall|s: int, t: int| 0 <= s < square && 0 <= t < 64 ==> #[trigger] bit(white[s], t) == pawn_hit(false, s, t),
            forall|s: int, t: int| 0 <= s < square && 0 <= t < 64 ==> #[trigger] bit(black[s], t) == pawn_hit(true, s, t),
    {
        white[square] = pawn_attacks_from(square as u8, false);
        black[square] = pawn_attacks_from(square as u8, true);
    }
    [white, black]
}

/// The four edge squares of a square's rank and file, which never block a rook's view of
/// anything beyond them.
#[inline]
pub(crate) fn rook_endpoints(square: Square) -> (r: Bitboard)
    requires
        square < 64,
    ensures
        r == single((square % 8) as int) | single((square % 8 + 56) as int) | single(
            (square / 8 * 8) as int,
        ) | single((square / 8 * 8 + 7) as int),
{
    let x_val = square & 7;
    let y_val = square >> 3;
    proof {
        assert(square & 7 == square % 8 && square >> 3 == square / 8) by (bit_vector);
    }
    <Bitboard as BB>::new(x_val) | <Bitboard as BB>::new(x_val + 56) | <Bitboard as BB>::new(y_val * 8)
        | <Bitboard as BB>::new((y_val + 1) * 8 - 1)
}

/// The squares a rook on `square` attacks through `occupancy`.
#[inline]
pub(crate) fn initialize_rook_atkmask(occupancy: Bitboard, square: Square) -> (r: Bitboard)
    requires
        square < 64,
    ensures
        forall|u: int| 0 <= u < 64 ==> bit(r, u) == rook_hit(square as int, occupancy, u),
{
    slide(square, occupancy, Direction::N, Direction::E, Direction::S, Direction::W)
}

/// The squares a bishop on `square` attacks through `occupancy`.
#[inline]
pub(crate) fn initialize_bishop_atkmask(occupancy: Bitboard, square: Square) -> (r: Bitboard)
    requires
        square < 64,
    ensures
        forall|u: int| 0 <= u < 64 ==> bit(r, u) == bishop_hit(square as int, occupancy, u),
{
    slide(square, occupancy, Direction::NE, Direction::NW, Direction::SE, Direction::SW)
}

} // verus!
