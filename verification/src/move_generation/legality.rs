use vstd::prelude::*;
use crate::board_state::bitboard::{
    between, bishop_hit, bit, delta, in_ray, lemma_bit_ops, lemma_single, ray_clear, ray_hit, ray_k, ray_on,
    ray_sq, rook_hit, single, Direction,
};
use crate::board_state::bitboard::{king_hit, knight_hit, lowest, pawn_hit, rotl, shifted, step, lemma_shifted_bit};
use crate::board_state::board::Board;
use crate::movegen::atks::lemma_between_bits;
use crate::board_state::bitboard::{lemma_lowest, count, lemma_bb_sum_bounds, lemma_bb_sum_remove, lemma_bits_ext};
use super::action::{from_of, piece_of, to_of, type_of, Move, CASTLE, NORMAL, PASSANT, PROMOTION};
use super::makemove::{rook_from, rook_to};
use super::movegen::{bishop_set, knight_set, lemma_pawn_hit_back, pawn_set, rook_set};
use crate::board_state::typedefs::{Color, BISHOP, KING, KNIGHT, PAWN, ROOK};
use super::movegen::{bits_of, holds_bits, king_set, kind_set, lemma_forward_bit, union_of};

verus! {

/// The direction pointing the other way.
pub open spec fn opposite(d: Direction) -> Direction {
    match d {
        Direction::N => Direction::S,
        Direction::E => Direction::W,
        Direction::S => Direction::N,
        Direction::W => Direction::E,
        Direction::NE => Direction::SW,
        Direction::SE => Direction::NW,
        Direction::NW => Direction::SE,
        Direction::SW => Direction::NE,
    }
}

/// The squares a ray passes before reaching `e` lie strictly between its start and `e`.
pub proof fn lemma_ray_between(t: int, d: Direction, e: int, j: int)
    requires
        0 <= t < 64,
        1 <= j < ray_k(t, d, e),
        ray_k(t, d, e) <= 7,
        ray_on(t, d, ray_k(t, d, e)),
        ray_sq(t, d, ray_k(t, d, e)) == e,
    ensures
        between(t, e, ray_sq(t, d, j)),
{
    let k = ray_k(t, d, e);
    let (dr, df) = delta(d);
    let (r, f) = (t / 8, t % 8);
    assert(0 <= r + j * dr < 8 && 0 <= f + j * df < 8) by (nonlinear_arith)
        requires
            0 <= r < 8,
            0 <= f < 8,
            0 <= r + k * dr < 8,
            0 <= f + k * df < 8,
            -1 <= dr <= 1,
            -1 <= df <= 1,
            1 <= j < k,
    ;
    let y = ray_sq(t, d, j);
    let (ry, fy) = (r + j * dr, f + j * df);
    let (re, fe) = (r + k * dr, f + k * df);
    assert(y == ry * 8 + fy && e == re * 8 + fe);
    assert(y / 8 == ry && y % 8 == fy) by {
        assert(0 <= fy < 8 && 0 <= ry < 8);
    }
    assert(e / 8 == re && e % 8 == fe) by {
        assert(0 <= fe < 8 && 0 <= re < 8);
    }
    assert(ry - r == j * dr && fy - f == j * df && re - r == k * dr && fe - f == k * df);
    match d {
        Direction::N => {
            assert(j * dr == j && k * dr == k && j * df == 0 && k * df == 0);
        },
        Direction::S => {
            assert(j * dr == -j && k * dr == -k && j * df == 0 && k * df == 0);
        },
        Direction::E => {
            assert(j * dr == 0 && k * dr == 0 && j * df == j && k * df == k);
        },
        Direction::W => {
            assert(j * dr == 0 && k * dr == 0 && j * df == -j && k * df == -k);
        },
        Direction::NE => {
            assert(j * dr == j && k * dr == k && j * df == j && k * df == k);
        },
        Direction::NW => {
            assert(j * dr == j && k * dr == k && j * df == -j && k * df == -k);
        },
        Direction::SE => {
            assert(j * dr == -j && k * dr == -k && j * df == j && k * df == k);
        },
        Direction::SW => {
            assert(j * dr == -j && k * dr == -k && j * df == -j && k * df == -k);
        },
    }
}

/// A ray from `t` reaching `e` runs back from `e` to `t` through any occupancy with no
/// more pieces strictly between them.
pub proof fn lemma_ray_reverse_between(t: int, d: Direction, occ: u64, e: int, occ2: u64)
    requires
        0 <= t < 64,
        0 <= e < 64,
        ray_hit(t, d, occ, e),
        forall|y: int| #[trigger] between(t, e, y) && bit(occ2, y) ==> bit(occ, y),
    ensures
        ray_hit(e, opposite(d), occ2, t),
{
    let k = ray_k(t, d, e);
    let o = opposite(d);
    let (dr, df) = delta(d);
    assert(delta(o) == (-dr, -df));
    assert(e / 8 == t / 8 + k * dr && e % 8 == t % 8 + k * df) by {
        assert(ray_sq(t, d, k) == e);
    }
    assert forall|j: int| 0 <= j <= k implies #[trigger] ray_sq(e, o, j) == ray_sq(t, d, k - j) && (ray_on(e, o, j) == ray_on(t, d, k - j)) by {
        assert(j * (-dr) + k * dr == (k - j) * dr) by (nonlinear_arith);
        assert(j * (-df) + k * df == (k - j) * df) by (nonlinear_arith);
    }
    assert(ray_sq(e, o, k) == t);
    assert(ray_k(e, o, t) == k) by {
        assert(t / 8 == e / 8 - k * dr && t % 8 == e % 8 - k * df);
        if dr != 0 {
            assert((t / 8 - e / 8) * (-dr) == k * dr * dr) by (nonlinear_arith)
                requires t / 8 - e / 8 == -(k * dr);
            assert(dr * dr == 1) by (nonlinear_arith) requires dr == 1 || dr == -1;
            assert(k * dr * dr == k) by (nonlinear_arith) requires dr * dr == 1;
        } else {
            assert(df != 0);
            assert((t % 8 - e % 8) * (-df) == k * df * df) by (nonlinear_arith)
                requires t % 8 - e % 8 == -(k * df);
            assert(df * df == 1) by (nonlinear_arith) requires df == 1 || df == -1;
            assert(k * df * df == k) by (nonlinear_arith) requires df * df == 1;
        }
    }
    assert forall|j: int| 1 <= j <= k - 1 implies !bit(occ2, #[trigger] ray_sq(e, o, j)) by {
        assert(ray_sq(e, o, j) == ray_sq(t, d, k - j));
        assert(1 <= k - j <= k - 1);
        assert(!bit(occ, ray_sq(t, d, k - j)));
        lemma_ray_between(t, d, e, k - j);
    }
}

/// A bishop's or rook's attack from `t` on `e` is one from `e` on `t` through any
/// occupancy with no more pieces strictly between them.
pub proof fn lemma_slider_reverse_between(t: int, occ: u64, e: int, occ2: u64)
    requires
        0 <= t < 64,
        0 <= e < 64,
        forall|y: int| #[trigger] between(t, e, y) && bit(occ2, y) ==> bit(occ, y),
    ensures
        bishop_hit(t, occ, e) ==> bishop_hit(e, occ2, t),
        rook_hit(t, occ, e) ==> rook_hit(e, occ2, t),
{
    if ray_hit(t, Direction::NE, occ, e) {
        lemma_ray_reverse_between(t, Direction::NE, occ, e, occ2);
    }
    if ray_hit(t, Direction::NW, occ, e) {
        lemma_ray_reverse_between(t, Direction::NW, occ, e, occ2);
    }
    if ray_hit(t, Direction::SE, occ, e) {
        lemma_ray_reverse_between(t, Direction::SE, occ, e, occ2);
    }
    if ray_hit(t, Direction::SW, occ, e) {
        lemma_ray_reverse_between(t, Direction::SW, occ, e, occ2);
    }
    if ray_hit(t, Direction::N, occ, e) {
        lemma_ray_reverse_between(t, Direction::N, occ, e, occ2);
    }
    if ray_hit(t, Direction::S, occ, e) {
        lemma_ray_reverse_between(t, Direction::S, occ, e, occ2);
    }
    if ray_hit(t, Direction::E, occ, e) {
        lemma_ray_reverse_between(t, Direction::E, occ, e, occ2);
    }
    if ray_hit(t, Direction::W, occ, e) {
        lemma_ray_reverse_between(t, Direction::W, occ, e, occ2);
    }
}

/// The bitboard of the squares below `n` where `f` holds.
pub open spec fn bits_below(f: spec_fn(int) -> bool, n: int) -> u64
    decreases n,
{
    if n <= 0 {
        0
    } else {
        bits_below(f, n - 1) | (if f(n - 1) { single(n - 1) } else { 0u64 })
    }
}

proof fn lemma_bits_below(f: spec_fn(int) -> bool, n: int)
    requires
        0 <= n <= 64,
    ensures
        forall|t: int| 0 <= t < 64 ==> #[trigger] bit(bits_below(f, n), t) == (t < n && f(t)),
    decreases n,
{
    if n > 0 {
        lemma_bits_below(f, n - 1);
        lemma_single((n - 1) as u64);
        let prev = bits_below(f, n - 1);
        let add = if f(n - 1) { single(n - 1) } else { 0u64 };
        assert forall|t: int| 0 <= t < 64 implies #[trigger] bit(bits_below(f, n), t) == (t < n && f(t)) by {
            lemma_bit_ops(prev, add, t);
            lemma_bit_ops(0, 0, t);
        }
    } else {
        assert forall|t: int| 0 <= t < 64 implies #[trigger] bit(bits_below(f, n), t) == (t < n && f(t)) by {
            lemma_bit_ops(0, 0, t);
        }
    }
}

/// Every property of squares has a bitboard: `bits_of` holds exactly its squares.
pub proof fn lemma_bits_of_holds(f: spec_fn(int) -> bool)
    ensures
        forall|t: int| 0 <= t < 64 ==> #[trigger] bit(bits_of(f), t) == f(t),
{
    lemma_bits_below(f, 64);
    assert(holds_bits(bits_below(f, 64), f));
    assert(holds_bits(bits_of(f), f));
}

/// Each piece of color `c` attacks, by its way of attacking (sliders seeing `occ`), only
/// squares of `attack_mask(c, occ)`.
#[verifier::spinoff_prover]
#[verifier::rlimit(60)]
pub proof fn lemma_attack_mask_covers(b: Board, c: Color, occ: u64, e: int, t: int)
    requires
        0 <= e < 64,
        0 <= t < 64,
    ensures
        bit(b.of(KNIGHT as int, c), e) && knight_hit(e, t) ==> bit(b.attack_mask(c, occ), t),
        bit(b.diagonals(c), e) && bishop_hit(e, occ, t) ==> bit(b.attack_mask(c, occ), t),
        bit(b.orthogonals(c), e) && rook_hit(e, occ, t) ==> bit(b.attack_mask(c, occ), t),
        e == lowest(b.of(KING as int, c)) && king_hit(e, t) ==> bit(b.attack_mask(c, occ), t),
        bit(b.of(PAWN as int, c), e) && pawn_hit(c, e, t) ==> bit(b.attack_mask(c, occ), t),
{
    let pawns = b.of(PAWN as int, c);
    let fwd = if c { rotl(pawns, 56) } else { rotl(pawns, 8) };
    let pe = shifted(fwd, Direction::E);
    let pw = shifted(fwd, Direction::W);
    let un = union_of(b.of(KNIGHT as int, c), kind_set(KNIGHT, occ));
    let ub = union_of(b.diagonals(c), kind_set(BISHOP, occ));
    let ur = union_of(b.orthogonals(c), kind_set(ROOK, occ));
    let ks = king_set(lowest(b.of(KING as int, c)));
    assert(b.attack_mask(c, occ) == ((((pe | pw) | un) | ub) | ur) | ks);
    lemma_bit_ops(pe, pw, t);
    lemma_bit_ops(pe | pw, un, t);
    lemma_bit_ops((pe | pw) | un, ub, t);
    lemma_bit_ops(((pe | pw) | un) | ub, ur, t);
    lemma_bit_ops((((pe | pw) | un) | ub) | ur, ks, t);
    let fk = kind_set(KNIGHT, occ);
    let fb = kind_set(BISHOP, occ);
    let fr = kind_set(ROOK, occ);
    if bit(b.of(KNIGHT as int, c), e) && knight_hit(e, t) {
        lemma_bits_of_holds(|u: int| knight_hit(e, u));
        assert(bit(fk(e), t));
        lemma_bits_of_holds(|u: int| exists|s: int| 0 <= s < 64 && bit(b.of(KNIGHT as int, c), s) && #[trigger] bit(fk(s), u));
    }
    if bit(b.diagonals(c), e) && bishop_hit(e, occ, t) {
        lemma_bits_of_holds(|u: int| bishop_hit(e, occ, u));
        assert(bit(fb(e), t));
        lemma_bits_of_holds(|u: int| exists|s: int| 0 <= s < 64 && bit(b.diagonals(c), s) && #[trigger] bit(fb(s), u));
    }
    if bit(b.orthogonals(c), e) && rook_hit(e, occ, t) {
        lemma_bits_of_holds(|u: int| rook_hit(e, occ, u));
        assert(bit(fr(e), t));
        lemma_bits_of_holds(|u: int| exists|s: int| 0 <= s < 64 && bit(b.orthogonals(c), s) && #[trigger] bit(fr(s), u));
    }
    if e == lowest(b.of(KING as int, c)) && king_hit(e, t) {
        lemma_bits_of_holds(|u: int| king_hit(e, u));
    }
    if bit(pawns, e) && pawn_hit(c, e, t) {
        lemma_shifted_bit(fwd, Direction::E, t as u64);
        lemma_shifted_bit(fwd, Direction::W, t as u64);
        if step(e, if c { -1int } else { 1int }, 1) == t {
            let x = step(t as int, 0, -1);
            assert(0 <= x < 64);
            lemma_forward_bit(pawns, x);
            assert(bit(fwd, x));
        } else {
            let x = step(t as int, 0, 1);
            assert(0 <= x < 64);
            lemma_forward_bit(pawns, x);
            assert(bit(fwd, x));
        }
    }
}

/// Color `c` has exactly one king on `b`.
pub open spec fn one_king(b: Board, c: Color) -> bool {
    &&& b.of(KING as int, c) != 0
    &&& forall|x: int| 0 <= x < 64 && #[trigger] bit(b.of(KING as int, c), x) ==> x == lowest(b.of(KING as int, c))
}

/// The enemy pieces of `nb` stand as they did in `b`, and none of the squares strictly
/// between `t` and one of them is empty in `nb` but occupied in `blind`.
pub open spec fn no_new_lines(b: Board, nb: Board, t: int, en: Color, blind: u64) -> bool {
    &&& forall|x: int| 0 <= x < 64 && #[trigger] bit(nb.cbb(en), x) ==> nb.same_at(&b, x)
    &&& forall|x: int, y: int| 0 <= x < 64 && bit(nb.cbb(en), x) && #[trigger] between(t, x, y) && bit(blind, y) ==> bit(nb.occ(), y)
}

/// No enemy piece of `nb` on square `x` attacks `t`, when `t` is outside the squares the
/// enemy of `b` attacks with its sliders seeing `blind`, and `nb` opens no new lines to `t`.
#[verifier::spinoff_prover]
#[verifier::rlimit(100)]
proof fn lemma_no_attacker_at(b: Board, en: Color, blind: u64, nb: Board, t: int, x: int)
    requires
        b.wf(),
        nb.wf(),
        one_king(b, en),
        0 <= t < 64,
        0 <= x < 64,
        !bit(b.attack_mask(en, blind), t),
        no_new_lines(b, nb, t, en, blind),
    ensures
        !bit(nb.attackers(t, en), x),
{
    let occ = nb.occ();
    let a = nb.attackers(t, en);
    lemma_bits_of_holds(|u: int| king_hit(t, u));
    lemma_bits_of_holds(|u: int| pawn_hit(!en, t, u));
    lemma_bits_of_holds(|u: int| knight_hit(t, u));
    lemma_bits_of_holds(|u: int| rook_hit(t, occ, u));
    lemma_bits_of_holds(|u: int| bishop_hit(t, occ, u));
    if bit(a, x) {
        let kk = nb.of(KING as int, en) & king_set(t);
        let pp = nb.of(PAWN as int, en) & pawn_set(!en, t);
        let nn = nb.of(KNIGHT as int, en) & knight_set(t);
        let oo = nb.orthogonals(en) & rook_set(t, occ);
        let dd = nb.diagonals(en) & bishop_set(t, occ);
        assert(a == (((kk | pp) | nn) | oo) | dd);
        lemma_bit_ops(((kk | pp) | nn) | oo, dd, x);
        lemma_bit_ops((kk | pp) | nn, oo, x);
        lemma_bit_ops(kk | pp, nn, x);
        lemma_bit_ops(kk, pp, x);
        lemma_bit_ops(nb.of(KING as int, en), king_set(t), x);
        lemma_bit_ops(nb.of(PAWN as int, en), pawn_set(!en, t), x);
        lemma_bit_ops(nb.of(KNIGHT as int, en), knight_set(t), x);
        lemma_bit_ops(nb.orthogonals(en), rook_set(t, occ), x);
        lemma_bit_ops(nb.diagonals(en), bishop_set(t, occ), x);
        lemma_bit_ops(nb.pbb(6), nb.cbb(en), x);
        lemma_bit_ops(nb.pbb(1), nb.cbb(en), x);
        lemma_bit_ops(nb.pbb(2), nb.cbb(en), x);
        lemma_bit_ops(nb.pbb(5) | nb.pbb(4), nb.cbb(en), x);
        lemma_bit_ops(nb.pbb(5) | nb.pbb(3), nb.cbb(en), x);
        lemma_bit_ops(nb.pbb(5), nb.pbb(4), x);
        lemma_bit_ops(nb.pbb(5), nb.pbb(3), x);
        // the attacker stands where it stood in `b`
        assert(bit(nb.cbb(en), x));
        assert(nb.same_at(&b, x));
        lemma_bit_ops(b.pbb(6), b.cbb(en), x);
        lemma_bit_ops(b.pbb(1), b.cbb(en), x);
        lemma_bit_ops(b.pbb(2), b.cbb(en), x);
        lemma_bit_ops(b.pbb(5) | b.pbb(4), b.cbb(en), x);
        lemma_bit_ops(b.pbb(5) | b.pbb(3), b.cbb(en), x);
        lemma_bit_ops(b.pbb(5), b.pbb(4), x);
        lemma_bit_ops(b.pbb(5), b.pbb(3), x);
        lemma_attack_mask_covers(b, en, blind, x, t);
        if bit(kk, x) {
            assert(king_hit(t, x));
            assert(bit(b.of(KING as int, en), x));
            assert(x == lowest(b.of(KING as int, en)));
        } else if bit(pp, x) {
            lemma_pawn_hit_back(en, x, t);
            assert(pawn_hit(!en, t, x));
        } else if bit(nn, x) {
            assert(knight_hit(t, x));
        } else {
            assert forall|y: int| #[trigger] between(t, x, y) && bit(blind, y) implies bit(occ, y) by {
            }
            lemma_slider_reverse_between(t, occ, x, blind);
            if bit(oo, x) {
                assert(rook_hit(t, occ, x));
            } else {
                assert(bishop_hit(t, occ, x));
            }
        }
    }
}

/// `t` is not attacked in `nb` when the enemy of `b`, its sliders seeing `blind`, does not
/// attack it and `nb` opens no new lines to it.
pub proof fn lemma_unattacked(b: Board, en: Color, blind: u64, nb: Board, t: int)
    requires
        b.wf(),
        nb.wf(),
        one_king(b, en),
        0 <= t < 64,
        !bit(b.attack_mask(en, blind), t),
        no_new_lines(b, nb, t, en, blind),
    ensures
        nb.attackers(t, en) == 0,
{
    let a = nb.attackers(t, en);
    assert forall|x: int| 0 <= x < 64 implies bit(a, x) == bit(0u64, x) by {
        lemma_no_attacker_at(b, en, blind, nb, t, x);
        lemma_bit_ops(0, 0, x);
    }
    lemma_bits_ext(a, 0);
}

/// A king that steps to a square the enemy does not attack once the king has left its
/// square is not attacked there after the step.
pub proof fn lemma_king_step_safe(b: Board, m: Move, nb: Board)
    requires
        b.wf(),
        nb.wf(),
        one_king(b, !b.tomove),
        type_of(m) == NORMAL,
        piece_of(m) == KING,
        bit(b.of(KING as int, b.tomove), from_of(m)),
        !bit(b.attack_mask(!b.tomove, b.occ() ^ b.of(KING as int, b.tomove)), to_of(m)),
        nb.played(&b, m),
    ensures
        nb.attackers(to_of(m), !b.tomove) == 0,
{
    let c = b.tomove;
    let en = !c;
    let (k, t) = (from_of(m), to_of(m));
    let kingbb = b.of(KING as int, c);
    let blind = b.occ() ^ kingbb;
    assert(0 <= k < 64 && 0 <= t < 64);
    lemma_bit_ops(nb.colors[0], nb.colors[1], t);
    lemma_bit_ops(nb.colors[0], nb.colors[1], k);
    assert(nb.sq_ok(t));
    assert(bit(nb.cbb(c), t));
    assert forall|x: int| 0 <= x < 64 && #[trigger] bit(nb.cbb(en), x) implies nb.same_at(&b, x) by {
        lemma_bit_ops(nb.colors[0], nb.colors[1], x);
        assert(x != t);
        assert(x != k);
        assert(!Board::touched(m, x));
    }
    assert forall|x: int, y: int| 0 <= x < 64 && bit(nb.cbb(en), x) && #[trigger] between(t, x, y) && bit(blind, y)
        implies bit(nb.occ(), y) by {
        lemma_bit_ops(b.colors[0], b.colors[1], y);
        lemma_bit_ops(b.occ(), kingbb, y);
        lemma_bit_ops(b.pbb(6), b.cbb(c), y);
        lemma_bit_ops(nb.colors[0], nb.colors[1], y);
        if y != k {
            assert(!Board::touched(m, y));
            assert(nb.same_at(&b, y));
        }
    }
    lemma_unattacked(b, en, blind, nb, t);
}

/// A king castling from `from_of(m)`, its target not attacked once the king has left its
/// square, is not attacked there after castling.
pub proof fn lemma_castle_safe(b: Board, m: Move, nb: Board)
    requires
        b.wf(),
        nb.wf(),
        one_king(b, !b.tomove),
        type_of(m) == CASTLE,
        (from_of(m) == 4 && (to_of(m) == 6 || to_of(m) == 2)) || (from_of(m) == 60 && (to_of(m) == 62
            || to_of(m) == 58)),
        bit(b.of(KING as int, b.tomove), from_of(m)),
        !bit(b.attack_mask(!b.tomove, b.occ() ^ b.of(KING as int, b.tomove)), to_of(m)),
        nb.played(&b, m),
    ensures
        nb.attackers(to_of(m), !b.tomove) == 0,
{
    let c = b.tomove;
    let en = !c;
    let (k, t) = (from_of(m), to_of(m));
    let (rf, rt) = (rook_from(t), rook_to(t));
    let kingbb = b.of(KING as int, c);
    let blind = b.occ() ^ kingbb;
    assert(nb.sq_ok(t));
    assert(nb.sq_ok(rt));
    lemma_bit_ops(nb.colors[0], nb.colors[1], t);
    lemma_bit_ops(nb.colors[0], nb.colors[1], rt);
    lemma_bit_ops(nb.colors[0], nb.colors[1], k);
    lemma_bit_ops(nb.colors[0], nb.colors[1], rf);
    assert forall|x: int| 0 <= x < 64 && #[trigger] bit(nb.cbb(en), x) implies nb.same_at(&b, x) by {
        lemma_bit_ops(nb.colors[0], nb.colors[1], x);
        assert(x != t && x != k && x != rf && x != rt);
        assert(!Board::touched(m, x));
    }
    assert forall|x: int, y: int| 0 <= x < 64 && bit(nb.cbb(en), x) && #[trigger] between(t, x, y) && bit(blind, y)
        implies bit(nb.occ(), y) by {
        lemma_bit_ops(b.colors[0], b.colors[1], y);
        lemma_bit_ops(b.occ(), kingbb, y);
        lemma_bit_ops(b.pbb(6), b.cbb(c), y);
        lemma_bit_ops(nb.colors[0], nb.colors[1], y);
        assert(y != rf);
        if y != k && y != rt {
            assert(!Board::touched(m, y));
            assert(nb.same_at(&b, y));
        }
    }
    lemma_unattacked(b, en, blind, nb, t);
}

/// Two consistent boards that both are `b` with move `m` played hold the same pieces.
pub proof fn lemma_played_same(b: Board, m: Move, nb1: Board, nb2: Board)
    requires
        nb1.wf(),
        nb2.wf(),
        nb1.played(&b, m),
        nb2.played(&b, m),
    ensures
        nb1.pieces == nb2.pieces,
        nb1.colors == nb2.colors,
{
    assert forall|x: int| 0 <= x < 64 implies #[trigger] nb1.same_at(&nb2, x) by {
        nb1.lemma_wf_square(x);
        nb2.lemma_wf_square(x);
        lemma_bit_ops(nb1.colors[0], nb1.colors[1], x);
        lemma_bit_ops(nb2.colors[0], nb2.colors[1], x);
        if !Board::touched(m, x) {
            assert(nb1.same_at(&b, x));
            assert(nb2.same_at(&b, x));
        } else if x == to_of(m) || (type_of(m) == CASTLE && x == rook_to(to_of(m))) {
            let a = nb1.at_square(x);
            assert(a == nb2.at_square(x));
            assert(bit(nb1.cbb(b.tomove), x) && bit(nb2.cbb(b.tomove), x));
            assert forall|i: int| 0 <= i < 6 implies bit(#[trigger] nb1.pieces[i], x) == bit(nb2.pieces[i], x) by {
                if 1 <= a {
                    assert(bit(nb1.occ(), x) && bit(nb2.occ(), x));
                }
            }
        } else {
            assert(nb1.vacant(x) && nb2.vacant(x));
        }
    }
    assert forall|i: int| 0 <= i < 6 implies nb1.pieces[i] == nb2.pieces[i] by {
        assert forall|x: int| 0 <= x < 64 implies bit(nb1.pieces[i], x) == bit(nb2.pieces[i], x) by {
            assert(nb1.same_at(&nb2, x));
        }
        lemma_bits_ext(nb1.pieces[i], nb2.pieces[i]);
    }
    assert forall|j: int| 0 <= j < 2 implies nb1.colors[j] == nb2.colors[j] by {
        assert forall|x: int| 0 <= x < 64 implies bit(nb1.colors[j], x) == bit(nb2.colors[j], x) by {
            assert(nb1.same_at(&nb2, x));
        }
        lemma_bits_ext(nb1.colors[j], nb2.colors[j]);
    }
    assert(nb1.pieces =~= nb2.pieces);
    assert(nb1.colors =~= nb2.colors);
}

/// The squares an en passant capture touches hold no king before or after it, so the
/// mover's kings stay where they are.
pub proof fn lemma_passant_keeps_kings(b: Board, m: Move, nb: Board)
    requires
        b.wf(),
        nb.wf(),
        type_of(m) == PASSANT,
        b.fits(m),
        nb.played(&b, m),
    ensures
        nb.of(KING as int, b.tomove) == b.of(KING as int, b.tomove),
{
    let c = b.tomove;
    assert forall|x: int| 0 <= x < 64 implies bit(nb.of(KING as int, c), x) == bit(b.of(KING as int, c), x) by {
        lemma_bit_ops(nb.pbb(6), nb.cbb(c), x);
        lemma_bit_ops(b.pbb(6), b.cbb(c), x);
        b.lemma_wf_square(x);
        nb.lemma_wf_square(x);
        if !Board::touched(m, x) {
            assert(nb.same_at(&b, x));
        } else if x == to_of(m) {
            assert(nb.at_square(x) == PAWN);
        }
    }
    lemma_bits_ext(nb.of(KING as int, c), b.of(KING as int, c));
}

/// Two squares on one rank or one file.
pub open spec fn orth_line(a: int, b: int) -> bool {
    a / 8 == b / 8 || a % 8 == b % 8
}

/// Two squares on one diagonal or one anti-diagonal.
pub open spec fn diag_line(a: int, b: int) -> bool {
    a / 8 - a % 8 == b / 8 - b % 8 || a / 8 + a % 8 == b / 8 + b % 8
}

/// No square strictly between `a` and `b` is in `occ`.
pub open spec fn clear_between(a: int, b: int, occ: u64) -> bool {
    forall|y: int| #[trigger] between(a, b, y) ==> !bit(occ, y)
}

/// A square strictly between the start of a ray and the ray's square `u` is one the ray
/// passes before `u`.
proof fn lemma_between_on_ray(s: int, d: Direction, u: int, y: int)
    requires
        0 <= s < 64,
        1 <= ray_k(s, d, u),
        ray_on(s, d, ray_k(s, d, u)),
        ray_sq(s, d, ray_k(s, d, u)) == u,
        between(s, u, y),
    ensures
        1 <= ray_k(s, d, y) < ray_k(s, d, u),
        ray_on(s, d, ray_k(s, d, y)),
        ray_sq(s, d, ray_k(s, d, y)) == y,
{
    let k = ray_k(s, d, u);
    let (r, f) = (s / 8, s % 8);
    let (dr, df) = delta(d);
    let (ru, fu) = (r + k * dr, f + k * df);
    assert(u == ru * 8 + fu);
    assert(u / 8 == ru && u % 8 == fu) by {
        assert(0 <= fu < 8 && 0 <= ru < 8);
    }
    let (ry, fy) = (y / 8, y % 8);
    assert(y == ry * 8 + fy);
    match d {
        Direction::N => {
            assert(k * dr == k && k * df == 0);
            let j = ry - r;
            assert(ray_k(s, d, y) == j);
            assert(j * dr == j && j * df == 0);
        },
        Direction::S => {
            assert(k * dr == -k && k * df == 0);
            let j = r - ry;
            assert(ray_k(s, d, y) == (ry - r) * -1);
            assert(j * dr == -j && j * df == 0);
        },
        Direction::E => {
            assert(k * dr == 0 && k * df == k);
            let j = fy - f;
            assert(ray_k(s, d, y) == j);
            assert(j * dr == 0 && j * df == j);
        },
        Direction::W => {
            assert(k * dr == 0 && k * df == -k);
            let j = f - fy;
            assert(ray_k(s, d, y) == (fy - f) * -1);
            assert(j * dr == 0 && j * df == -j);
        },
        Direction::NE => {
            assert(k * dr == k && k * df == k);
            let j = ry - r;
            assert(ray_k(s, d, y) == j);
            assert(j * dr == j && j * df == j);
        },
        Direction::NW => {
            assert(k * dr == k && k * df == -k);
            let j = ry - r;
            assert(ray_k(s, d, y) == j);
            assert(j * dr == j && j * df == -j);
        },
        Direction::SE => {
            assert(k * dr == -k && k * df == k);
            let j = r - ry;
            assert(ray_k(s, d, y) == (ry - r) * -1);
            assert(j * dr == -j && j * df == j);
        },
        Direction::SW => {
            assert(k * dr == -k && k * df == -k);
            let j = r - ry;
            assert(ray_k(s, d, y) == (ry - r) * -1);
            assert(j * dr == -j && j * df == -j);
        },
    }
}

/// A ray from `s` reaches `u` exactly when `u` is on it and nothing in `occ` lies strictly
/// between them.
proof fn lemma_ray_hit_iff(s: int, d: Direction, occ: u64, u: int)
    requires
        0 <= s < 64,
        0 <= u < 64,
    ensures
        ray_hit(s, d, occ, u) ==> s != u && clear_between(s, u, occ),
        ray_hit(s, d, occ, u) ==> 1 <= ray_k(s, d, u) && ray_on(s, d, ray_k(s, d, u)) && ray_sq(s, d, ray_k(s, d, u)) == u,
        (1 <= ray_k(s, d, u) && ray_on(s, d, ray_k(s, d, u)) && ray_sq(s, d, ray_k(s, d, u)) == u
            && clear_between(s, u, occ)) ==> ray_hit(s, d, occ, u),
{
    let k = ray_k(s, d, u);
    let (dr, df) = delta(d);
    if ray_hit(s, d, occ, u) {
        assert(u / 8 == s / 8 + k * dr && u % 8 == s % 8 + k * df) by {
            let (ru, fu) = (s / 8 + k * dr, s % 8 + k * df);
            assert(u == ru * 8 + fu);
        }
        assert(k * dr != 0 || k * df != 0) by (nonlinear_arith)
            requires 1 <= k, dr != 0 || df != 0;
        assert forall|y: int| #[trigger] between(s, u, y) implies !bit(occ, y) by {
            lemma_between_on_ray(s, d, u, y);
            let j = ray_k(s, d, y);
            assert(ray_clear(s, d, occ, k - 1));
            assert(!bit(occ, ray_sq(s, d, j)));
        }
    }
    if 1 <= k && ray_on(s, d, k) && ray_sq(s, d, k) == u && clear_between(s, u, occ) {
        assert(k <= 7) by {
            let (r, f) = (s / 8, s % 8);
            assert(0 <= r + k * dr < 8 && 0 <= f + k * df < 8);
            match d {
                Direction::N => { assert(k * dr == k); },
                Direction::S => { assert(k * dr == -k); },
                Direction::E => { assert(k * df == k); },
                Direction::W => { assert(k * df == -k); },
                Direction::NE => { assert(k * dr == k); },
                Direction::NW => { assert(k * dr == k); },
                Direction::SE => { assert(k * dr == -k); },
                Direction::SW => { assert(k * dr == -k); },
            }
        }
        assert forall|j: int| 1 <= j <= k - 1 implies !bit(occ, #[trigger] ray_sq(s, d, j)) by {
            lemma_ray_between(s, d, u, j);
        }
    }
}

/// A rook on `s` attacks `u` exactly when they share a rank or file and nothing in `occ`
/// lies strictly between them.
#[verifier::spinoff_prover]
pub proof fn lemma_rook_hit_iff(s: int, occ: u64, u: int)
    requires
        0 <= s < 64,
        0 <= u < 64,
    ensures
        rook_hit(s, occ, u) == (s != u && orth_line(s, u) && clear_between(s, u, occ)),
{
    lemma_ray_hit_iff(s, Direction::N, occ, u);
    lemma_ray_hit_iff(s, Direction::S, occ, u);
    lemma_ray_hit_iff(s, Direction::E, occ, u);
    lemma_ray_hit_iff(s, Direction::W, occ, u);
    let (r, f, ru, fu) = (s / 8, s % 8, u / 8, u % 8);
    assert(s == r * 8 + f && u == ru * 8 + fu);
    if rook_hit(s, occ, u) {
        if ray_hit(s, Direction::N, occ, u) {
            let k = ray_k(s, Direction::N, u);
            assert(k * 1 == k && k * 0 == 0) by (nonlinear_arith);
            assert(u == (r + k) * 8 + f && 0 <= f < 8);
            assert(ru == r + k && fu == f);
        } else if ray_hit(s, Direction::S, occ, u) {
            let k = ray_k(s, Direction::S, u);
            assert(k * -1 == -k && k * 0 == 0) by (nonlinear_arith);
            assert(u == (r - k) * 8 + f && 0 <= f < 8);
            assert(ru == r - k && fu == f);
        } else if ray_hit(s, Direction::E, occ, u) {
            let k = ray_k(s, Direction::E, u);
            assert(k * 1 == k && k * 0 == 0) by (nonlinear_arith);
            assert(u == r * 8 + (f + k) && 0 <= f + k < 8);
            assert(ru == r && fu == f + k);
        } else {
            let k = ray_k(s, Direction::W, u);
            assert(k * -1 == -k && k * 0 == 0) by (nonlinear_arith);
            assert(u == r * 8 + (f - k) && 0 <= f - k < 8);
            assert(ru == r && fu == f - k);
        }
    }
    if s != u && orth_line(s, u) && clear_between(s, u, occ) {
        if fu == f {
            if ru > r {
                let k = ru - r;
                assert(k * 1 == k && k * 0 == 0) by (nonlinear_arith);
                assert(ray_k(s, Direction::N, u) == k);
                assert(ray_on(s, Direction::N, k) && ray_sq(s, Direction::N, k) == u);
            } else {
                let k = r - ru;
                assert(k * -1 == -k && k * 0 == 0) by (nonlinear_arith);
                assert(ray_k(s, Direction::S, u) == (ru - r) * -1);
                assert(ray_on(s, Direction::S, k) && ray_sq(s, Direction::S, k) == u);
            }
        } else {
            if fu > f {
                let k = fu - f;
                assert(k * 1 == k && k * 0 == 0) by (nonlinear_arith);
                assert(ray_k(s, Direction::E, u) == k);
                assert(ray_on(s, Direction::E, k) && ray_sq(s, Direction::E, k) == u);
            } else {
                let k = f - fu;
                assert(k * -1 == -k && k * 0 == 0) by (nonlinear_arith);
                assert(ray_k(s, Direction::W, u) == (fu - f) * -1);
                assert(ray_on(s, Direction::W, k) && ray_sq(s, Direction::W, k) == u);
            }
        }
    }
}

/// A bishop on `s` attacks `u` exactly when they share a diagonal and nothing in `occ`
/// lies strictly between them.
#[verifier::spinoff_prover]
pub proof fn lemma_bishop_hit_iff(s: int, occ: u64, u: int)
    requires
        0 <= s < 64,
        0 <= u < 64,
    ensures
        bishop_hit(s, occ, u) == (s != u && diag_line(s, u) && clear_between(s, u, occ)),
{
    lemma_ray_hit_iff(s, Direction::NE, occ, u);
    lemma_ray_hit_iff(s, Direction::NW, occ, u);
    lemma_ray_hit_iff(s, Direction::SE, occ, u);
    lemma_ray_hit_iff(s, Direction::SW, occ, u);
    let (r, f, ru, fu) = (s / 8, s % 8, u / 8, u % 8);
    assert(s == r * 8 + f && u == ru * 8 + fu);
    if bishop_hit(s, occ, u) {
        if ray_hit(s, Direction::NE, occ, u) {
            let k = ray_k(s, Direction::NE, u);
            assert(ru == r + k && fu == f + k);
        } else if ray_hit(s, Direction::NW, occ, u) {
            let k = ray_k(s, Direction::NW, u);
            assert(k * -1 == -k);
            assert(ru == r + k && fu == f - k);
        } else if ray_hit(s, Direction::SE, occ, u) {
            let k = ray_k(s, Direction::SE, u);
            assert(k * -1 == -k && k * 1 == k);
            assert(ray_on(s, Direction::SE, k) && ray_sq(s, Direction::SE, k) == u);
            assert(u == (r - k) * 8 + (f + k));
            assert(0 <= f + k < 8);
            assert(ru == r - k && fu == f + k);
        } else {
            let k = ray_k(s, Direction::SW, u);
            assert(k * -1 == -k);
            assert(ru == r - k && fu == f - k);
        }
    }
    if s != u && diag_line(s, u) && clear_between(s, u, occ) {
        assert(ru != r);
        let k = if ru > r { ru - r } else { r - ru };
        if ru > r && fu > f {
            assert(ray_k(s, Direction::NE, u) == k);
            assert(ray_on(s, Direction::NE, k) && ray_sq(s, Direction::NE, k) == u);
        } else if ru > r {
            assert(ray_k(s, Direction::NW, u) == k);
            assert(k * -1 == -k);
            assert(ray_on(s, Direction::NW, k) && ray_sq(s, Direction::NW, k) == u);
        } else if fu > f {
            assert(ray_k(s, Direction::SE, u) == (ru - r) * -1);
            assert(k * -1 == -k && k * 1 == k) by (nonlinear_arith);
            assert(fu == f + k && ru == r - k);
            assert(ray_sq(s, Direction::SE, k) == (r - k) * 8 + (f + k));
            assert(ray_on(s, Direction::SE, k) && ray_sq(s, Direction::SE, k) == u);
        } else {
            assert(ray_k(s, Direction::SW, u) == (ru - r) * -1);
            assert(k * -1 == -k);
            assert(ray_on(s, Direction::SW, k) && ray_sq(s, Direction::SW, k) == u);
        }
    }
}

/// A bitboard holding two different squares counts at least two, one holding a square at
/// least one.
pub proof fn lemma_count_at_least(s: u64, x: int, y: int)
    requires
        bit(s, x),
        bit(s, y),
    ensures
        count(s) >= 1,
        x != y ==> count(s) >= 2,
{
    let ones = |q: int| 1int;
    lemma_single(x as u64);
    let s2 = s ^ single(x);
    assert forall|t: int| 0 <= t < 64 && t != x implies bit(s, t) == bit(s2, t) by {
        lemma_bit_ops(s, single(x), t);
    }
    lemma_bit_ops(s, single(x), x);
    lemma_bb_sum_remove(s, s2, ones, x, 64);
    lemma_bb_sum_bounds(s2, ones, 64, 0, 1);
    if x != y {
        lemma_bit_ops(s, single(x), y);
        lemma_single(y as u64);
        let s3 = s2 ^ single(y);
        assert forall|t: int| 0 <= t < 64 && t != y implies bit(s2, t) == bit(s3, t) by {
            lemma_bit_ops(s2, single(y), t);
        }
        lemma_bit_ops(s2, single(y), y);
        lemma_bb_sum_remove(s2, s3, ones, y, 64);
        lemma_bb_sum_bounds(s3, ones, 64, 0, 1);
    }
}

/// Two squares on one line of the given kind: a diagonal (`diag`) or a rank or file.
pub open spec fn kind_line(diag: bool, a: int, b: int) -> bool {
    if diag { diag_line(a, b) } else { orth_line(a, b) }
}

/// A piece strictly between `k` and `x` on a line of some kind, moving along a line of
/// that kind to a square `t` on a line of that kind through `k`, without passing over `k`
/// or `x`, stays between `k` and `x` or lands on `x`.
pub proof fn lemma_stays_on_line(diag: bool, k: int, x: int, f: int, t: int)
    requires
        0 <= k < 64,
        0 <= x < 64,
        0 <= f < 64,
        0 <= t < 64,
        kind_line(diag, k, x),
        between(k, x, f),
        kind_line(diag, f, t),
        f != t,
        kind_line(diag, k, t),
        t != k,
        !between(f, t, x),
        !between(f, t, k),
    ensures
        t == x || between(k, x, t),
{
    let (rk, fk) = (k / 8, k % 8);
    let (rx, fx) = (x / 8, x % 8);
    let (rf, ff) = (f / 8, f % 8);
    let (rt, ft) = (t / 8, t % 8);
    assert(k == rk * 8 + fk && x == rx * 8 + fx && f == rf * 8 + ff && t == rt * 8 + ft);
}

/// Facts of the squares strictly between two squares on a line of some kind: the relation
/// is symmetric, such a square is on a line of that kind through either end, and the squares
/// between one end and it are between the two ends as well.
pub proof fn lemma_between_facts(diag: bool, k: int, x: int, f: int, z: int)
    requires
        0 <= k < 64,
        0 <= x < 64,
        0 <= f < 64,
        kind_line(diag, k, x),
        between(k, x, f),
    ensures
        between(x, k, f),
        kind_line(diag, k, f),
        k != f,
        x != f,
        between(k, f, z) ==> between(k, x, z) && z != f,
{
    let (rk, fk) = (k / 8, k % 8);
    let (rx, fx) = (x / 8, x % 8);
    let (rf, ff) = (f / 8, f % 8);
    assert(k == rk * 8 + fk && x == rx * 8 + fx && f == rf * 8 + ff);
    if between(k, f, z) {
        let (rz, fz) = (z / 8, z % 8);
        assert(z == rz * 8 + fz);
    }
}

/// No square is strictly between the king and a square on its rank or file and also
/// strictly between it and a square on its diagonal.
pub proof fn lemma_one_line(k: int, x1: int, x2: int, f: int)
    requires
        0 <= k < 64,
        0 <= x1 < 64,
        0 <= x2 < 64,
        0 <= f < 64,
        orth_line(k, x1),
        diag_line(k, x2),
    ensures
        !(between(k, x1, f) && between(k, x2, f)),
{
    let (rk, fk) = (k / 8, k % 8);
    let (rf, ff) = (f / 8, f % 8);
    assert(k == rk * 8 + fk && f == rf * 8 + ff);
}

/// A square a non-king move may go to in check, with `x` a checking piece: `x` itself, or
/// (for a sliding checker) a square strictly between it and the king.
pub proof fn lemma_check_mask_forces(b: Board, x: int, t: int)
    requires
        0 <= x < 64,
        0 <= t < 64,
        b.of(KING as int, b.tomove) != 0,
        bit(b.jumpers() | b.sliders(), x),
        bit(b.check_mask(), t),
    ensures
        t == x || (bit(b.sliders(), x) && between(x, lowest(b.of(KING as int, b.tomove)), t)),
{
    let js = b.jumpers() | b.sliders();
    let k = lowest(b.of(KING as int, b.tomove));
    lemma_lowest(b.of(KING as int, b.tomove));
    lemma_count_at_least(js, x, x);
    lemma_bit_ops(0, 0, t);
    if count(js) == 1 {
        if b.sliders() != 0 {
            let l = lowest(b.sliders());
            lemma_lowest(b.sliders());
            lemma_bit_ops(b.jumpers(), b.sliders(), l);
            lemma_count_at_least(js, x, l);
            assert(l == x);
            let bb = crate::board_state::bitboard::between_bits(l as u64, k as u64);
            lemma_bit_ops(bb, b.sliders(), t);
            if bit(b.sliders(), t) {
                lemma_bit_ops(b.jumpers(), b.sliders(), t);
                lemma_count_at_least(js, x, t);
            } else {
                lemma_between_bits(l as u64, k as u64, t as u64);
                lemma_bit_ops(b.jumpers(), b.sliders(), x);
            }
        } else {
            lemma_bit_ops(b.jumpers(), b.sliders(), t);
            lemma_count_at_least(js, x, t);
        }
    }
}

/// The only piece strictly between the king and an enemy slider on a line of that
/// slider's kind, when it is the king's own, is in the pin mask of that kind.
pub proof fn lemma_pinned_blocker(b: Board, diag: bool, x: int, f: int)
    requires
        b.wf(),
        b.of(KING as int, b.tomove) != 0,
        0 <= x < 64,
        0 <= f < 64,
        bit(if diag { b.diagonals(!b.tomove) } else { b.orthogonals(!b.tomove) }, x),
        kind_line(diag, lowest(b.of(KING as int, b.tomove)), x),
        between(lowest(b.of(KING as int, b.tomove)), x, f),
        bit(b.cbb(b.tomove), f),
        forall|z: int| #[trigger] between(lowest(b.of(KING as int, b.tomove)), x, z) && z != f ==> !bit(b.occ(), z),
    ensures
        bit(b.pin_mask(diag), f),
{
    let c = b.tomove;
    let k = lowest(b.of(KING as int, c));
    lemma_lowest(b.of(KING as int, c));
    let occ = b.occ();
    let own = b.cbb(c);
    let enemy = b.cbb(!c);
    let kind: u8 = if diag { BISHOP } else { ROOK };
    let sliders = if diag { b.diagonals(!c) } else { b.orthogonals(!c) };
    let seen = kind_set(kind, occ)(k);
    let occ2 = (own & !seen) | enemy;
    let behind = (kind_set(kind, occ2)(k)) & sliders;
    let g = |q: int| crate::board_state::bitboard::between_bits(k as u64, q as u64);
    let un = union_of(behind, g);
    assert(b.pin_mask(diag) == behind | un);
    lemma_between_facts(diag, k, x, f, 0);
    lemma_bits_of_holds(|u: int| bishop_hit(k, occ, u));
    lemma_bits_of_holds(|u: int| rook_hit(k, occ, u));
    lemma_bits_of_holds(|u: int| bishop_hit(k, occ2, u));
    lemma_bits_of_holds(|u: int| rook_hit(k, occ2, u));
    // the blocker is the first piece the king sees on the line
    assert forall|z: int| #[trigger] between(k, f, z) implies !bit(occ, z) by {
        lemma_between_facts(diag, k, x, f, z);
    }
    lemma_bishop_hit_iff(k, occ, f);
    lemma_rook_hit_iff(k, occ, f);
    assert(bit(seen, f));
    // with the blocker seen through, the slider is next on the line
    b.lemma_wf_square(f);
    lemma_bit_ops(b.colors[0], b.colors[1], f);
    lemma_bit_ops(own & !seen, enemy, f);
    lemma_bit_ops(own, !seen, f);
    lemma_bit_ops(seen, 0, f);
    assert forall|z: int| #[trigger] between(k, x, z) implies !bit(occ2, z) by {
        if z != f {
            lemma_bit_ops(own & !seen, enemy, z);
            lemma_bit_ops(own, !seen, z);
            lemma_bit_ops(b.colors[0], b.colors[1], z);
        }
    }
    lemma_bishop_hit_iff(k, occ2, x);
    lemma_rook_hit_iff(k, occ2, x);
    lemma_bit_ops(kind_set(kind, occ2)(k), sliders, x);
    assert(bit(behind, x));
    lemma_between_bits(k as u64, x as u64, f as u64);
    assert(bit(g(x), f));
    lemma_bits_of_holds(|u: int| exists|q: int| 0 <= q < 64 && bit(behind, q) && #[trigger] bit(g(q), u));
    assert(bit(un, f));
    lemma_bit_ops(behind, un, f);
}

/// A square in a pin mask is on a line of the mask's kind through the king, other than
/// the king's square.
pub proof fn lemma_pin_target(b: Board, diag: bool, t: int)
    requires
        b.of(KING as int, b.tomove) != 0,
        0 <= t < 64,
        bit(b.pin_mask(diag), t),
    ensures
        kind_line(diag, lowest(b.of(KING as int, b.tomove)), t),
        t != lowest(b.of(KING as int, b.tomove)),
{
    let c = b.tomove;
    let k = lowest(b.of(KING as int, c));
    lemma_lowest(b.of(KING as int, c));
    let occ = b.occ();
    let own = b.cbb(c);
    let enemy = b.cbb(!c);
    let kind: u8 = if diag { BISHOP } else { ROOK };
    let sliders = if diag { b.diagonals(!c) } else { b.orthogonals(!c) };
    let seen = kind_set(kind, occ)(k);
    let occ2 = (own & !seen) | enemy;
    let behind = (kind_set(kind, occ2)(k)) & sliders;
    let g = |q: int| crate::board_state::bitboard::between_bits(k as u64, q as u64);
    let un = union_of(behind, g);
    assert(b.pin_mask(diag) == behind | un);
    lemma_bit_ops(behind, un, t);
    lemma_bits_of_holds(|u: int| bishop_hit(k, occ2, u));
    lemma_bits_of_holds(|u: int| rook_hit(k, occ2, u));
    if bit(behind, t) {
        lemma_bit_ops(kind_set(kind, occ2)(k), sliders, t);
        lemma_bishop_hit_iff(k, occ2, t);
        lemma_rook_hit_iff(k, occ2, t);
    } else {
        lemma_bits_of_holds(|u: int| exists|q: int| 0 <= q < 64 && bit(behind, q) && #[trigger] bit(g(q), u));
        let q = choose|q: int| 0 <= q < 64 && bit(behind, q) && #[trigger] bit(g(q), t);
        lemma_bit_ops(kind_set(kind, occ2)(k), sliders, q);
        lemma_bishop_hit_iff(k, occ2, q);
        lemma_rook_hit_iff(k, occ2, q);
        lemma_between_bits(k as u64, q as u64, t as u64);
        lemma_between_facts(diag, k, q, t, 0);
    }
}

/// The position is one that play can reach: each side has one king, the kings do not
/// stand next to each other, and no pawn stands on the first or last rank.
pub open spec fn legal_position(b: Board) -> bool {
    &&& one_king(b, b.tomove)
    &&& one_king(b, !b.tomove)
    &&& !king_hit(lowest(b.of(KING as int, b.tomove)), lowest(b.of(KING as int, !b.tomove)))
    &&& forall|x: int| 0 <= x < 64 && #[trigger] bit(b.pbb(1), x) ==> 8 <= x < 56
}

/// The squares a piece other than the king may go to: all when the king is not attacked,
/// else those of the check mask.
pub open spec fn legal_targets(b: Board) -> u64 {
    let kingbb = b.of(KING as int, b.tomove);
    if b.attack_mask(!b.tomove, b.occ() ^ kingbb) & kingbb == 0 {
        0xffff_ffff_ffff_ffffu64
    } else {
        b.check_mask()
    }
}

/// A move from `f` to `t` keeps to the pins: the piece is pinned along no line, or it is
/// pinned along a diagonal (a rank or file) and moves along a diagonal (a rank or file),
/// over empty squares, to a square on a diagonal (a rank or file) through the king.
pub open spec fn pin_ok(b: Board, f: int, t: int) -> bool {
    let (rp, bp) = (b.pin_mask(false), b.pin_mask(true));
    let k = lowest(b.of(KING as int, b.tomove));
    ||| !bit(rp, f) && !bit(bp, f)
    ||| bit(bp, f) && !bit(rp, f) && diag_line(k, t) && t != k && f != t && diag_line(f, t) && clear_between(
        f,
        t,
        b.occ(),
    )
    ||| bit(rp, f) && !bit(bp, f) && orth_line(k, t) && t != k && f != t && orth_line(f, t) && clear_between(
        f,
        t,
        b.occ(),
    )
}

/// `nb` is `b` with the piece on `f` moved to `t`: the other squares as they were, `f`
/// empty and `t` holding a piece of the side that moved.
pub open spec fn moved(nb: Board, b: Board, f: int, t: int) -> bool {
    &&& forall|x: int| 0 <= x < 64 && x != f && x != t ==> #[trigger] nb.same_at(&b, x)
    &&& nb.vacant(f)
    &&& bit(nb.cbb(b.tomove), t)
}

proof fn lemma_between_sym(a: int, b: int, y: int)
    ensures
        between(a, b, y) == between(b, a, y),
{
}

/// Once the king is attacked by the enemy seeing the board without the king, a piece
/// other than the king may only go to a square of the check mask.
proof fn lemma_in_check_targets(b: Board, t: int)
    requires
        b.of(KING as int, b.tomove) != 0,
        0 <= t < 64,
        bit(b.attack_mask(!b.tomove, b.occ() ^ b.of(KING as int, b.tomove)), lowest(b.of(KING as int, b.tomove))),
        bit(legal_targets(b), t),
    ensures
        bit(b.check_mask(), t),
{
    let kingbb = b.of(KING as int, b.tomove);
    let k = lowest(kingbb);
    let am = b.attack_mask(!b.tomove, b.occ() ^ kingbb);
    lemma_lowest(kingbb);
    lemma_bit_ops(am, kingbb, k);
    lemma_bit_ops(0, 0, k);
}

/// After a move of a piece other than the king that keeps to the check mask and the pins,
/// no enemy slider on `x` attacks the king.
#[verifier::spinoff_prover]
#[verifier::rlimit(100)]
proof fn lemma_no_slider_check(b: Board, f: int, t: int, nb: Board, x: int, diag: bool)
    requires
        b.wf(),
        nb.wf(),
        legal_position(b),
        0 <= f < 64,
        0 <= t < 64,
        0 <= x < 64,
        bit(b.cbb(b.tomove), f),
        !bit(b.cbb(b.tomove), t),
        bit(legal_targets(b), t),
        pin_ok(b, f, t),
        moved(nb, b, f, t),
        x != f && x != t,
        bit(b.cbb(!b.tomove), x),
        bit(if diag { b.diagonals(!b.tomove) } else { b.orthogonals(!b.tomove) }, x),
    ensures
        !(if diag { bishop_hit(lowest(b.of(KING as int, b.tomove)), nb.occ(), x) } else { rook_hit(
            lowest(b.of(KING as int, b.tomove)),
            nb.occ(),
            x,
        ) }),
{
    let c = b.tomove;
    let en = !c;
    let kingbb = b.of(KING as int, c);
    let k = lowest(kingbb);
    lemma_lowest(kingbb);
    let occ = b.occ();
    let nocc = nb.occ();
    let blind = occ ^ kingbb;
    let hit_nb = if diag { bishop_hit(k, nocc, x) } else { rook_hit(k, nocc, x) };
    if hit_nb {
        lemma_bishop_hit_iff(k, nocc, x);
        lemma_rook_hit_iff(k, nocc, x);
        assert(kind_line(diag, k, x) && k != x && clear_between(k, x, nocc));
        lemma_bit_ops(nb.colors[0], nb.colors[1], t);
        assert(bit(nocc, t));
        lemma_between_sym(k, x, t);
        lemma_bit_ops(b.pbb(6), b.cbb(c), k);
        lemma_bit_ops(b.colors[0], b.colors[1], k);
        lemma_bit_ops(b.colors[0], b.colors[1], x);
        if clear_between(k, x, occ) {
            // the slider gave check already, so the move had to block it or take it
            lemma_bishop_hit_iff(k, occ, x);
            lemma_rook_hit_iff(k, occ, x);
            lemma_bits_of_holds(|u: int| bishop_hit(k, occ, u));
            lemma_bits_of_holds(|u: int| rook_hit(k, occ, u));
            let bs = bishop_set(k, occ) & b.diagonals(en);
            let rs = rook_set(k, occ) & b.orthogonals(en);
            lemma_bit_ops(bishop_set(k, occ), b.diagonals(en), x);
            lemma_bit_ops(rook_set(k, occ), b.orthogonals(en), x);
            lemma_bit_ops(bs, rs, x);
            lemma_bit_ops(b.jumpers(), b.sliders(), x);
            assert forall|y: int| #[trigger] between(k, x, y) && bit(blind, y) implies bit(occ, y) by {
                lemma_bit_ops(occ, kingbb, y);
            }
            lemma_slider_reverse_between(k, occ, x, blind);
            lemma_attack_mask_covers(b, en, blind, x, k);
            lemma_in_check_targets(b, t);
            lemma_check_mask_forces(b, x, t);
            lemma_between_sym(x, k, t);
        } else {
            // the moving piece was the one piece between the king and the slider
            let y = choose|y: int| #[trigger] between(k, x, y) && bit(occ, y);
            assert(between(k, x, y) && bit(occ, y));
            if y != f {
                lemma_between_facts(diag, k, x, y, 0);
                assert(nb.same_at(&b, y));
                lemma_bit_ops(b.colors[0], b.colors[1], y);
                lemma_bit_ops(nb.colors[0], nb.colors[1], y);
            }
            assert(y == f);
            assert forall|z: int| #[trigger] between(k, x, z) && z != f implies !bit(occ, z) by {
                lemma_between_facts(diag, k, x, z, 0);
                assert(z != t);
                assert(nb.same_at(&b, z));
                lemma_bit_ops(b.colors[0], b.colors[1], z);
                lemma_bit_ops(nb.colors[0], nb.colors[1], z);
            }
            lemma_pinned_blocker(b, diag, x, f);
            let (rp, bp) = (b.pin_mask(false), b.pin_mask(true));
            assert(kind_line(diag, f, t) && f != t && clear_between(f, t, occ));
            assert(!between(f, t, x));
            assert(!between(f, t, k));
            lemma_stays_on_line(diag, k, x, f, t);
        }
    }
}

/// After a move of a piece other than the king that keeps to the check mask and the pins,
/// no enemy piece on `x` attacks the king.
#[verifier::spinoff_prover]
#[verifier::rlimit(100)]
proof fn lemma_no_quiet_attacker_at(b: Board, f: int, t: int, nb: Board, x: int)
    requires
        b.wf(),
        nb.wf(),
        legal_position(b),
        0 <= f < 64,
        0 <= t < 64,
        0 <= x < 64,
        bit(b.cbb(b.tomove), f),
        !bit(b.cbb(b.tomove), t),
        bit(legal_targets(b), t),
        pin_ok(b, f, t),
        moved(nb, b, f, t),
    ensures
        !bit(nb.attackers(lowest(b.of(KING as int, b.tomove)), !b.tomove), x),
{
    let c = b.tomove;
    let en = !c;
    let kingbb = b.of(KING as int, c);
    let k = lowest(kingbb);
    lemma_lowest(kingbb);
    let occ = b.occ();
    let nocc = nb.occ();
    let blind = occ ^ kingbb;
    let a = nb.attackers(k, en);
    if bit(a, x) {
        lemma_bits_of_holds(|u: int| king_hit(k, u));
        lemma_bits_of_holds(|u: int| pawn_hit(!en, k, u));
        lemma_bits_of_holds(|u: int| knight_hit(k, u));
        lemma_bits_of_holds(|u: int| rook_hit(k, nocc, u));
        lemma_bits_of_holds(|u: int| bishop_hit(k, nocc, u));
        let kk = nb.of(KING as int, en) & king_set(k);
        let pp = nb.of(PAWN as int, en) & pawn_set(!en, k);
        let nn = nb.of(KNIGHT as int, en) & knight_set(k);
        let oo = nb.orthogonals(en) & rook_set(k, nocc);
        let dd = nb.diagonals(en) & bishop_set(k, nocc);
        assert(a == (((kk | pp) | nn) | oo) | dd);
        lemma_bit_ops(((kk | pp) | nn) | oo, dd, x);
        lemma_bit_ops((kk | pp) | nn, oo, x);
        lemma_bit_ops(kk | pp, nn, x);
        lemma_bit_ops(kk, pp, x);
        lemma_bit_ops(nb.of(KING as int, en), king_set(k), x);
        lemma_bit_ops(nb.of(PAWN as int, en), pawn_set(!en, k), x);
        lemma_bit_ops(nb.of(KNIGHT as int, en), knight_set(k), x);
        lemma_bit_ops(nb.orthogonals(en), rook_set(k, nocc), x);
        lemma_bit_ops(nb.diagonals(en), bishop_set(k, nocc), x);
        lemma_bit_ops(nb.pbb(6), nb.cbb(en), x);
        lemma_bit_ops(nb.pbb(1), nb.cbb(en), x);
        lemma_bit_ops(nb.pbb(2), nb.cbb(en), x);
        lemma_bit_ops(nb.pbb(5) | nb.pbb(4), nb.cbb(en), x);
        lemma_bit_ops(nb.pbb(5) | nb.pbb(3), nb.cbb(en), x);
        lemma_bit_ops(nb.pbb(5), nb.pbb(4), x);
        lemma_bit_ops(nb.pbb(5), nb.pbb(3), x);
        // the attacker stands where it stood before the move
        assert(bit(nb.cbb(en), x));
        lemma_bit_ops(nb.colors[0], nb.colors[1], x);
        lemma_bit_ops(nb.colors[0], nb.colors[1], t);
        assert(nb.sq_ok(t));
        assert(nb.vacant(f));
        assert(x != f && x != t);
        assert(nb.same_at(&b, x));
        lemma_bit_ops(b.pbb(6), b.cbb(en), x);
        lemma_bit_ops(b.pbb(1), b.cbb(en), x);
        lemma_bit_ops(b.pbb(2), b.cbb(en), x);
        lemma_bit_ops(b.pbb(5) | b.pbb(4), b.cbb(en), x);
        lemma_bit_ops(b.pbb(5) | b.pbb(3), b.cbb(en), x);
        lemma_bit_ops(b.pbb(5), b.pbb(4), x);
        lemma_bit_ops(b.pbb(5), b.pbb(3), x);
        b.lemma_wf_square(x);
        if bit(kk, x) {
            assert(bit(b.of(KING as int, en), x));
            assert(x == lowest(b.of(KING as int, en)));
            assert(king_hit(k, x));
        } else if bit(oo, x) {
            lemma_no_slider_check(b, f, t, nb, x, false);
        } else if bit(dd, x) {
            lemma_no_slider_check(b, f, t, nb, x, true);
        } else {
            // a knight or pawn gave check already, so the move had to take it
            lemma_bits_of_holds(|u: int| knight_hit(k, u));
            lemma_bits_of_holds(|u: int| pawn_hit(c, k, u));
            let jn = knight_set(k) & b.of(KNIGHT as int, en);
            let jp = pawn_set(c, k) & b.of(PAWN as int, en);
            lemma_bit_ops(knight_set(k), b.of(KNIGHT as int, en), x);
            lemma_bit_ops(pawn_set(c, k), b.of(PAWN as int, en), x);
            lemma_bit_ops(jn, jp, x);
            lemma_bit_ops(b.jumpers(), b.sliders(), x);
            lemma_pawn_hit_back(en, x, k);
            lemma_attack_mask_covers(b, en, blind, x, k);
            lemma_in_check_targets(b, t);
            lemma_check_mask_forces(b, x, t);
            lemma_bit_ops(bishop_set(k, occ) & b.diagonals(en), rook_set(k, occ) & b.orthogonals(en), x);
            lemma_bit_ops(bishop_set(k, occ), b.diagonals(en), x);
            lemma_bit_ops(rook_set(k, occ), b.orthogonals(en), x);
        }
    }
}

/// A move of a piece other than the king that keeps to the check mask and the pins leaves
/// the king unattacked.
pub proof fn lemma_quiet_move_safe(b: Board, f: int, t: int, nb: Board)
    requires
        b.wf(),
        nb.wf(),
        legal_position(b),
        0 <= f < 64,
        0 <= t < 64,
        bit(b.cbb(b.tomove), f),
        !bit(b.cbb(b.tomove), t),
        bit(legal_targets(b), t),
        pin_ok(b, f, t),
        moved(nb, b, f, t),
    ensures
        nb.attackers(lowest(b.of(KING as int, b.tomove)), !b.tomove) == 0,
{
    let a = nb.attackers(lowest(b.of(KING as int, b.tomove)), !b.tomove);
    assert forall|x: int| 0 <= x < 64 implies bit(a, x) == bit(0u64, x) by {
        lemma_no_quiet_attacker_at(b, f, t, nb, x);
        lemma_bit_ops(0, 0, x);
    }
    lemma_bits_ext(a, 0);
}

/// A piece of the side to move in a pin mask stands strictly between the king and a square
/// on a line of the mask's kind through the king.
pub proof fn lemma_pin_between(b: Board, diag: bool, f: int) -> (q: int)
    requires
        b.wf(),
        b.of(KING as int, b.tomove) != 0,
        0 <= f < 64,
        bit(b.pin_mask(diag), f),
        bit(b.cbb(b.tomove), f),
    ensures
        0 <= q < 64,
        kind_line(diag, lowest(b.of(KING as int, b.tomove)), q),
        between(lowest(b.of(KING as int, b.tomove)), q, f),
{
    let c = b.tomove;
    let k = lowest(b.of(KING as int, c));
    lemma_lowest(b.of(KING as int, c));
    let occ = b.occ();
    let own = b.cbb(c);
    let enemy = b.cbb(!c);
    let kind: u8 = if diag { BISHOP } else { ROOK };
    let sliders = if diag { b.diagonals(!c) } else { b.orthogonals(!c) };
    let seen = kind_set(kind, occ)(k);
    let occ2 = (own & !seen) | enemy;
    let behind = (kind_set(kind, occ2)(k)) & sliders;
    let g = |q: int| crate::board_state::bitboard::between_bits(k as u64, q as u64);
    let un = union_of(behind, g);
    assert(b.pin_mask(diag) == behind | un);
    lemma_bit_ops(behind, un, f);
    lemma_bit_ops(kind_set(kind, occ2)(k), sliders, f);
    lemma_bit_ops(b.colors[0], b.colors[1], f);
    b.lemma_wf_square(f);
    lemma_bit_ops(b.pbb(5) | b.pbb(4), enemy, f);
    lemma_bit_ops(b.pbb(5) | b.pbb(3), enemy, f);
    assert(!bit(behind, f));
    lemma_bits_of_holds(|u: int| exists|q: int| 0 <= q < 64 && bit(behind, q) && #[trigger] bit(g(q), u));
    let q = choose|q: int| 0 <= q < 64 && bit(behind, q) && #[trigger] bit(g(q), f);
    lemma_bits_of_holds(|u: int| bishop_hit(k, occ2, u));
    lemma_bits_of_holds(|u: int| rook_hit(k, occ2, u));
    lemma_bit_ops(kind_set(kind, occ2)(k), sliders, q);
    lemma_bishop_hit_iff(k, occ2, q);
    lemma_rook_hit_iff(k, occ2, q);
    lemma_between_bits(k as u64, q as u64, f as u64);
    q
}

/// A piece of the side to move is in at most one of the two pin masks.
pub proof fn lemma_one_pin(b: Board, f: int)
    requires
        b.wf(),
        b.of(KING as int, b.tomove) != 0,
        0 <= f < 64,
        bit(b.cbb(b.tomove), f),
    ensures
        !(bit(b.pin_mask(false), f) && bit(b.pin_mask(true), f)),
{
    if bit(b.pin_mask(false), f) && bit(b.pin_mask(true), f) {
        let k = lowest(b.of(KING as int, b.tomove));
        lemma_lowest(b.of(KING as int, b.tomove));
        let q1 = lemma_pin_between(b, false, f);
        let q2 = lemma_pin_between(b, true, f);
        lemma_one_line(k, q1, q2, f);
    }
}

/// A move of a piece other than the king to a square it may go to under the check mask
/// and the pins leaves the king unattacked once played.
pub proof fn lemma_quiet_safe_move(b: Board, m: Move)
    requires
        b.wf(),
        legal_position(b),
        type_of(m) == NORMAL || type_of(m) == PROMOTION,
        piece_of(m) != KING,
        bit(b.cbb(b.tomove), from_of(m)),
        !bit(b.cbb(b.tomove), to_of(m)),
        bit(legal_targets(b), to_of(m)),
        pin_ok(b, from_of(m), to_of(m)),
    ensures
        b.king_safe_after(m),
{
    assert forall|nb: Board| nb.wf() && #[trigger] nb.played(&b, m) implies nb.attackers(
        b.king_square_after(m),
        !b.tomove,
    ) == 0 by {
        assert(moved(nb, b, from_of(m), to_of(m)));
        lemma_quiet_move_safe(b, from_of(m), to_of(m), nb);
    }
}

/// A pinned piece stepping to a neighbouring square on a line of its pin's kind, onto a
/// square of that pin mask, keeps to the pins.
pub proof fn lemma_pinned_step(b: Board, diag: bool, f: int, t: int)
    requires
        b.of(KING as int, b.tomove) != 0,
        0 <= f < 64,
        0 <= t < 64,
        f != t,
        bit(b.pin_mask(diag), f),
        !bit(b.pin_mask(!diag), f),
        bit(b.pin_mask(diag), t),
        kind_line(diag, f, t),
        -1 <= f / 8 - t / 8 <= 1,
        -1 <= f % 8 - t % 8 <= 1,
    ensures
        pin_ok(b, f, t),
{
    lemma_pin_target(b, diag, t);
    assert forall|y: int| #[trigger] between(f, t, y) implies !bit(b.occ(), y) by {
        assert(y == y / 8 * 8 + y % 8);
    }
}

/// A pawn pinned along a rank or file, whose square one rank ahead is in that pin mask
/// and empty, goes two ranks ahead onto an empty square keeping to the pins.
pub proof fn lemma_pinned_double_push(b: Board, f: int, m: int, t: int)
    requires
        b.wf(),
        b.of(KING as int, b.tomove) != 0,
        8 <= f < 56,
        (m == f + 8 && t == f + 16) || (m == f - 8 && t == f - 16),
        0 <= t < 64,
        bit(b.cbb(b.tomove), f),
        bit(b.pin_mask(false), f),
        !bit(b.pin_mask(true), f),
        bit(b.pin_mask(false), m),
        !bit(b.occ(), m),
        !bit(b.occ(), t),
    ensures
        pin_ok(b, f, t),
{
    let k = lowest(b.of(KING as int, b.tomove));
    lemma_lowest(b.of(KING as int, b.tomove));
    let q = lemma_pin_between(b, false, f);
    lemma_between_facts(false, k, q, f, 0);
    lemma_pin_target(b, false, m);
    assert(k % 8 == f % 8);
    lemma_bit_ops(b.pbb(6), b.cbb(b.tomove), k);
    b.lemma_wf_square(k);
    lemma_bit_ops(b.colors[0], b.colors[1], k);
    assert(t != k);
    assert forall|y: int| #[trigger] between(f, t, y) implies !bit(b.occ(), y) by {
        assert(y == y / 8 * 8 + y % 8);
        assert(y == m);
    }
}


/// A king on `a` attacks `b` exactly when one on `b` attacks `a`.
pub proof fn lemma_king_step_symmetric(a: int, b: int)
    requires
        0 <= a < 64,
        0 <= b < 64,
    ensures
        king_hit(a, b) == king_hit(b, a),
{
    assert(a == a / 8 * 8 + a % 8);
    assert(b == b / 8 * 8 + b % 8);
}

/// Where the side `c` (with one king, and no pawn on a back rank) attacks a square by its
/// attack mask over the board's occupancy, one of its pieces attacks that square, and
/// the other way round: the two ways `incheck`, `is_attacked` and `generate_atk_mask`
/// look at attacks agree.
pub proof fn lemma_attack_mask_agrees(b: Board, c: Color, t: int)
    requires
        b.wf(),
        one_king(b, c),
        0 <= t < 64,
        forall|x: int| #[trigger] bit(b.of(PAWN as int, c), x) ==> 8 <= x < 56,
    ensures
        bit(b.attack_mask(c, b.occ()), t) == (b.attackers(t, c) != 0),
{
    let occ = b.occ();
    let a = b.attackers(t, c);
    if a != 0 {
        let e = lowest(a);
        lemma_lowest(a);
        let kings = b.of(KING as int, c);
        let ka = (kings & king_set(t)) | (b.of(PAWN as int, c) & pawn_set(!c, t));
        let kb = ka | (b.of(KNIGHT as int, c) & knight_set(t));
        let kc = kb | (b.orthogonals(c) & rook_set(t, occ));
        lemma_bit_ops(kc, b.diagonals(c) & bishop_set(t, occ), e);
        lemma_bit_ops(kb, b.orthogonals(c) & rook_set(t, occ), e);
        lemma_bit_ops(ka, b.of(KNIGHT as int, c) & knight_set(t), e);
        lemma_bit_ops(kings & king_set(t), b.of(PAWN as int, c) & pawn_set(!c, t), e);
        lemma_bit_ops(kings, king_set(t), e);
        lemma_bit_ops(b.of(PAWN as int, c), pawn_set(!c, t), e);
        lemma_bit_ops(b.of(KNIGHT as int, c), knight_set(t), e);
        lemma_bit_ops(b.orthogonals(c), rook_set(t, occ), e);
        lemma_bit_ops(b.diagonals(c), bishop_set(t, occ), e);
        lemma_bits_of_holds(|u: int| king_hit(t, u));
        lemma_bits_of_holds(|u: int| pawn_hit(!c, t, u));
        lemma_bits_of_holds(|u: int| knight_hit(t, u));
        lemma_bits_of_holds(|u: int| rook_hit(t, occ, u));
        lemma_bits_of_holds(|u: int| bishop_hit(t, occ, u));
        lemma_king_step_symmetric(t, e);
        crate::board_state::bitboard::lemma_knight_jump(t, e);
        lemma_pawn_hit_back(c, e, t);
        lemma_slider_reverse_between(t, occ, e, occ);
        lemma_attack_mask_covers(b, c, occ, e, t);
    } else if bit(b.attack_mask(c, occ), t) {
        let pawns = b.of(PAWN as int, c);
        let fwd = if c { rotl(pawns, 56) } else { rotl(pawns, 8) };
        let pe = shifted(fwd, Direction::E);
        let pw = shifted(fwd, Direction::W);
        let un = union_of(b.of(KNIGHT as int, c), kind_set(KNIGHT, occ));
        let ub = union_of(b.diagonals(c), kind_set(BISHOP, occ));
        let ur = union_of(b.orthogonals(c), kind_set(ROOK, occ));
        let kings = b.of(KING as int, c);
        let ks = king_set(lowest(kings));
        assert(b.attack_mask(c, occ) == ((((pe | pw) | un) | ub) | ur) | ks);
        lemma_bit_ops(pe, pw, t);
        lemma_bit_ops(pe | pw, un, t);
        lemma_bit_ops((pe | pw) | un, ub, t);
        lemma_bit_ops(((pe | pw) | un) | ub, ur, t);
        lemma_bit_ops((((pe | pw) | un) | ub) | ur, ks, t);
        let ka = (kings & king_set(t)) | (pawns & pawn_set(!c, t));
        let kb = ka | (b.of(KNIGHT as int, c) & knight_set(t));
        let kc = kb | (b.orthogonals(c) & rook_set(t, occ));
        lemma_bits_of_holds(|u: int| king_hit(t, u));
        lemma_bits_of_holds(|u: int| pawn_hit(!c, t, u));
        lemma_bits_of_holds(|u: int| knight_hit(t, u));
        lemma_bits_of_holds(|u: int| rook_hit(t, occ, u));
        lemma_bits_of_holds(|u: int| bishop_hit(t, occ, u));
        let e: int;
        if bit(ks, t) {
            e = lowest(kings);
            lemma_lowest(kings);
            lemma_bits_of_holds(|u: int| king_hit(e, u));
            lemma_king_step_symmetric(t, e);
            lemma_bit_ops(kings, king_set(t), e);
        } else if bit(ur, t) {
            let fr = kind_set(ROOK, occ);
            lemma_bits_of_holds(
                |u: int| exists|s: int| 0 <= s < 64 && bit(b.orthogonals(c), s) && #[trigger] bit(fr(s), u),
            );
            e = choose|s: int| 0 <= s < 64 && bit(b.orthogonals(c), s) && #[trigger] bit(fr(s), t);
            lemma_bits_of_holds(|u: int| rook_hit(e, occ, u));
            lemma_slider_reverse_between(e, occ, t, occ);
            lemma_bit_ops(b.orthogonals(c), rook_set(t, occ), e);
        } else if bit(ub, t) {
            let fb = kind_set(BISHOP, occ);
            lemma_bits_of_holds(
                |u: int| exists|s: int| 0 <= s < 64 && bit(b.diagonals(c), s) && #[trigger] bit(fb(s), u),
            );
            e = choose|s: int| 0 <= s < 64 && bit(b.diagonals(c), s) && #[trigger] bit(fb(s), t);
            lemma_bits_of_holds(|u: int| bishop_hit(e, occ, u));
            lemma_slider_reverse_between(e, occ, t, occ);
            lemma_bit_ops(b.diagonals(c), bishop_set(t, occ), e);
        } else if bit(un, t) {
            let fk = kind_set(KNIGHT, occ);
            lemma_bits_of_holds(
                |u: int| exists|s: int| 0 <= s < 64 && bit(b.of(KNIGHT as int, c), s) && #[trigger] bit(fk(s), u),
            );
            e = choose|s: int| 0 <= s < 64 && bit(b.of(KNIGHT as int, c), s) && #[trigger] bit(fk(s), t);
            lemma_bits_of_holds(|u: int| knight_hit(e, u));
            crate::board_state::bitboard::lemma_knight_jump(t, e);
            lemma_bit_ops(b.of(KNIGHT as int, c), knight_set(t), e);
        } else {
            lemma_shifted_bit(fwd, Direction::E, t as u64);
            lemma_shifted_bit(fwd, Direction::W, t as u64);
            let x = if bit(pe, t) { step(t, 0, -1) } else { step(t, 0, 1) };
            assert(0 <= x < 64 && bit(fwd, x));
            lemma_forward_bit(pawns, x);
            e = if c { (x + 8) % 64 } else { (x + 56) % 64 };
            assert(bit(pawns, e));
            assert(8 <= e < 56);
            assert(pawn_hit(c, e, t));
            lemma_pawn_hit_back(c, e, t);
            lemma_bit_ops(pawns, pawn_set(!c, t), e);
        }
        lemma_bit_ops(kc, b.diagonals(c) & bishop_set(t, occ), e);
        lemma_bit_ops(kb, b.orthogonals(c) & rook_set(t, occ), e);
        lemma_bit_ops(ka, b.of(KNIGHT as int, c) & knight_set(t), e);
        lemma_bit_ops(kings & king_set(t), pawns & pawn_set(!c, t), e);
        assert(bit(a, e));
        lemma_bit_ops(0, 0, e);
    }
}

} // verus!
