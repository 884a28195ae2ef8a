use vstd::prelude::*;
use super::typedefs::{Color, Square};

verus! {

/// A set of squares, one bit per square: bit `s` stands for square `s`.
pub type Bitboard = u64;

pub const NOT_A: Bitboard = 0xfefefefefefefefe;
pub const NOT_H: Bitboard = 0x7f7f7f7f7f7f7f7f;

/// Whether square `s` is in bitboard `b`.
pub open spec fn bit(b: u64, s: int) -> bool {
    0 <= s < 64 && (b >> (s as u64)) & 1 == 1
}

/// The square reached from `s` by moving `dr` ranks and `df` files, or -1 off the board.
pub open spec fn step(s: int, dr: int, df: int) -> int {
    let r = s / 8 + dr;
    let f = s % 8 + df;
    if 0 <= s < 64 && 0 <= r < 8 && 0 <= f < 8 {
        r * 8 + f
    } else {
        -1
    }
}

#[derive(PartialEq, Eq, Clone, Copy)]
pub enum Direction {
    N,
    E,
    S,
    W,
    NE,
    SE,
    NW,
    SW,
}

/// The rank and file change of one step in a direction.
pub open spec fn delta(d: Direction) -> (int, int) {
    match d {
        Direction::N => (1, 0),
        Direction::E => (0, 1),
        Direction::S => (-1, 0),
        Direction::W => (0, -1),
        Direction::NE => (1, 1),
        Direction::SE => (-1, 1),
        Direction::NW => (1, -1),
        Direction::SW => (-1, -1),
    }
}

/// The bitboard of every square reached by one step in direction `d` from a square of `b`.
pub open spec fn shifted(b: u64, d: Direction) -> u64 {
    match d {
        Direction::N => b << 8,
        Direction::E => (b << 1) & NOT_A,
        Direction::S => b >> 8,
        Direction::W => (b >> 1) & NOT_H,
        Direction::NE => (b << 9) & NOT_A,
        Direction::SE => (b >> 7) & NOT_A,
        Direction::NW => (b << 7) & NOT_H,
        Direction::SW => (b >> 9) & NOT_H,
    }
}

/// Square `t` is in the shifted board exactly when the square one step behind it is in `b`.
pub proof fn lemma_shifted_bit(b: u64, d: Direction, t: u64)
    requires
        t < 64,
    ensures
        bit(shifted(b, d), t as int) == (step(t as int, -delta(d).0, -delta(d).1) >= 0
            && bit(b, step(t as int, -delta(d).0, -delta(d).1))),
{
    lemma_shift_bits(b, t);
}

/// The eight one-step shifts, bit by bit.
proof fn lemma_shift_bits(b: u64, t: u64)
    by (bit_vector)
    requires
        t < 64,
    ensures
        ((b << 8) >> t) & 1 == 1 <==> (t >= 8 && (b >> ((t - 8) as u64)) & 1 == 1),
        ((b >> 8) >> t) & 1 == 1 <==> (t < 56 && (b >> ((t + 8) as u64)) & 1 == 1),
        (((b << 1) & 0xfefefefefefefefe) >> t) & 1 == 1 <==> (t % 8 != 0 && (b >> ((t - 1) as u64))
            & 1 == 1),
        (((b >> 1) & 0x7f7f7f7f7f7f7f7f) >> t) & 1 == 1 <==> (t % 8 != 7 && (b >> ((t + 1) as u64))
            & 1 == 1),
        (((b << 9) & 0xfefefefefefefefe) >> t) & 1 == 1 <==> (t >= 8 && t % 8 != 0 && (b >> ((t
            - 9) as u64)) & 1 == 1),
        (((b >> 7) & 0xfefefefefefefefe) >> t) & 1 == 1 <==> (t < 56 && t % 8 != 0 && (b >> ((t
            + 7) as u64)) & 1 == 1),
        (((b << 7) & 0x7f7f7f7f7f7f7f7f) >> t) & 1 == 1 <==> (t >= 8 && t % 8 != 7 && (b >> ((t
            - 7) as u64)) & 1 == 1),
        (((b >> 9) & 0x7f7f7f7f7f7f7f7f) >> t) & 1 == 1 <==> (t < 56 && t % 8 != 7 && (b >> ((t
            + 9) as u64)) & 1 == 1),
{
}

/// The lowest square of a non-empty bitboard.
pub open spec fn lowest(b: u64) -> int {
    vstd::std_specs::bits::u64_trailing_zeros(b) as int
}

/// The facts about the lowest square of a non-empty bitboard.
pub proof fn lemma_lowest(b: u64)
    requires
        b != 0,
    ensures
        0 <= lowest(b) < 64,
        bit(b, lowest(b)),
        forall|s: int| 0 <= s < lowest(b) ==> !bit(b, s),
        b & ((b - 1) as u64) == b - (1u64 << lowest(b) as u64),
        forall|s: int| bit(b & ((b - 1) as u64), s) == (bit(b, s) && s != lowest(b)),
        b ^ (b & ((b - 1) as u64)) == 1u64 << lowest(b) as u64,
{
    vstd::std_specs::bits::axiom_u64_trailing_zeros(b);
    let t = vstd::std_specs::bits::u64_trailing_zeros(b) as u64;
    assert(t < 64);
    assert forall|s: int| 0 <= s < lowest(b) implies !bit(b, s) by {
        let su = s as u64;
        assert((b >> su) & 1u64 == 0u64);
    }
    assert(b & ((b - 1) as u64) == b - (1u64 << t) && b ^ (b & ((b - 1) as u64)) == 1u64 << t) by (bit_vector)
        requires
            t < 64,
            (b >> t) & 1 == 1,
            b << ((64 - t) as u64) == 0,
    ;
    assert forall|s: int| bit(b & ((b - 1) as u64), s) == (bit(b, s) && s != lowest(b)) by {
        if 0 <= s < 64 {
            let su = s as u64;
            assert(((b & ((b - 1) as u64)) >> su) & 1 == 1 <==> ((b >> su) & 1 == 1 && su != t))
                by (bit_vector)
                requires
                    t < 64,
                    su < 64,
                    (b >> t) & 1 == 1,
                    b << ((64 - t) as u64) == 0,
            ;
        }
    }
}

/// The one-square bitboard.
pub open spec fn single(s: int) -> u64 {
    1u64 << (s as u64)
}

pub proof fn lemma_single(s: u64)
    requires
        s < 64,
    ensures
        forall|t: int| bit(single(s as int), t) == (t == s),
        single(s as int) != 0,
{
    assert forall|t: int| bit(single(s as int), t) == (t == s) by {
        if 0 <= t < 64 {
            let tu = t as u64;
            assert(((1u64 << s) >> tu) & 1 == 1 <==> tu == s) by (bit_vector)
                requires
                    s < 64,
                    tu < 64,
            ;
        }
    }
    assert(1u64 << s != 0) by (bit_vector)
        requires
            s < 64,
    ;
}

/// Rotating a bitboard left by a whole number of ranks.
pub open spec fn rotl(b: u64, n: u64) -> u64 {
    (b << n) | (b >> ((64 - n) as u64))
}

pub trait BB: Sized {
    /// Whether this bitboard holds at least one square.
    spec fn nonempty(&self) -> bool;

    fn shift(&self, d: Direction) -> Bitboard;

    fn new(sqr: Square) -> Self
        requires
            sqr < 64,
    ;

    fn pop_lsb(&mut self) -> Square
        requires
            old(self).nonempty(),
    ;

    fn pop_bb(&mut self) -> Bitboard
        requires
            old(self).nonempty(),
    ;

    fn lsb(&self) -> Square
        requires
            self.nonempty(),
    ;

    fn forward(&self, color: Color) -> Bitboard;
}

impl BB for Bitboard {
    open spec fn nonempty(&self) -> bool {
        *self != 0
    }

    fn new(sqr: Square) -> (r: Self)
        ensures
            r == single(sqr as int),
            forall|t: int| bit(r, t) == (t == sqr),
    {
        proof {
            lemma_single(sqr as u64);
        }
        1u64 << sqr
    }

    fn pop_lsb(&mut self) -> (r: Square)
        ensures
            r == lowest(*old(self)),
            r < 64,
            bit(*old(self), r as int),
            *final(self) == *old(self) & ((*old(self) - 1) as u64),
            forall|s: int| bit(*final(self), s) == (bit(*old(self), s) && s != r),
    {
        proof {
            lemma_lowest(*self);
        }
        let lsb = self.trailing_zeros();
        *self &= *self - 1;
        lsb as u8
    }

    fn pop_bb(&mut self) -> (r: Bitboard)
        ensures
            r == single(lowest(*old(self))),
            *final(self) == *old(self) & ((*old(self) - 1) as u64),
            forall|s: int| bit(*final(self), s) == (bit(*old(self), s) && s != lowest(*old(self))),
    {
        proof {
            lemma_lowest(*self);
        }
        let val = *self;
        *self &= *self - 1;
        proof {
            let nb = *self;
            lemma_xor(nb, val, 0);
        }
        *self ^ val
    }

    fn lsb(&self) -> (r: Square)
        ensures
            r == lowest(*self),
            r < 64,
            bit(*self, r as int),
            forall|s: int| 0 <= s < r ==> !bit(*self, s),
    {
        proof {
            lemma_lowest(*self);
        }
        self.trailing_zeros() as u8
    }

    /// One rank towards the far side of `color`: up the board for white, down for black,
    /// wrapping around the board's edge.
    fn forward(&self, color: Color) -> (r: Bitboard)
        ensures
            r == if color { rotl(*self, 56) } else { rotl(*self, 8) },
    {
        if color {
            rotate_left(*self, 56)
        } else {
            rotate_left(*self, 8)
        }
    }

    fn shift(&self, d: Direction) -> (r: Bitboard)
        ensures
            r == shifted(*self, d),
            forall|t: int|
                0 <= t < 64 ==> (bit(r, t) == (step(t, -delta(d).0, -delta(d).1) >= 0 && bit(
                    *self,
                    step(t, -delta(d).0, -delta(d).1),
                ))),
    {
        let r = match d {
            Direction::N => *self << 8,
            Direction::E => (*self << 1) & NOT_A,
            Direction::S => *self >> 8,
            Direction::W => (*self >> 1) & NOT_H,
            Direction::NE => (*self << 9) & NOT_A,
            Direction::SE => (*self >> 7) & NOT_A,
            Direction::NW => (*self << 7) & NOT_H,
            Direction::SW => (*self >> 9) & NOT_H,
        };
        proof {
            assert forall|t: int|
                0 <= t < 64 implies (bit(r, t) == (step(t, -delta(d).0, -delta(d).1) >= 0 && bit(
                *self,
                step(t, -delta(d).0, -delta(d).1),
            ))) by {
                lemma_shifted_bit(*self, d, t as u64);
            }
        }
        r
    }
}

/// `u64::rotate_left`, as the standard library documents it: the bits shifted out on the
/// left come back in on the right; the amount is taken modulo 64.
pub fn rotate_left(b: u64, n: u32) -> (r: u64)
    ensures
        r == if n % 64 == 0 { b } else { rotl(b, (n % 64) as u64) },
{
    let k = n % 64;
    if k == 0 {
        b
    } else {
        (b << k) | (b >> (64 - k))
    }
}


/// 1 when square `s` is in `b`, else 0.
pub open spec fn bitv(b: u64, s: int) -> int {
    if bit(b, s) { 1 } else { 0 }
}

pub proof fn lemma_bitv_exec(b: u64, s: u64)
    requires
        s < 64,
    ensures
        (b >> s) & 1 == bitv(b, s as int),
{
    assert((b >> s) & 1 == 0 || (b >> s) & 1 == 1) by (bit_vector);
}

/// How the square-level view of a bitboard follows the bitwise operators.
pub proof fn lemma_bit_ops(a: u64, b: u64, t: int)
    ensures
        bit(a | b, t) == (bit(a, t) || bit(b, t)),
        bit(a & b, t) == (bit(a, t) && bit(b, t)),
        bit(a ^ b, t) == (bit(a, t) != bit(b, t)),
        bit(!a, t) == (0 <= t < 64 && !bit(a, t)),
        bit(0u64, t) == false,
        bit(0xffff_ffff_ffff_ffffu64, t) == (0 <= t < 64),
{
    if 0 <= t < 64 {
        lemma_bit_ops_at(a, b, t as u64);
    }
}

proof fn lemma_bit_ops_at(a: u64, b: u64, tu: u64)
    by (bit_vector)
    requires
        tu < 64,
    ensures
        ((a | b) >> tu) & 1 == 1 <==> ((a >> tu) & 1 == 1 || (b >> tu) & 1 == 1),
        ((a & b) >> tu) & 1 == 1 <==> ((a >> tu) & 1 == 1 && (b >> tu) & 1 == 1),
        ((a ^ b) >> tu) & 1 == 1 <==> (((a >> tu) & 1 == 1) != ((b >> tu) & 1 == 1)),
        ((!a) >> tu) & 1 == 1 <==> !((a >> tu) & 1 == 1),
        (0u64 >> tu) & 1 != 1,
        (0xffff_ffff_ffff_ffffu64 >> tu) & 1 == 1,
{
}

/// Two bitboards are equal when they hold the same squares.
pub proof fn lemma_bits_ext(a: u64, b: u64)
    requires
        forall|t: int| 0 <= t < 64 ==> bit(a, t) == bit(b, t),
    ensures
        a == b,
{
    let c = a ^ b;
    if c != 0 {
        lemma_lowest(c);
        lemma_bit_ops(a, b, lowest(c));
    }
    lemma_xor(a, b, 0);
}

/// Intersection commutes.
pub proof fn lemma_bit_and_comm(a: u64, b: u64, c: u64)
    by (bit_vector)
    ensures
        a & c == c & a,
        b & c == c & b,
{
}

/// The algebra of exclusive-or.
pub proof fn lemma_xor(a: u64, b: u64, c: u64)
    by (bit_vector)
    ensures
        a ^ b == b ^ a,
        (a ^ b) ^ c == a ^ (b ^ c),
        a ^ a == 0,
        a ^ 0 == a,
        0 ^ a == a,
        a ^ b == 0 ==> a == b,
{
}

/// The sum of `f` over the squares of `b` below `n`.
pub open spec fn bb_sum(b: u64, f: spec_fn(int) -> int, n: int) -> int
    decreases n,
{
    if n <= 0 {
        0
    } else {
        bb_sum(b, f, n - 1) + if bit(b, n - 1) { f(n - 1) } else { 0 }
    }
}

/// The number of squares in a bitboard.
pub open spec fn count(b: u64) -> int {
    bb_sum(b, |s: int| 1int, 64)
}

/// Bitboards holding the same squares below `n` have the same sums there.
pub proof fn lemma_bb_sum_same(b1: u64, b2: u64, f: spec_fn(int) -> int, n: int)
    requires
        forall|t: int| 0 <= t < n ==> bit(b1, t) == bit(b2, t),
    ensures
        bb_sum(b1, f, n) == bb_sum(b2, f, n),
    decreases n,
{
    if n > 0 {
        lemma_bb_sum_same(b1, b2, f, n - 1);
    }
}

/// Bitboards that differ only on square `s`, which `b1` holds and `b2` does not, have
/// sums that differ by `f(s)` once `s` is counted.
pub proof fn lemma_bb_sum_remove(b1: u64, b2: u64, f: spec_fn(int) -> int, s: int, n: int)
    requires
        0 <= s < 64,
        bit(b1, s),
        !bit(b2, s),
        forall|t: int| 0 <= t < 64 && t != s ==> bit(b1, t) == bit(b2, t),
    ensures
        bb_sum(b1, f, n) == bb_sum(b2, f, n) + if s < n { f(s) } else { 0 },
    decreases n,
{
    if n > 0 {
        lemma_bb_sum_remove(b1, b2, f, s, n - 1);
    }
}

/// A sum of values between `lo` and `hi` over the squares below `n`.
pub proof fn lemma_bb_sum_bounds(b: u64, f: spec_fn(int) -> int, n: int, lo: int, hi: int)
    requires
        0 <= n <= 64,
        lo <= 0 <= hi,
        forall|t: int| 0 <= t < 64 ==> lo <= #[trigger] f(t) <= hi,
    ensures
        n * lo <= bb_sum(b, f, n) <= n * hi,
    decreases n,
{
    if n > 0 {
        lemma_bb_sum_bounds(b, f, n - 1, lo, hi);
        let v = f(n - 1);
        assert((n - 1) * lo + lo == n * lo) by (nonlinear_arith);
        assert((n - 1) * hi + hi == n * hi) by (nonlinear_arith);
        assert(lo <= v <= hi);
    } else {
        assert(n * lo == 0 && n * hi == 0) by (nonlinear_arith)
            requires
                n == 0,
        ;
    }
}

/// The empty bitboard sums to nothing.
pub proof fn lemma_bb_sum_empty(f: spec_fn(int) -> int, n: int)
    ensures
        bb_sum(0, f, n) == 0,
    decreases n,
{
    if n > 0 {
        lemma_bb_sum_empty(f, n - 1);
        lemma_bit_ops(0, 0, n - 1);
    }
}

/// Popping the lowest square of a bitboard takes its value out of the sum.
pub proof fn lemma_bb_sum_pop(b: u64, f: spec_fn(int) -> int)
    requires
        b != 0,
    ensures
        bb_sum(b, f, 64) == f(lowest(b)) + bb_sum(b & ((b - 1) as u64), f, 64),
{
    lemma_lowest(b);
    lemma_bb_sum_remove(b, b & ((b - 1) as u64), f, lowest(b), 64);
}

/// The number of squares in a bitboard, as `u64::count_ones` documents it.
/// Taking the lowest square off a non-empty bitboard lowers its count by one.
pub proof fn lemma_count_pop(b: u64)
    requires
        b != 0,
    ensures
        count(b & ((b - 1) as u64)) == count(b) - 1,
        count(b & ((b - 1) as u64)) >= 0,
{
    lemma_bb_sum_pop(b, |s: int| 1int);
    lemma_bb_sum_bounds(b & ((b - 1) as u64), |s: int| 1int, 64, 0, 1);
}

pub fn count_ones(b: u64) -> (r: u32)
    ensures
        r == count(b),
        r <= 64,
{
    let mut rest = b;
    let mut n: u32 = 0;
    proof {
        lemma_bb_sum_bounds(b, |s: int| 1int, 64, 0, 1);
    }
    while rest != 0
        invariant
            n + count(rest) == count(b),
            0 <= count(rest),
            count(b) <= 64,
        decreases count(rest),
    {
        proof {
            lemma_bb_sum_pop(rest, |s: int| 1int);
            lemma_bb_sum_bounds(rest & ((rest - 1) as u64), |s: int| 1int, 64, 0, 1);
        }
        rest = rest & (rest - 1);
        n = n + 1;
    }
    proof {
        lemma_bb_sum_same(rest, 0, |s: int| 1int, 64);
        assert forall|t: int| 0 <= t < 64 implies !bit(0u64, t) by {
            lemma_bit_ops(0, 0, t);
        }
        lemma_bb_sum_empty(|s: int| 1int, 64);
    }
    n
}

/// Square `k` steps from `s` along direction `d` is on the board.
pub open spec fn ray_on(s: int, d: Direction, k: int) -> bool {
    0 <= s / 8 + k * delta(d).0 < 8 && 0 <= s % 8 + k * delta(d).1 < 8
}

/// The square `k` steps from `s` along direction `d`.
pub open spec fn ray_sq(s: int, d: Direction, k: int) -> int {
    (s / 8 + k * delta(d).0) * 8 + (s % 8 + k * delta(d).1)
}

/// The squares 1 to `i` steps along the ray are all empty.
pub open spec fn ray_clear(s: int, d: Direction, occ: u64, i: int) -> bool {
    forall|j: int| 1 <= j <= i ==> !bit(occ, #[trigger] ray_sq(s, d, j))
}

/// How many steps along `d` it takes from `s` to reach the rank (or file) of `u`.
pub open spec fn ray_k(s: int, d: Direction, u: int) -> int {
    if delta(d).0 != 0 {
        (u / 8 - s / 8) * delta(d).0
    } else {
        (u % 8 - s % 8) * delta(d).1
    }
}

/// Square `u` is reached from `s` along `d` within `i` steps, every square before it empty.
pub open spec fn in_ray(s: int, d: Direction, occ: u64, u: int, i: int) -> bool {
    let k = ray_k(s, d, u);
    &&& 1 <= k <= i
    &&& ray_on(s, d, k)
    &&& ray_sq(s, d, k) == u
    &&& ray_clear(s, d, occ, k - 1)
}

/// A slider on `s` moving along `d` attacks `u` through the occupied squares `occ`: `u` is
/// on the ray and every square between them is empty.
pub open spec fn ray_hit(s: int, d: Direction, occ: u64, u: int) -> bool {
    in_ray(s, d, occ, u, 7)
}

/// A rook on `s` attacks `u` through `occ`.
pub open spec fn rook_hit(s: int, occ: u64, u: int) -> bool {
    ray_hit(s, Direction::N, occ, u) || ray_hit(s, Direction::E, occ, u) || ray_hit(
        s,
        Direction::S,
        occ,
        u,
    ) || ray_hit(s, Direction::W, occ, u)
}

/// A bishop on `s` attacks `u` through `occ`.
pub open spec fn bishop_hit(s: int, occ: u64, u: int) -> bool {
    ray_hit(s, Direction::NE, occ, u) || ray_hit(s, Direction::NW, occ, u) || ray_hit(
        s,
        Direction::SE,
        occ,
        u,
    ) || ray_hit(s, Direction::SW, occ, u)
}

/// The front of a ray after `i` steps: the one square the ray has reached, while it is on
/// the board and has met no piece.
pub open spec fn ray_front(s: int, d: Direction, occ: u64, i: int, cur: u64) -> bool {
    forall|v: int|
        0 <= v < 64 ==> (bit(cur, v) == (v == ray_sq(s, d, i) && ray_on(s, d, i) && ray_clear(
            s,
            d,
            occ,
            i,
        )))
}

/// Stepping a square backwards against `d` lands on step `i` of the ray exactly when the
/// square is step `i + 1`.
#[verifier::rlimit(50)]
pub proof fn lemma_ray_back(s: int, d: Direction, i: int, u: int)
    requires
        0 <= s < 64,
        0 <= u < 64,
        0 <= i,
    ensures
        (step(u, -delta(d).0, -delta(d).1) >= 0 && step(u, -delta(d).0, -delta(d).1) == ray_sq(
            s,
            d,
            i,
        ) && ray_on(s, d, i)) == (u == ray_sq(s, d, i + 1) && ray_on(s, d, i + 1) && ray_on(
            s,
            d,
            i,
        )),
        u == ray_sq(s, d, i + 1) && ray_on(s, d, i + 1) ==> ray_k(s, d, u) == i + 1,
{
    let (dr, df) = delta(d);
    assert((i + 1) * dr == i * dr + dr) by (nonlinear_arith);
    assert((i + 1) * df == i * df + df) by (nonlinear_arith);
    assert(u == (u / 8) * 8 + u % 8);
}

/// One step of a ray: the front moves one square on, the covered squares grow by it, and
/// the front stops on an occupied square.
pub proof fn lemma_ray_advance(s: int, d: Direction, occ: u64, i: int, cur: u64)
    requires
        0 <= s < 64,
        0 <= i,
        ray_front(s, d, occ, i, cur),
    ensures
        forall|u: int|
            0 <= u < 64 ==> bit(shifted(cur, d), u) == (u == ray_sq(s, d, i + 1) && ray_on(s, d, i + 1)
                && ray_clear(s, d, occ, i)),
        ray_front(s, d, occ, i + 1, shifted(cur, d) & !occ),
        forall|u: int|
            0 <= u < 64 ==> in_ray(s, d, occ, u, i + 1) == (in_ray(s, d, occ, u, i) || bit(
                shifted(cur, d),
                u,
            )),
{
    let n = shifted(cur, d);
    assert forall|u: int|
        0 <= u < 64 implies bit(n, u) == (u == ray_sq(s, d, i + 1) && ray_on(s, d, i + 1)
        && ray_clear(s, d, occ, i)) by {
        lemma_shifted_bit(cur, d, u as u64);
        lemma_ray_back(s, d, i, u);
        let (dr, df) = delta(d);
        if u == ray_sq(s, d, i + 1) && ray_on(s, d, i + 1) {
            let (r0, f0) = (s / 8, s % 8);
            assert(0 <= r0 + i * dr < 8 && 0 <= f0 + i * df < 8) by (nonlinear_arith)
                requires
                    0 <= r0 < 8,
                    0 <= f0 < 8,
                    0 <= r0 + (i + 1) * dr < 8,
                    0 <= f0 + (i + 1) * df < 8,
                    -1 <= dr <= 1,
                    -1 <= df <= 1,
                    0 <= i,
            ;
        }
        if 0 <= step(u, -dr, -df) {
            let v = step(u, -dr, -df);
            assert(0 <= v < 64);
        }
    }
    assert forall|v: int|
        0 <= v < 64 implies (bit(n & !occ, v) == (v == ray_sq(s, d, i + 1) && ray_on(s, d, i + 1)
        && ray_clear(s, d, occ, i + 1))) by {
        lemma_bit_ops(n, !occ, v);
        lemma_bit_ops(occ, 0, v);
        if v == ray_sq(s, d, i + 1) && ray_on(s, d, i + 1) && ray_clear(s, d, occ, i) && !bit(occ, v) {
            assert forall|j: int| 1 <= j <= i + 1 implies !bit(occ, #[trigger] ray_sq(s, d, j)) by {
                if j <= i {
                    assert(ray_clear(s, d, occ, i));
                }
            }
        }
        if ray_clear(s, d, occ, i + 1) {
            assert forall|j: int| 1 <= j <= i implies !bit(occ, #[trigger] ray_sq(s, d, j)) by {
                assert(1 <= j <= i + 1);
            }
            assert(!bit(occ, ray_sq(s, d, i + 1)));
        }
    }
    assert forall|u: int|
        0 <= u < 64 implies in_ray(s, d, occ, u, i + 1) == (in_ray(s, d, occ, u, i) || bit(n, u)) by {
        lemma_ray_back(s, d, i, u);
        let k = ray_k(s, d, u);
        if bit(n, u) {
            assert(k == i + 1);
        }
        if in_ray(s, d, occ, u, i + 1) && !in_ray(s, d, occ, u, i) {
            assert(k == i + 1);
            assert(u == ray_sq(s, d, i + 1) && ray_on(s, d, i + 1) && ray_clear(s, d, occ, i));
        }
    }
}

/// No direction stays on the board for eight steps.
pub proof fn lemma_ray_ends(s: int, d: Direction)
    requires
        0 <= s < 64,
    ensures
        !ray_on(s, d, 8),
{
}

/// Once a ray's front has left the board or met a piece, further steps reach nothing new.
pub proof fn lemma_ray_stable(s: int, d: Direction, occ: u64, i: int, n: int, u: int)
    requires
        0 <= s < 64,
        0 <= i <= n,
        !(ray_on(s, d, i) && ray_clear(s, d, occ, i)),
    ensures
        in_ray(s, d, occ, u, n) == in_ray(s, d, occ, u, i),
{
    let k = ray_k(s, d, u);
    if in_ray(s, d, occ, u, n) && k > i {
        let (dr, df) = delta(d);
        assert(0 <= s / 8 + i * dr < 8 && 0 <= s % 8 + i * df < 8) by (nonlinear_arith)
            requires
                0 <= s / 8 < 8,
                0 <= s % 8 < 8,
                0 <= s / 8 + k * dr < 8,
                0 <= s % 8 + k * df < 8,
                -1 <= dr <= 1,
                -1 <= df <= 1,
                0 <= i < k,
        ;
        assert(ray_clear(s, d, occ, k - 1));
        assert forall|j: int| 1 <= j <= i implies !bit(occ, #[trigger] ray_sq(s, d, j)) by {
            assert(1 <= j <= k - 1);
        }
    }
}

/// The squares a slider on `square` attacks along four directions through `occupancy`,
/// filling each ray one step at a time until every ray has stopped.
#[verifier::spinoff_prover]
#[verifier::rlimit(100)]
pub fn slide(square: u8, occupancy: u64, d0: Direction, d1: Direction, d2: Direction, d3: Direction) -> (r: u64)
    requires
        square < 64,
    ensures
        forall|u: int|
            0 <= u < 64 ==> bit(r, u) == (ray_hit(square as int, d0, occupancy, u) || ray_hit(
                square as int,
                d1,
                occupancy,
                u,
            ) || ray_hit(square as int, d2, occupancy, u) || ray_hit(square as int, d3, occupancy, u)),
{
    let ghost s = square as int;
    let ghost occ = occupancy;
    let start = <u64 as BB>::new(square);
    let mut a = start;
    let mut b = start;
    let mut c = start;
    let mut e = start;
    let free = !occupancy;
    let mut moves: u64 = 0;
    let ghost mut i: int = 0;
    proof {
        assert(s == (s / 8) * 8 + s % 8);
        assert forall|v: int| 0 <= v < 64 implies bit(start, v) == (v == ray_sq(s, d0, 0) && ray_on(s, d0, 0) && ray_clear(s, d0, occ, 0)) by {}
        assert forall|v: int| 0 <= v < 64 implies bit(start, v) == (v == ray_sq(s, d1, 0) && ray_on(s, d1, 0) && ray_clear(s, d1, occ, 0)) by {}
        assert forall|v: int| 0 <= v < 64 implies bit(start, v) == (v == ray_sq(s, d2, 0) && ray_on(s, d2, 0) && ray_clear(s, d2, occ, 0)) by {}
        assert forall|v: int| 0 <= v < 64 implies bit(start, v) == (v == ray_sq(s, d3, 0) && ray_on(s, d3, 0) && ray_clear(s, d3, occ, 0)) by {}
        assert forall|u: int| 0 <= u < 64 implies bit(moves, u) == (in_ray(s, d0, occ, u, 0) || in_ray(s, d1, occ, u, 0) || in_ray(s, d2, occ, u, 0) || in_ray(s, d3, occ, u, 0)) by {
            lemma_bit_ops(0, 0, u);
        }
    }
    while a | b | c | e != 0
        invariant
            0 <= s < 64,
            s == square,
            occ == occupancy,
            free == !occupancy,
            0 <= i <= 8,
            ray_front(s, d0, occ, i, a),
            ray_front(s, d1, occ, i, b),
            ray_front(s, d2, occ, i, c),
            ray_front(s, d3, occ, i, e),
            forall|u: int|
                0 <= u < 64 ==> bit(moves, u) == (in_ray(s, d0, occ, u, i) || in_ray(s, d1, occ, u, i)
                    || in_ray(s, d2, occ, u, i) || in_ray(s, d3, occ, u, i)),
        decreases 8 - i,
    {
        proof {
            if i == 8 {
                lemma_ray_ends(s, d0);
                lemma_ray_ends(s, d1);
                lemma_ray_ends(s, d2);
                lemma_ray_ends(s, d3);
                assert forall|t: int| 0 <= t < 64 implies bit(a, t) == bit(0u64, t) by { lemma_bit_ops(0, 0, t); }
                assert forall|t: int| 0 <= t < 64 implies bit(b, t) == bit(0u64, t) by { lemma_bit_ops(0, 0, t); }
                assert forall|t: int| 0 <= t < 64 implies bit(c, t) == bit(0u64, t) by { lemma_bit_ops(0, 0, t); }
                assert forall|t: int| 0 <= t < 64 implies bit(e, t) == bit(0u64, t) by { lemma_bit_ops(0, 0, t); }
                lemma_bits_ext(a, 0);
                lemma_bits_ext(b, 0);
                lemma_bits_ext(c, 0);
                lemma_bits_ext(e, 0);
                assert(0u64 | 0u64 | 0u64 | 0u64 == 0) by (bit_vector);
            }
            lemma_ray_advance(s, d0, occ, i, a);
            lemma_ray_advance(s, d1, occ, i, b);
            lemma_ray_advance(s, d2, occ, i, c);
            lemma_ray_advance(s, d3, occ, i, e);
        }
        a = a.shift(d0);
        b = b.shift(d1);
        c = c.shift(d2);
        e = e.shift(d3);
        let ghost old_moves = moves;
        moves |= a | b | c | e;
        proof {
            assert forall|u: int|
                0 <= u < 64 implies bit(moves, u) == (in_ray(s, d0, occ, u, i + 1) || in_ray(s, d1, occ, u, i + 1)
                || in_ray(s, d2, occ, u, i + 1) || in_ray(s, d3, occ, u, i + 1)) by {
                lemma_bit_ops(old_moves, a | b | c | e, u);
                lemma_bit_ops(a | b | c, e, u);
                lemma_bit_ops(a | b, c, u);
                lemma_bit_ops(a, b, u);
            }
        }
        a &= free;
        b &= free;
        c &= free;
        e &= free;
        proof {
            i = i + 1;
        }
    }
    proof {
        assert forall|u: int|
            0 <= u < 64 implies bit(moves, u) == (ray_hit(s, d0, occ, u) || ray_hit(s, d1, occ, u)
            || ray_hit(s, d2, occ, u) || ray_hit(s, d3, occ, u)) by {
            assert(0 <= u < 64);
            lemma_bit_ops(a | b | c, e, ray_sq(s, d3, i));
            lemma_bit_ops(a | b, c, ray_sq(s, d2, i));
            lemma_bit_ops(a, b, ray_sq(s, d1, i));
            lemma_bit_ops(a | b | c, e, ray_sq(s, d2, i));
            lemma_bit_ops(a | b | c, e, ray_sq(s, d1, i));
            lemma_bit_ops(a | b | c, e, ray_sq(s, d0, i));
            lemma_bit_ops(a | b, c, ray_sq(s, d1, i));
            lemma_bit_ops(a | b, c, ray_sq(s, d0, i));
            lemma_bit_ops(a, b, ray_sq(s, d0, i));
            lemma_bit_ops(0, 0, ray_sq(s, d0, i));
            lemma_bit_ops(0, 0, ray_sq(s, d1, i));
            lemma_bit_ops(0, 0, ray_sq(s, d2, i));
            lemma_bit_ops(0, 0, ray_sq(s, d3, i));
            if i <= 7 {
                lemma_ray_stable(s, d0, occ, i, 7, u);
                lemma_ray_stable(s, d1, occ, i, 7, u);
                lemma_ray_stable(s, d2, occ, i, 7, u);
                lemma_ray_stable(s, d3, occ, i, 7, u);
            } else {
                lemma_ray_ends(s, d0);
                lemma_ray_ends(s, d1);
                lemma_ray_ends(s, d2);
                lemma_ray_ends(s, d3);
            }
        }
    }
    moves
}

/// `t` is one king step from `s`.
pub open spec fn king_hit(s: int, t: int) -> bool {
    ||| step(s, 1, 0) == t && t >= 0
    ||| step(s, -1, 0) == t && t >= 0
    ||| step(s, 0, 1) == t && t >= 0
    ||| step(s, 0, -1) == t && t >= 0
    ||| step(s, 1, 1) == t && t >= 0
    ||| step(s, 1, -1) == t && t >= 0
    ||| step(s, -1, 1) == t && t >= 0
    ||| step(s, -1, -1) == t && t >= 0
}

/// `t` is one knight jump from `s`.
pub open spec fn knight_hit(s: int, t: int) -> bool {
    ||| step(s, 2, 1) == t && t >= 0
    ||| step(s, 2, -1) == t && t >= 0
    ||| step(s, -2, 1) == t && t >= 0
    ||| step(s, -2, -1) == t && t >= 0
    ||| step(s, 1, 2) == t && t >= 0
    ||| step(s, -1, 2) == t && t >= 0
    ||| step(s, 1, -2) == t && t >= 0
    ||| step(s, -1, -2) == t && t >= 0
}

/// A knight jump goes one file and two ranks, or two files and one rank; so a knight on
/// `a` attacks `b` exactly when one on `b` attacks `a`.
pub proof fn lemma_knight_jump(a: int, b: int)
    requires
        0 <= a < 64,
        0 <= b < 64,
    ensures
        knight_hit(a, b) == {
            let (dr, df) = (a / 8 - b / 8, a % 8 - b % 8);
            ||| (dr == 1 || dr == -1) && (df == 2 || df == -2)
            ||| (dr == 2 || dr == -2) && (df == 1 || df == -1)
        },
        knight_hit(a, b) == knight_hit(b, a),
{
    assert(a == a / 8 * 8 + a % 8);
    assert(b == b / 8 * 8 + b % 8);
}

/// `t` is a square a pawn of the given color on `s` captures on: diagonally forward,
/// up the board for white (`false`), down for black.
pub open spec fn pawn_hit(black: bool, s: int, t: int) -> bool {
    let dr = if black { -1int } else { 1int };
    ||| step(s, dr, 1) == t && t >= 0
    ||| step(s, dr, -1) == t && t >= 0
}

/// Shifting a one-square board moves its square one step, or off the board.
pub proof fn lemma_single_shift(s: int, d: Direction, t: int)
    requires
        0 <= s < 64,
        0 <= t < 64,
    ensures
        bit(shifted(single(s), d), t) == (step(s, delta(d).0, delta(d).1) == t),
{
    lemma_shifted_bit(single(s), d, t as u64);
    lemma_single(s as u64);
    assert(t == (t / 8) * 8 + t % 8);
    assert(s == (s / 8) * 8 + s % 8);
}

/// Two steps from a square, the second taken from where the first lands.
pub proof fn lemma_double_shift(s: int, d1: Direction, d2: Direction, t: int)
    requires
        0 <= s < 64,
        0 <= t < 64,
    ensures
        bit(shifted(shifted(single(s), d1), d2), t) == (step(s, delta(d1).0, delta(d1).1) >= 0 && step(
            step(s, delta(d1).0, delta(d1).1),
            delta(d2).0,
            delta(d2).1,
        ) == t),
{
    let m = step(t, -delta(d2).0, -delta(d2).1);
    lemma_shifted_bit(shifted(single(s), d1), d2, t as u64);
    if m >= 0 {
        lemma_single_shift(s, d1, m);
    }
    assert(t == (t / 8) * 8 + t % 8);
    assert(s == (s / 8) * 8 + s % 8);
    let a = step(s, delta(d1).0, delta(d1).1);
    if a >= 0 {
        assert(a == (a / 8) * 8 + a % 8);
    }
    if m >= 0 {
        assert(m == (m / 8) * 8 + m % 8);
    }
}

/// A knight jump taken as a straight step then a diagonal step away from the start.
#[verifier::spinoff_prover]
#[verifier::rlimit(40)]
pub proof fn lemma_knight_pair(s: int, d1: Direction, d2: Direction, t: int)
    requires
        0 <= s < 64,
        0 <= t < 64,
        (d1, d2) == (Direction::N, Direction::NE) || (d1, d2) == (Direction::N, Direction::NW) || (
        d1, d2) == (Direction::S, Direction::SW) || (d1, d2) == (Direction::S, Direction::SE) || (d1,
        d2) == (Direction::E, Direction::NE) || (d1, d2) == (Direction::E, Direction::SE) || (d1, d2)
            == (Direction::W, Direction::NW) || (d1, d2) == (Direction::W, Direction::SW),
    ensures
        bit(shifted(shifted(single(s), d1), d2), t) == (step(
            s,
            delta(d1).0 + delta(d2).0,
            delta(d1).1 + delta(d2).1,
        ) == t),
{
    lemma_double_shift(s, d1, d2, t);
}

/// `t` lies strictly between squares `a` and `b` on a rank, file or diagonal they share.
pub open spec fn between(a: int, b: int, t: int) -> bool {
    let (ra, fa, rb, fb, rt, ft) = (a / 8, a % 8, b / 8, b % 8, t / 8, t % 8);
    let lo_r = if ra < rb { ra } else { rb };
    let hi_r = if ra < rb { rb } else { ra };
    let lo_f = if fa < fb { fa } else { fb };
    let hi_f = if fa < fb { fb } else { fa };
    &&& 0 <= t < 64
    &&& {
        ||| (ra == rb && rt == ra && lo_f < ft < hi_f)
        ||| (fa == fb && ft == fa && lo_r < rt < hi_r)
        ||| (ra - fa == rb - fb && rt - ft == ra - fa && lo_r < rt < hi_r)
        ||| (ra + fa == rb + fb && rt + ft == ra + fa && lo_r < rt < hi_r)
    }
}

/// The branch-free computation of the squares between two squares (the line through
/// them, masked to the index range between them), in wrapping arithmetic.
pub open spec fn between_bits(a: u64, b: u64) -> u64 {
    let btwn = (0xffff_ffff_ffff_ffffu64 << a) ^ (0xffff_ffff_ffff_ffffu64 << b);
    let file = ((((b & 7) - (a & 7)) as u8) as u64);
    let rank = (((((b | 7) - a) as u8) >> 3u8) as u64);
    let l1 = (((file & 7) - 1) as u64) & 0x0001010101010100u64;
    let l2 = (l1 + 2 * ((((rank & 7) - 1) as u64) >> 58u64)) as u64;
    let l3 = (l2 + (((((rank - file) as u64) & 15) - 1) as u64 & 0x0040201008040200u64)) as u64;
    let l4 = (l3 + (((((rank + file) as u64) & 15) - 1) as u64 & 0x0002040810204080u64)) as u64;
    let low = btwn & ((0 - btwn) as u64);
    ((l4 * low) as u64) & btwn
}

} // verus!
