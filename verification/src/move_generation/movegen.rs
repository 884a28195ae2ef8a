use vstd::prelude::*;
use crate::board_state::bitboard::{
    bishop_hit, bit, count, count_ones, king_hit, knight_hit, lemma_bit_ops, lemma_bits_ext, lemma_lowest, lemma_single, lowest,
    pawn_hit, rook_hit, rotl, shifted, single, Bitboard, Direction, BB,
};
use crate::board_state::board::Board;
use crate::board_state::zobrist::Zobrist;
use crate::board_state::typedefs::{Color, Piece, Square, BISHOP, KING, KNIGHT, PAWN, QUEEN, ROOK};
use crate::movegen::atks::{bishop_attacks, rook_attacks};
use super::action::{
    capture_of, from_of, piece_of, promo_of, to_of, type_of, Action, Move, CASTLE, NORMAL, PASSANT,
    PROMOTION,
};
use super::list::List;
use super::makemove::passant_victim;
use super::masks::{king_attacks_from, knight_attacks_from, pawn_attacks_from};
use super::legality::{
    diag_line, lemma_bishop_hit_iff, lemma_castle_safe, lemma_king_step_safe, lemma_one_pin,
    lemma_passant_keeps_kings, lemma_pin_between, lemma_pin_target, lemma_pinned_double_push,
    lemma_pinned_step, lemma_played_same,
    lemma_quiet_safe_move, lemma_rook_hit_iff, legal_position, legal_targets, one_king, orth_line,
    pin_ok,
};

verus! {

pub const BLOCK_OCCUPIED_KINGSIDE: [Bitboard; 2] = [0x60, 0x6000000000000000];
pub const BLOCK_OCCUPIED_QUEENSIDE: [Bitboard; 2] = [0xe, 0xe00000000000000];
pub const BLOCK_CHECKED_KINGSIDE: [Bitboard; 2] = [0x70, 0x7000000000000000];
pub const BLOCK_CHECKED_QUEENSIDE: [Bitboard; 2] = [0x1c, 0x1c00000000000000];

/// `b` holds exactly the squares where `f` holds.
pub open spec fn holds_bits(b: u64, f: spec_fn(int) -> bool) -> bool {
    forall|t: int| 0 <= t < 64 ==> #[trigger] bit(b, t) == f(t)
}

/// The bitboard holding exactly the squares where `f` holds.
pub open spec fn bits_of(f: spec_fn(int) -> bool) -> u64 {
    choose|b: u64| holds_bits(b, f)
}

/// A bitboard whose squares are those where `f` holds is `bits_of(f)`.
pub proof fn lemma_bits_of(r: u64, f: spec_fn(int) -> bool)
    requires
        forall|t: int| 0 <= t < 64 ==> #[trigger] bit(r, t) == f(t),
    ensures
        r == bits_of(f),
{
    assert(holds_bits(r, f));
    let b = bits_of(f);
    assert(holds_bits(b, f));
    lemma_bits_ext(r, b);
}

pub open spec fn knight_set(s: int) -> u64 {
    bits_of(|t: int| knight_hit(s, t))
}

pub open spec fn king_set(s: int) -> u64 {
    bits_of(|t: int| king_hit(s, t))
}

pub open spec fn pawn_set(black: bool, s: int) -> u64 {
    bits_of(|t: int| pawn_hit(black, s, t))
}

pub open spec fn bishop_set(s: int, occ: u64) -> u64 {
    bits_of(|t: int| bishop_hit(s, occ, t))
}

pub open spec fn rook_set(s: int, occ: u64) -> u64 {
    bits_of(|t: int| rook_hit(s, occ, t))
}

/// The union of `f(s)` over the squares `s` of `pieces`.
pub open spec fn union_of(pieces: u64, f: spec_fn(int) -> u64) -> u64 {
    bits_of(|t: int| exists|s: int| 0 <= s < 64 && bit(pieces, s) && #[trigger] bit(f(s), t))
}

/// The attack sets a knight, a bishop or a rook has from each square.
pub open spec fn kind_set(kind: u8, occ: u64) -> spec_fn(int) -> u64 {
    |s: int| if kind == KNIGHT {
        knight_set(s)
    } else if kind == BISHOP {
        bishop_set(s, occ)
    } else {
        rook_set(s, occ)
    }
}

/// The squares attacked from the squares of `pieces` by a knight, a bishop or a rook.
fn attack_union(pieces: Bitboard, kind: u8, occ: Bitboard) -> (r: Bitboard)
    requires
        kind == KNIGHT || kind == BISHOP || kind == ROOK,
    ensures
        r == union_of(pieces, kind_set(kind, occ)),
{
    let ghost f = kind_set(kind, occ);
    let mut base: Bitboard = 0;
    let mut rest = pieces;
    proof {
        assert forall|t: int| 0 <= t < 64 implies #[trigger] bit(base, t) == exists|s: int|
            0 <= s < 64 && bit(pieces, s) && !bit(rest, s) && #[trigger] bit(f(s), t) by {
            lemma_bit_ops(0, 0, t);
        }
    }
    while rest != 0
        invariant
            f == kind_set(kind, occ),
            kind == KNIGHT || kind == BISHOP || kind == ROOK,
            forall|s: int| bit(rest, s) ==> bit(pieces, s),
            forall|t: int|
                0 <= t < 64 ==> #[trigger] bit(base, t) == exists|s: int|
                    0 <= s < 64 && bit(pieces, s) && !bit(rest, s) && #[trigger] bit(f(s), t),
        decreases count(rest),
    {
        let ghost old_rest = rest;
        let ghost old_base = base;
        let sqr = rest.pop_lsb();
        let a = if kind == KNIGHT {
            knight_attacks_from(sqr)
        } else if kind == BISHOP {
            bishop_attacks(sqr, occ)
        } else {
            rook_attacks(sqr, occ)
        };
        proof {
            if kind == KNIGHT {
                lemma_bits_of(a, |t: int| knight_hit(sqr as int, t));
            } else if kind == BISHOP {
                lemma_bits_of(a, |t: int| bishop_hit(sqr as int, occ, t));
            } else {
                lemma_bits_of(a, |t: int| rook_hit(sqr as int, occ, t));
            }
            assert(a == f(sqr as int));
            crate::board_state::bitboard::lemma_count_pop(old_rest);
        }
        base = base | a;
        proof {
            assert forall|t: int| 0 <= t < 64 implies #[trigger] bit(base, t) == exists|s: int|
                0 <= s < 64 && bit(pieces, s) && !bit(rest, s) && #[trigger] bit(f(s), t) by {
                lemma_bit_ops(old_base, a, t);
                if bit(a, t) {
                    assert(bit(f(sqr as int), t));
                }
            }
        }
    }
    proof {
        let g = |t: int| exists|s: int| 0 <= s < 64 && bit(pieces, s) && #[trigger] bit(f(s), t);
        assert forall|t: int| 0 <= t < 64 implies #[trigger] bit(base, t) == g(t) by {
            lemma_bit_ops(0, 0, t);
            assert(rest == 0);
        }
        lemma_bits_of(base, g);
    }
    base
}

impl Board {
    /// The pieces of a type and color.
    pub open spec fn of(&self, p: int, c: Color) -> u64 {
        self.pbb(p) & self.cbb(c)
    }

    pub open spec fn diagonals(&self, c: Color) -> u64 {
        (self.pbb(5) | self.pbb(3)) & self.cbb(c)
    }

    pub open spec fn orthogonals(&self, c: Color) -> u64 {
        (self.pbb(5) | self.pbb(4)) & self.cbb(c)
    }

    /// The squares `color` attacks when the sliders see the board as `occ`: the pawns'
    /// diagonal steps forward, the knights', the sliders' and the (lowest) king's attacks.
    pub open spec fn attack_mask(&self, color: Color, occ: u64) -> u64 {
        let pawns = self.of(PAWN as int, color);
        let fwd = if color { rotl(pawns, 56) } else { rotl(pawns, 8) };
        ((((shifted(fwd, Direction::E) | shifted(fwd, Direction::W)) | union_of(
            self.of(KNIGHT as int, color),
            kind_set(KNIGHT, occ),
        )) | union_of(self.diagonals(color), kind_set(BISHOP, occ))) | union_of(
            self.orthogonals(color),
            kind_set(ROOK, occ),
        )) | king_set(lowest(self.of(KING as int, color)))
    }

    /// The pieces of `attacking_color` that attack `square`.
    pub open spec fn attackers(&self, square: int, attacking_color: Color) -> u64 {
        let occ = self.occ();
        ((((self.of(KING as int, attacking_color) & king_set(square)) | (self.of(
            PAWN as int,
            attacking_color,
        ) & pawn_set(!attacking_color, square))) | (self.of(KNIGHT as int, attacking_color)
            & knight_set(square))) | (self.orthogonals(attacking_color) & rook_set(square, occ)))
            | (self.diagonals(attacking_color) & bishop_set(square, occ))
    }

    pub fn generate_atk_mask(&self, color: Color, occupancy_mask: Bitboard) -> (r: Bitboard)
        requires
            self.of(KING as int, color) != 0,
        ensures
            r == self.attack_mask(color, occupancy_mask),
    {
        let mut base: Bitboard = 0;
        let pawnbitboards = self.get_pieces(PAWN, color);
        let shifted_forward = pawnbitboards.forward(color);
        base |= shifted_forward.shift(Direction::E) | shifted_forward.shift(Direction::W);
        proof {
            crate::board_state::bitboard::lemma_xor(0, 0, 0);
            assert(base == 0 | (shifted(shifted_forward, Direction::E) | shifted(shifted_forward, Direction::W)));
            lemma_or_zero(shifted(shifted_forward, Direction::E) | shifted(shifted_forward, Direction::W));
        }

        let knightbitboards = self.get_pieces(KNIGHT, color);
        base |= attack_union(knightbitboards, KNIGHT, occupancy_mask);

        let bishop_bb = self.get_diagonal_sliders(color);
        base |= attack_union(bishop_bb, BISHOP, occupancy_mask);

        let rook_bb = self.get_orthogonal_sliders(color);
        base |= attack_union(rook_bb, ROOK, occupancy_mask);

        let kingmask = self.get_pieces(KING, color);
        let sqr = kingmask.lsb();
        let king_atk = king_attacks_from(sqr);
        proof {
            lemma_bits_of(king_atk, |t: int| king_hit(sqr as int, t));
        }
        base |= king_atk;
        base
    }

    /// Whether `attacking_color` attacks `square`.
    pub fn is_attacked(&self, square: Square, attacking_color: Color) -> (r: bool)
        requires
            square < 64,
        ensures
            r == (self.attackers(square as int, attacking_color) != 0),
    {
        let occupancy = self.get_occupancy();

        let kingattack = king_attacks_from(square);
        let pawnattack = pawn_attacks_from(square, !attacking_color);
        let knightattack = knight_attacks_from(square);
        let bishopattack = bishop_attacks(square, occupancy);
        let rookattack = rook_attacks(square, occupancy);
        proof {
            lemma_bits_of(kingattack, |t: int| king_hit(square as int, t));
            lemma_bits_of(pawnattack, |t: int| pawn_hit(!attacking_color, square as int, t));
            lemma_bits_of(knightattack, |t: int| knight_hit(square as int, t));
            lemma_bits_of(bishopattack, |t: int| bishop_hit(square as int, occupancy, t));
            lemma_bits_of(rookattack, |t: int| rook_hit(square as int, occupancy, t));
        }

        let kings = self.get_pieces(KING, attacking_color);
        let pawns = self.get_pieces(PAWN, attacking_color);
        let knights = self.get_pieces(KNIGHT, attacking_color);
        let orthogonals = self.get_orthogonal_sliders(attacking_color);
        let diagonals = self.get_diagonal_sliders(attacking_color);

        (kings & kingattack) | (pawns & pawnattack) | (knights & knightattack) | (orthogonals
            & rookattack) | (diagonals & bishopattack) != 0
    }

    /// Whether the (lowest) king of `color` is attacked.
    pub fn incheck(&self, color: Color) -> (r: bool)
        requires
            self.of(KING as int, color) != 0,
        ensures
            r == (self.attackers(lowest(self.of(KING as int, color)), !color) != 0),
    {
        let relevant_king_square = self.get_pieces(KING, color).lsb();
        self.is_attacked(relevant_king_square, !color)
    }

    /// The pieces giving check to the side to move, by jumping (knights and pawns) and by
    /// sliding.
    pub open spec fn jumpers(&self) -> u64 {
        let k = lowest(self.of(KING as int, self.tomove));
        let enemy = !self.tomove;
        (knight_set(k) & self.of(KNIGHT as int, enemy)) | (pawn_set(self.tomove, k) & self.of(
            PAWN as int,
            enemy,
        ))
    }

    pub open spec fn sliders(&self) -> u64 {
        let k = lowest(self.of(KING as int, self.tomove));
        let enemy = !self.tomove;
        (bishop_set(k, self.occ()) & self.diagonals(enemy)) | (rook_set(k, self.occ())
            & self.orthogonals(enemy))
    }

    /// The squares a non-king move must go to when in check: anywhere when not in check,
    /// nowhere in double check, else the checker's square and the squares between a
    /// sliding checker and the king.
    pub open spec fn check_mask(&self) -> u64 {
        let k = lowest(self.of(KING as int, self.tomove));
        let n = count(self.jumpers() | self.sliders());
        if n > 1 {
            0
        } else if n == 1 {
            if self.sliders() != 0 {
                crate::board_state::bitboard::between_bits(lowest(self.sliders()) as u64, k as u64)
                    | self.sliders()
            } else {
                self.jumpers()
            }
        } else {
            0xffff_ffff_ffff_ffff
        }
    }

    pub fn check_for_legalmoves(&self) -> (r: Bitboard)
        requires
            self.of(KING as int, self.tomove) != 0,
        ensures
            r == self.check_mask(),
    {
        let occupancy = self.get_occupancy();
        let myking = self.get_pieces(KING, self.tomove);

        let curr_king_sqr = myking.lsb();
        let enemy = !self.tomove;
        let knight_atk = knight_attacks_from(curr_king_sqr);
        let pawn_atk = pawn_attacks_from(curr_king_sqr, self.tomove);
        let bishop_atk = bishop_attacks(curr_king_sqr, occupancy);
        let rook_atk = rook_attacks(curr_king_sqr, occupancy);
        proof {
            lemma_bits_of(knight_atk, |t: int| knight_hit(curr_king_sqr as int, t));
            lemma_bits_of(pawn_atk, |t: int| pawn_hit(self.tomove, curr_king_sqr as int, t));
            lemma_bits_of(bishop_atk, |t: int| bishop_hit(curr_king_sqr as int, occupancy, t));
            lemma_bits_of(rook_atk, |t: int| rook_hit(curr_king_sqr as int, occupancy, t));
        }
        let knight_attackers = knight_atk & self.get_pieces(KNIGHT, enemy);
        let pawn_attackers = pawn_atk & self.get_pieces(PAWN, enemy);

        let jumpers = knight_attackers | pawn_attackers;

        let bishop_attackers = bishop_atk & self.get_diagonal_sliders(enemy);

        let rook_attackers = rook_atk & self.get_orthogonal_sliders(enemy);

        let sliders = bishop_attackers | rook_attackers;

        let num_checkers = count_ones(jumpers | sliders);
        if num_checkers > 1 {
            0
        } else if num_checkers == 1 {
            if sliders != 0 {
                let btwn = in_between_rays(sliders.lsb(), curr_king_sqr);
                btwn | sliders
            } else {
                jumpers
            }
        } else {
            0xffff_ffff_ffff_ffff
        }
    }

    /// The rays from the king through one piece of its own to an enemy slider: each such
    /// slider and the squares between it and the king. `diagonal` picks bishops' rays
    /// (with queens) or rooks' rays (with queens).
    pub open spec fn pin_mask(&self, diagonal: bool) -> u64 {
        let k = lowest(self.of(KING as int, self.tomove));
        let occ = self.occ();
        let own = self.cbb(self.tomove);
        let enemy = self.cbb(!self.tomove);
        let kind: u8 = if diagonal { BISHOP } else { ROOK };
        let sliders = if diagonal { self.diagonals(!self.tomove) } else { self.orthogonals(!self.tomove) };
        let seen = kind_set(kind, occ)(k);
        let behind = (kind_set(kind, (own & !seen) | enemy)(k)) & sliders;
        behind | union_of(behind, |s: int| crate::board_state::bitboard::between_bits(k as u64, s as u64))
    }

    pub fn generate_bishop_pins(&self) -> (r: Bitboard)
        requires
            self.of(KING as int, self.tomove) != 0,
        ensures
            r == self.pin_mask(true),
    {
        self.generate_pins(true)
    }

    pub fn generate_rook_pins(&self) -> (r: Bitboard)
        requires
            self.of(KING as int, self.tomove) != 0,
        ensures
            r == self.pin_mask(false),
    {
        self.generate_pins(false)
    }

    fn generate_pins(&self, diagonal: bool) -> (r: Bitboard)
        requires
            self.of(KING as int, self.tomove) != 0,
        ensures
            r == self.pin_mask(diagonal),
    {
        let kingsquare = self.get_pieces(KING, self.tomove).lsb();

        let mut mypieces = self.color_index(self.tomove);
        let enemypieces = self.color_index(!self.tomove);
        let occ = self.get_occupancy();
        let kind = if diagonal { BISHOP } else { ROOK };

        let xray_attacks = slider_attacks(kingsquare, occ, kind);
        mypieces &= !xray_attacks;

        let sliders = if diagonal {
            self.get_diagonal_sliders(!self.tomove)
        } else {
            self.get_orthogonal_sliders(!self.tomove)
        };
        let mut new_attackers = slider_attacks(kingsquare, mypieces | enemypieces, kind) & sliders;
        let ghost behind = new_attackers;
        let ghost f = |s: int| crate::board_state::bitboard::between_bits(kingsquare as u64, s as u64);
        let mut pinmask = new_attackers;
        let mut rays: Bitboard = 0;
        proof {
            lemma_or_zero(behind);
            assert forall|t: int| 0 <= t < 64 implies #[trigger] bit(rays, t) == exists|s: int|
                0 <= s < 64 && bit(behind, s) && !bit(new_attackers, s) && #[trigger] bit(f(s), t) by {
                lemma_bit_ops(0, 0, t);
            }
        }
        while new_attackers != 0
            invariant
                kingsquare < 64,
                f == (|s: int| crate::board_state::bitboard::between_bits(kingsquare as u64, s as u64)),
                pinmask == behind | rays,
                forall|s: int| bit(new_attackers, s) ==> bit(behind, s),
                forall|t: int|
                    0 <= t < 64 ==> #[trigger] bit(rays, t) == exists|s: int|
                        0 <= s < 64 && bit(behind, s) && !bit(new_attackers, s) && #[trigger] bit(f(s), t),
            decreases count(new_attackers),
        {
            let ghost old_rest = new_attackers;
            let ghost old_rays = rays;
            let sqr2 = new_attackers.pop_lsb();
            let line = in_between_rays(kingsquare, sqr2);
            proof {
                crate::board_state::bitboard::lemma_count_pop(old_rest);
                assert(line == f(sqr2 as int));
                lemma_or_assoc(behind, old_rays, line);
            }
            rays = rays | line;
            pinmask |= line;
            proof {
                assert forall|t: int| 0 <= t < 64 implies #[trigger] bit(rays, t) == exists|s: int|
                    0 <= s < 64 && bit(behind, s) && !bit(new_attackers, s) && #[trigger] bit(f(s), t) by {
                    lemma_bit_ops(old_rays, line, t);
                    if bit(line, t) {
                        assert(bit(f(sqr2 as int), t));
                    }
                }
            }
        }
        proof {
            let g = |t: int| exists|s: int| 0 <= s < 64 && bit(behind, s) && #[trigger] bit(f(s), t);
            assert forall|t: int| 0 <= t < 64 implies #[trigger] bit(rays, t) == g(t) by {
                lemma_bit_ops(0, 0, t);
            }
            lemma_bits_of(rays, g);
            assert(f == (|s: int| crate::board_state::bitboard::between_bits(kingsquare as u64, s as u64)));
        }
        pinmask
    }
}

/// A bishop's or a rook's attacks from `square` on the board `occ`.
fn slider_attacks(square: Square, occ: Bitboard, kind: u8) -> (r: Bitboard)
    requires
        square < 64,
    ensures
        r == kind_set(if kind == BISHOP { BISHOP } else { ROOK }, occ)(square as int),
{
    if kind == BISHOP {
        let r = bishop_attacks(square, occ);
        proof {
            lemma_bits_of(r, |t: int| bishop_hit(square as int, occ, t));
        }
        r
    } else {
        let r = rook_attacks(square, occ);
        proof {
            lemma_bits_of(r, |t: int| rook_hit(square as int, occ, t));
        }
        r
    }
}

/// The squares strictly between each pair of squares.
pub fn generate_inbetweens() -> (r: Vec<Vec<Bitboard>>)
    ensures
        r@.len() == 64,
        forall|a: int| 0 <= a < 64 ==> #[trigger] r@[a]@.len() == 64,
        forall|a: int, b: int|
            0 <= a < 64 && 0 <= b < 64 ==> #[trigger] r@[a]@[b]
                == crate::board_state::bitboard::between_bits(a as u64, b as u64),
{
    let mut inbetweens: Vec<Vec<Bitboard>> = Vec::new();
    for sqr1 in 0..64u8
        invariant
            inbetweens@.len() == sqr1,
            forall|a: int| 0 <= a < sqr1 ==> #[trigger] inbetweens@[a]@.len() == 64,
            forall|a: int, b: int|
                0 <= a < sqr1 && 0 <= b < 64 ==> #[trigger] inbetweens@[a]@[b]
                    == crate::board_state::bitboard::between_bits(a as u64, b as u64),
    {
        let mut row: Vec<Bitboard> = Vec::new();
        for sqr2 in 0..64u8
            invariant
                sqr1 < 64,
                row@.len() == sqr2,
                forall|b: int|
                    0 <= b < sqr2 ==> #[trigger] row@[b] == crate::board_state::bitboard::between_bits(
                        sqr1 as u64,
                        b as u64,
                    ),
        {
            row.push(in_between_rays(sqr1, sqr2));
        }
        inbetweens.push(row);
    }
    inbetweens
}

/// The squares strictly between two squares on a line, and none when they share no line.
fn in_between_rays(square1: Square, square2: Square) -> (r: Bitboard)
    requires
        square1 < 64,
        square2 < 64,
    ensures
        r == crate::board_state::bitboard::between_bits(square1 as u64, square2 as u64),
{
    crate::movegen::atks::in_between_rays(square1, square2)
}

proof fn lemma_or_zero(a: u64)
    by (bit_vector)
    ensures
        0 | a == a,
        a | 0 == a,
{
}

proof fn lemma_or_assoc(a: u64, b: u64, c: u64)
    by (bit_vector)
    ensures
        (a | b) | c == a | (b | c),
{
}

/// The most moves a generated list holds.
pub const MAX_MOVES: usize = 256;

pub type MoveList = List<Move, 256>;

/// A sequence of moves as a generated list keeps it: its first `MAX_MOVES` moves.
pub open spec fn capped(s: Seq<Move>) -> Seq<Move> {
    if s.len() <= MAX_MOVES {
        s
    } else {
        s.take(MAX_MOVES as int)
    }
}

/// Cutting a sequence short before appending more, then cutting again, cuts once.
pub proof fn lemma_capped_twice(x: Seq<Move>, y: Seq<Move>)
    ensures
        capped(capped(x) + y) == capped(x + y),
{
    if x.len() > MAX_MOVES {
        assert(capped(capped(x) + y) =~= capped(x + y));
    } else {
        assert(capped(x) + y =~= x + y);
    }
}

/// Appending one move to a list that keeps its first `MAX_MOVES` moves, then more, is
/// appending both.
pub proof fn lemma_capped_push(l: Seq<Move>, m: Move, rest: Seq<Move>)
    ensures
        capped(capped(l.push(m)) + rest) == capped(l + (seq![m] + rest)),
{
    lemma_capped_twice(l.push(m), rest);
    assert(l.push(m) + rest =~= l + (seq![m] + rest));
}

/// A list that keeps the first `MAX_MOVES` of some moves, once more are appended to it and
/// it is cut again, keeps the first `MAX_MOVES` of all of them.
pub proof fn lemma_extend(before: Seq<Move>, acc: Seq<Move>, x: Seq<Move>, after: Seq<Move>)
    requires
        before == capped(acc),
        after == capped(before + x),
    ensures
        after == capped(acc + x),
{
    lemma_capped_twice(acc, x);
}

/// Appending is associative.
pub proof fn lemma_seq_assoc(a: Seq<Move>, b: Seq<Move>, c: Seq<Move>)
    ensures
        a + b + c == a + (b + c),
        a + Seq::<Move>::empty() == a,
        Seq::<Move>::empty() + a == a,
{
    assert(a + b + c =~= a + (b + c));
    assert(a + Seq::<Move>::empty() =~= a);
    assert(Seq::<Move>::empty() + a =~= a);
}

/// A move of `piece` from `from` to `to` as the generator builds it, of the given type,
/// flagged as a capture when `capture` is set.
pub open spec fn built_move(from: int, to: int, movetype: int, piece: int, capture: bool) -> Move {
    let m = (from as u32) | ((to as u32) << 6) | ((movetype as u32) << 12) | ((piece as u32) << 16);
    if capture {
        m | (1u32 << 19)
    } else {
        m
    }
}

/// The moves of `piece` from `from` to each square of `targets`, lowest square first,
/// flagged as captures when `capture` is set.
pub open spec fn target_moves(from: int, targets: u64, piece: int, capture: bool) -> Seq<Move>
    decreases count(targets),
{
    if targets == 0 {
        Seq::empty()
    } else {
        proof {
            crate::board_state::bitboard::lemma_count_pop(targets);
        }
        seq![built_move(from, lowest(targets), NORMAL as int, piece, capture)] + target_moves(
            from,
            targets & ((targets - 1) as u64),
            piece,
            capture,
        )
    }
}

/// The promotions of a pawn move: with `captures` to a queen, with `quiets` to a rook, a
/// knight and a bishop, in that order.
pub open spec fn promotions(m: Move, captures: bool, quiets: bool) -> Seq<Move> {
    (if captures {
        seq![m | (3u32 << 14)]
    } else {
        Seq::empty()
    }) + (if quiets {
        seq![m | (2u32 << 14), m | (0u32 << 14), m | (1u32 << 14)]
    } else {
        Seq::empty()
    })
}

/// The four castling moves: white and black, kingside and queenside.
pub const KINGSIDE_CASTLES: [Move; 2] = [397700, 401340];
pub const QUEENSIDE_CASTLES: [Move; 2] = [397444, 401084];

/// A pawn push of the given color from `f` to `t`: one rank forward (the board's rows
/// wrapping around, as the rotation that computes it does), or two ranks forward from the
/// second rank over an empty square.
pub open spec fn pawn_push(black: bool, f: int, t: int, occ: u64) -> bool {
    if black {
        t == (f + 56) % 64 || (48 <= f < 56 && t == f - 16 && !bit(occ, f - 8))
    } else {
        t == (f + 8) % 64 || (8 <= f < 16 && t == f + 16 && !bit(occ, f + 8))
    }
}

/// A piece on `s` of the walked kind going to `t` keeps to the pins: it is pinned along no
/// line, or it is a bishop (a rook) pinned along a diagonal (a rank or file) going to a
/// square on a diagonal (a rank or file) through the king.
pub open spec fn pin_group_ok(b: Board, kind: u8, s: int, t: int) -> bool {
    let (rp, bp) = (b.pin_mask(false), b.pin_mask(true));
    let k = lowest(b.of(KING as int, b.tomove));
    ||| !bit(rp, s) && !bit(bp, s)
    ||| kind == BISHOP && bit(bp, s) && !bit(rp, s) && diag_line(k, t) && t != k
    ||| kind == ROOK && bit(rp, s) && !bit(bp, s) && orth_line(k, t) && t != k
}

impl Board {
    /// Piece type `p` on `f` can go to `t` by its way of moving: a knight jumps, a bishop
    /// or rook slides along an open diagonal or line (a queen along either), a king steps,
    /// a pawn takes diagonally forward (`capture`) or pushes.
    pub open spec fn reaches(&self, p: int, f: int, t: int, capture: bool) -> bool {
        if p == KNIGHT {
            knight_hit(f, t)
        } else if p == BISHOP {
            bishop_hit(f, self.occ(), t)
        } else if p == ROOK {
            rook_hit(f, self.occ(), t)
        } else if p == QUEEN {
            bishop_hit(f, self.occ(), t) || rook_hit(f, self.occ(), t)
        } else if p == KING {
            king_hit(f, t)
        } else if capture {
            pawn_hit(self.tomove, f, t)
        } else {
            pawn_push(self.tomove, f, t, self.occ())
        }
    }

    /// The square of the mover's king once move `m` is played: the target of a king step
    /// or a castling, else where the (lowest) king stands.
    pub open spec fn king_square_after(&self, m: Move) -> int {
        if (type_of(m) == NORMAL && piece_of(m) == KING) || type_of(m) == CASTLE {
            to_of(m)
        } else {
            lowest(self.of(KING as int, self.tomove))
        }
    }

    /// Once move `m` is played, whatever consistent board it gives, the mover's king is not
    /// attacked.
    pub open spec fn king_safe_after(&self, m: Move) -> bool {
        forall|nb: Board|
            nb.wf() && #[trigger] nb.played(self, m) ==> nb.attackers(self.king_square_after(m), !self.tomove) == 0
    }

    /// A move the generator may give: a castling move of the side to move, or a move of one
    /// of its pieces from where that piece stands, by that piece's way of moving, to a
    /// square it does not occupy, flagged as a capture exactly when an enemy piece stands
    /// there; en passant goes to the en passant square, and only pawns promote or take en
    /// passant. The move leaves the mover's king unattacked: a king step whenever the enemy
    /// has one king, a castling whenever besides the king stands on its square, en passant
    /// always, any move but a castling in a position play can reach.
    pub open spec fn sound_move(&self, m: Move) -> bool {
        let (f, t, p) = (from_of(m), to_of(m), piece_of(m));
        let ci: int = if self.tomove { 1 } else { 0 };
        if type_of(m) == CASTLE {
            &&& (m == KINGSIDE_CASTLES[ci] || m == QUEENSIDE_CASTLES[ci])
            &&& (one_king(*self, !self.tomove) && bit(self.of(KING as int, self.tomove), from_of(m)))
                ==> self.king_safe_after(m)
        } else {
            &&& 1 <= p <= 6
            &&& self.own_at(f, p)
            &&& self.reaches(p, f, t, capture_of(m) || type_of(m) == PASSANT)
            &&& (type_of(m) == NORMAL && p == KING && one_king(*self, !self.tomove)) ==> self.king_safe_after(m)
            &&& type_of(m) == PASSANT ==> self.king_safe_after(m)
            &&& legal_position(*self) ==> self.king_safe_after(m)
            &&& !bit(self.cbb(self.tomove), t)
            &&& (type_of(m) == PROMOTION || type_of(m) == PASSANT) ==> p == PAWN
            &&& type_of(m) == PROMOTION ==> 2 <= promo_of(m) <= 5
            &&& type_of(m) == PASSANT ==> self.passant_square == Some(t as u8) && !capture_of(m)
            &&& type_of(m) != PASSANT ==> capture_of(m) == bit(self.cbb(!self.tomove), t)
        }
    }

    /// A generated move other than a castling or an en passant capture fits the board:
    /// `do_move` can play it.
    pub proof fn lemma_sound_fits(&self, m: Move)
        requires
            self.wf(),
            self.sound_move(m),
            type_of(m) == NORMAL || type_of(m) == PROMOTION,
        ensures
            self.fits(m),
    {
        let (f, t) = (from_of(m), to_of(m));
        self.lemma_wf_square(t);
        assert(self.sq_ok(t));
        lemma_bit_ops(self.colors[0], self.colors[1], t);
        assert(f != t) by {
            assert(f == f / 8 * 8 + f % 8);
        }
        if !capture_of(m) {
            assert forall|i: int| 0 <= i < 6 implies !bit(#[trigger] self.pieces[i], t) by {
                if bit(self.pieces[i], t) {
                    assert(self.sq_ok(t));
                }
            }
        }
    }

    /// The en passant square, when there is one, is empty, with a pawn of the side that
    /// just moved on the square past it.
    pub open spec fn passant_ok(&self) -> bool {
        self.passant_square matches Some(s) ==> {
            &&& self.vacant(s as int)
            &&& bit(self.pbb(1), passant_victim(s as int))
            &&& bit(self.cbb(!self.tomove), passant_victim(s as int))
        }
    }

    /// A generated en passant capture fits the board where the en passant square is
    /// consistent: `do_move` can play it.
    pub proof fn lemma_sound_passant_fits(&self, m: Move)
        requires
            self.wf(),
            self.passant_ok(),
            self.sound_move(m),
            type_of(m) == PASSANT,
        ensures
            self.fits(m),
    {
        let (f, t) = (from_of(m), to_of(m));
        let v = passant_victim(t);
        assert(self.passant_square == Some(t as u8));
        assert(0 <= t < 64);
        assert(v == passant_victim((t as u8) as int));
        if f == v {
            self.lemma_wf_square(f);
            assert(self.sq_ok(f));
            assert(bit(self.cbb(self.tomove), f) && bit(self.cbb(!self.tomove), f));
            if self.tomove {
                assert(bit(self.colors[1], f) && bit(self.colors[0], f));
            } else {
                assert(bit(self.colors[0], f) && bit(self.colors[1], f));
            }
        }
        assert(f != t) by {
            assert(self.vacant(t));
            assert(bit(self.cbb(self.tomove), f));
            if self.tomove {
                assert(bit(self.colors[1], f));
            } else {
                assert(bit(self.colors[0], f));
            }
        }
    }

    pub open spec fn all_sound(&self, moves: Seq<Move>) -> bool {
        forall|i: int| 0 <= i < moves.len() ==> #[trigger] self.sound_move(moves[i])
    }

    /// Whether `square` holds a queen, as 1 or 0.
    fn queen_bit(&self, square: Square) -> (r: u8)
        requires
            square < 64,
        ensures
            r == if bit(self.pbb(5), square as int) { 1u8 } else { 0u8 },
    {
        let b = (<Bitboard as BB>::new(square) & self.piece_index(QUEEN)) >> square;
        proof {
            crate::board_state::bitboard::lemma_bitv_exec(self.pbb(5), square as u64);
            lemma_queen_bit(self.pbb(5), square as u64);
        }
        b as u8
    }
}

proof fn lemma_queen_bit(q: u64, s: u64)
    by (bit_vector)
    requires
        s < 64,
    ensures
        ((1u64 << s) & q) >> s == (q >> s) & 1,
{
}

/// Appends a move while the list has room.
fn push_move(list: &mut MoveList, m: Move)
    requires
        old(list).wf(),
    ensures
        final(list).wf(),
        final(list)@ == if old(list)@.len() < MAX_MOVES {
            old(list)@.push(m)
        } else {
            old(list)@
        },
        final(list)@ == capped(old(list)@.push(m)),
{
    proof {
        if old(list)@.len() >= MAX_MOVES {
            assert(old(list)@.push(m).take(MAX_MOVES as int) =~= old(list)@);
        }
    }
    if list.length < MAX_MOVES {
        list.push(m);
    }
}

/// Appends a move of `piece` from `from` to each square of `targets`, flagged as a capture
/// when `capture` is set (the targets then hold enemy pieces, else they are empty).
fn push_targets(list: &mut MoveList, b: &Board, from: Square, targets: Bitboard, piece: Piece, capture: bool)
    requires
        old(list).wf(),
        b.wf(),
        b.all_sound(old(list)@),
        from < 64,
        1 <= piece <= 6,
        b.own_at(from as int, piece as int),
        forall|t: int|
            0 <= t < 64 && #[trigger] bit(targets, t) ==> if capture {
                bit(b.cbb(!b.tomove), t)
            } else {
                !bit(b.occ(), t)
            },
        forall|t: int| 0 <= t < 64 && #[trigger] bit(targets, t) ==> b.reaches(piece as int, from as int, t, capture),
        piece == KING ==> bit(b.of(KING as int, b.tomove), from as int) && forall|t: int|
            0 <= t < 64 && #[trigger] bit(targets, t) ==> !bit(
                b.attack_mask(!b.tomove, b.occ() ^ b.of(KING as int, b.tomove)),
                t,
            ),
        piece != KING ==> forall|t: int|
            0 <= t < 64 && #[trigger] bit(targets, t) ==> (legal_position(*b) ==> bit(legal_targets(*b), t)
                && pin_ok(*b, from as int, t)),
    ensures
        final(list).wf(),
        b.all_sound(final(list)@),
        final(list)@ == capped(old(list)@ + target_moves(from as int, targets, piece as int, capture)),
{
    let mut rest = targets;
    while rest != 0
        invariant
            list.wf(),
            b.wf(),
            b.all_sound(list@),
            from < 64,
            1 <= piece <= 6,
            b.own_at(from as int, piece as int),
            forall|t: int| bit(rest, t) ==> #[trigger] bit(targets, t),
            forall|t: int|
                0 <= t < 64 && #[trigger] bit(targets, t) ==> if capture {
                    bit(b.cbb(!b.tomove), t)
                } else {
                    !bit(b.occ(), t)
                },
            forall|t: int| 0 <= t < 64 && #[trigger] bit(targets, t) ==> b.reaches(piece as int, from as int, t, capture),
            piece == KING ==> bit(b.of(KING as int, b.tomove), from as int) && forall|t: int|
                0 <= t < 64 && #[trigger] bit(targets, t) ==> !bit(
                    b.attack_mask(!b.tomove, b.occ() ^ b.of(KING as int, b.tomove)),
                    t,
                ),
            piece != KING ==> forall|t: int|
                0 <= t < 64 && #[trigger] bit(targets, t) ==> (legal_position(*b) ==> bit(legal_targets(*b), t)
                    && pin_ok(*b, from as int, t)),
            capped(list@ + target_moves(from as int, rest, piece as int, capture)) == capped(
                old(list)@ + target_moves(from as int, targets, piece as int, capture),
            ),
        decreases count(rest),
    {
        let ghost old_rest = rest;
        let ghost old_list = list@;
        let to = rest.pop_lsb();
        proof {
            crate::board_state::bitboard::lemma_count_pop(old_rest);
        }
        let mut action = <Move as Action>::new_move(from, to, NORMAL, piece);
        if capture {
            action.set_capture();
        }
        proof {
            assert(bit(targets, to as int));
            b.lemma_wf_square(to as int);
            lemma_bit_ops(b.colors[0], b.colors[1], to as int);
            if piece == KING && one_king(*b, !b.tomove) {
                assert forall|nb: Board| nb.wf() && #[trigger] nb.played(b, action) implies nb.attackers(
                    to_of(action),
                    !b.tomove,
                ) == 0 by {
                    lemma_king_step_safe(*b, action, nb);
                }
            }
            if piece != KING && legal_position(*b) {
                lemma_quiet_safe_move(*b, action);
            }
            assert(b.sound_move(action));
        }
        push_move(list, action);
        proof {
            assert(action == built_move(from as int, to as int, NORMAL as int, piece as int, capture));
            lemma_capped_push(old_list, action, target_moves(from as int, rest, piece as int, capture));
        }
    }
}

proof fn lemma_rotl_bits(b: u64, t: u64)
    by (bit_vector)
    requires
        t < 64,
    ensures
        ((rotl(b, 8) >> t) & 1 == 1) == ((b >> ((t + 56) % 64) as u64) & 1 == 1),
        ((rotl(b, 56) >> t) & 1 == 1) == ((b >> ((t + 8) % 64) as u64) & 1 == 1),
        ((0xff000000u64 >> t) & 1 == 1) == (24 <= t < 32),
        ((0xff00000000u64 >> t) & 1 == 1) == (32 <= t < 40),
        ((0xff00000000000000u64 >> t) & 1 == 1) == (56 <= t < 64),
        ((0xffu64 >> t) & 1 == 1) == (t < 8),
{
}

/// A square is in a bitboard rotated by a rank forward exactly when the square a rank
/// behind it (wrapping around) is in the bitboard; the fourth ranks' masks.
pub proof fn lemma_forward_bit(b: u64, t: int)
    requires
        0 <= t < 64,
    ensures
        bit(rotl(b, 8), t) == bit(b, (t + 56) % 64),
        bit(rotl(b, 56), t) == bit(b, (t + 8) % 64),
        bit(0xff000000u64, t) == (24 <= t < 32),
        bit(0xff00000000u64, t) == (32 <= t < 40),
        bit(0xff00000000000000u64, t) == (56 <= t < 64),
        bit(0xffu64, t) == (t < 8),
{
    lemma_rotl_bits(b, t as u64);
}

/// A pawn of one color on `s` takes on `t` exactly when one of the other color on `t`
/// would take on `s`.
pub proof fn lemma_pawn_hit_back(black: bool, s: int, t: int)
    requires
        0 <= s < 64,
        0 <= t < 64,
    ensures
        pawn_hit(!black, t, s) == pawn_hit(black, s, t),
{
}

/// Appends the promotions of a pawn move: the queen when captures are wanted, the rook,
/// knight and bishop when quiet moves are.
fn push_promotions(list: &mut MoveList, b: &Board, action: Move, captures: bool, quiets: bool)
    requires
        old(list).wf(),
        b.wf(),
        b.all_sound(old(list)@),
        type_of(action) == PROMOTION,
        (action >> 14) & 3 == 0,
        b.sound_move(action),
        legal_position(*b) ==> bit(legal_targets(*b), to_of(action)) && pin_ok(
            *b,
            from_of(action),
            to_of(action),
        ),
    ensures
        final(list).wf(),
        b.all_sound(final(list)@),
        final(list)@ == capped(old(list)@ + promotions(action, captures, quiets)),
{
    let ghost qs: Seq<Move> = seq![action | (2u32 << 14), action | (0u32 << 14), action | (1u32 << 14)];
    let ghost quiet_part: Seq<Move> = if quiets { qs } else { Seq::empty() };
    if captures {
        let mut pr_move = action;
        pr_move.set_pr_piece(QUEEN);
        proof {
            if legal_position(*b) {
                lemma_quiet_safe_move(*b, pr_move);
            }
        }
        push_move(list, pr_move);
        proof {
            lemma_capped_push(old(list)@, pr_move, quiet_part);
            assert(seq![pr_move] + quiet_part =~= promotions(action, captures, quiets));
        }
    } else {
        proof {
            assert(quiet_part =~= promotions(action, captures, quiets));
        }
    }
    let ghost mid = list@;
    proof {
        assert(capped(list@ + quiet_part) == capped(old(list)@ + promotions(action, captures, quiets)));
        assert(mid.len() <= MAX_MOVES);
    }
    if quiets {
        let pieces: [Piece; 3] = [ROOK, KNIGHT, BISHOP];
        for k in 0..3usize
            invariant
                list.wf(),
                b.wf(),
                b.all_sound(list@),
                type_of(action) == PROMOTION,
                (action >> 14) & 3 == 0,
                b.sound_move(action),
                legal_position(*b) ==> bit(legal_targets(*b), to_of(action)) && pin_ok(
                    *b,
                    from_of(action),
                    to_of(action),
                ),
                pieces == [ROOK, KNIGHT, BISHOP],
                qs == seq![action | (2u32 << 14), action | (0u32 << 14), action | (1u32 << 14)],
                capped(list@ + qs.subrange(k as int, 3)) == capped(mid + qs),
        {
            let ghost before = list@;
            let mut pr_move = action;
            pr_move.set_pr_piece(pieces[k]);
            proof {
                if legal_position(*b) {
                    lemma_quiet_safe_move(*b, pr_move);
                }
            }
            push_move(list, pr_move);
            proof {
                assert(pr_move == qs[k as int]);
                lemma_capped_push(before, pr_move, qs.subrange(k + 1, 3));
                assert(seq![pr_move] + qs.subrange(k + 1, 3) =~= qs.subrange(k as int, 3));
            }
        }
        proof {
            assert(qs.subrange(3, 3) =~= Seq::<Move>::empty());
            assert(list@ + qs.subrange(3, 3) =~= list@);
        }
    } else {
        proof {
            assert(list@ + quiet_part =~= list@);
        }
    }
}

/// The pieces of a kind a loop walks: knights, or the diagonal or orthogonal sliders.
pub open spec fn walks(b: &Board, kind: u8, s: int) -> bool {
    if kind == KNIGHT {
        b.own_at(s, KNIGHT as int)
    } else if kind == BISHOP {
        bit(b.diagonals(b.tomove), s)
    } else {
        bit(b.orthogonals(b.tomove), s)
    }
}

/// The piece type a walked piece on `s` moves as: a knight, else a queen where one
/// stands, else the kind's own slider.
pub open spec fn walked_piece(b: Board, kind: u8, s: int) -> int {
    if kind == KNIGHT {
        KNIGHT as int
    } else if bit(b.pbb(5), s) {
        QUEEN as int
    } else {
        kind as int
    }
}

/// The moves of the walked piece on `s` to the squares of its attacks (through
/// `occupancy`) that are in `allowed`: its captures onto `capture_squares`, then its quiet
/// moves onto `quiet_sqrs`.
pub open spec fn piece_moves(
    b: Board,
    kind: u8,
    s: int,
    occupancy: u64,
    allowed: u64,
    capture_squares: u64,
    quiet_sqrs: u64,
) -> Seq<Move> {
    let attacks = kind_set(kind, occupancy)(s) & allowed;
    target_moves(s, attacks & capture_squares, walked_piece(b, kind, s), true) + target_moves(
        s,
        attacks & quiet_sqrs,
        walked_piece(b, kind, s),
        false,
    )
}

/// The moves of each walked piece of `pieces`, lowest square first.
pub open spec fn pieces_moves(
    b: Board,
    kind: u8,
    pieces: u64,
    occupancy: u64,
    allowed: u64,
    capture_squares: u64,
    quiet_sqrs: u64,
) -> Seq<Move>
    decreases count(pieces),
{
    if pieces == 0 {
        Seq::empty()
    } else {
        proof {
            crate::board_state::bitboard::lemma_count_pop(pieces);
        }
        piece_moves(b, kind, lowest(pieces), occupancy, allowed, capture_squares, quiet_sqrs) + pieces_moves(
            b,
            kind,
            pieces & ((pieces - 1) as u64),
            occupancy,
            allowed,
            capture_squares,
            quiet_sqrs,
        )
    }
}

/// Appends the moves of each piece of `pieces` (knights, or bishops and queens along
/// diagonals, or rooks and queens along lines) to the squares of its attacks that are in
/// `allowed`: captures onto `capture_squares`, quiet moves onto `quiet_sqrs`.
fn gen_piece_moves(
    list: &mut MoveList,
    b: &Board,
    pieces: Bitboard,
    kind: u8,
    occupancy: Bitboard,
    allowed: Bitboard,
    capture_squares: Bitboard,
    quiet_sqrs: Bitboard,
)
    requires
        old(list).wf(),
        b.wf(),
        b.all_sound(old(list)@),
        kind == KNIGHT || kind == BISHOP || kind == ROOK,
        occupancy == b.occ(),
        forall|s: int| #[trigger] bit(pieces, s) ==> walks(b, kind, s),
        forall|t: int| 0 <= t < 64 && #[trigger] bit(capture_squares, t) ==> bit(b.cbb(!b.tomove), t),
        forall|t: int| 0 <= t < 64 && #[trigger] bit(quiet_sqrs, t) ==> !bit(b.occ(), t),
        forall|s: int, t: int|
            0 <= t < 64 && #[trigger] bit(pieces, s) && #[trigger] bit(allowed, t) ==> (legal_position(*b) ==> bit(
                legal_targets(*b),
                t,
            ) && pin_group_ok(*b, kind, s, t)),
    ensures
        final(list).wf(),
        b.all_sound(final(list)@),
        final(list)@ == capped(
            old(list)@ + pieces_moves(*b, kind, pieces, occupancy, allowed, capture_squares, quiet_sqrs),
        ),
{
    let mut rest = pieces;
    while rest != 0
        invariant
            list.wf(),
            b.wf(),
            b.all_sound(list@),
            kind == KNIGHT || kind == BISHOP || kind == ROOK,
            occupancy == b.occ(),
            forall|s: int| #[trigger] bit(rest, s) ==> walks(b, kind, s),
            forall|s: int| #[trigger] bit(rest, s) ==> bit(pieces, s),
            forall|s: int, t: int|
                0 <= t < 64 && #[trigger] bit(pieces, s) && #[trigger] bit(allowed, t) ==> (legal_position(*b) ==> bit(
                    legal_targets(*b),
                    t,
                ) && pin_group_ok(*b, kind, s, t)),
            forall|t: int| 0 <= t < 64 && #[trigger] bit(capture_squares, t) ==> bit(b.cbb(!b.tomove), t),
            forall|t: int| 0 <= t < 64 && #[trigger] bit(quiet_sqrs, t) ==> !bit(b.occ(), t),
            capped(list@ + pieces_moves(*b, kind, rest, occupancy, allowed, capture_squares, quiet_sqrs))
                == capped(
                old(list)@ + pieces_moves(*b, kind, pieces, occupancy, allowed, capture_squares, quiet_sqrs),
            ),
        decreases count(rest),
    {
        let ghost old_rest = rest;
        let ghost old_list = list@;
        let square = rest.pop_lsb();
        proof {
            crate::board_state::bitboard::lemma_count_pop(old_rest);
            assert(walks(b, kind, square as int));
        }
        let raw = if kind == KNIGHT {
            knight_attacks_from(square)
        } else if kind == BISHOP {
            bishop_attacks(square, occupancy)
        } else {
            rook_attacks(square, occupancy)
        };
        let attacks = raw & allowed;
        let capture_moves = attacks & capture_squares;
        let quiet_moves = attacks & quiet_sqrs;
        let piece_moved = if kind == KNIGHT {
            KNIGHT
        } else if kind == BISHOP {
            BISHOP + b.queen_bit(square) * 2
        } else {
            ROOK + b.queen_bit(square)
        };
        proof {
            let own = b.cbb(b.tomove);
            lemma_bit_ops(b.pbb(5) | b.pbb(3), own, square as int);
            lemma_bit_ops(b.pbb(5) | b.pbb(4), own, square as int);
            lemma_bit_ops(b.pbb(5), b.pbb(3), square as int);
            lemma_bit_ops(b.pbb(5), b.pbb(4), square as int);
            assert(b.own_at(square as int, piece_moved as int));
            assert(bit(pieces, square as int));
            assert forall|t: int| 0 <= t < 64 && #[trigger] bit(capture_moves, t) implies bit(b.cbb(!b.tomove), t)
                && b.reaches(piece_moved as int, square as int, t, true) && (legal_position(*b) ==> bit(
                legal_targets(*b),
                t,
            ) && pin_ok(*b, square as int, t)) by {
                lemma_bit_ops(attacks, capture_squares, t);
                lemma_bit_ops(raw, allowed, t);
                lemma_bishop_hit_iff(square as int, occupancy, t);
                lemma_rook_hit_iff(square as int, occupancy, t);
            }
            assert forall|t: int| 0 <= t < 64 && #[trigger] bit(quiet_moves, t) implies !bit(b.occ(), t)
                && b.reaches(piece_moved as int, square as int, t, false) && (legal_position(*b) ==> bit(
                legal_targets(*b),
                t,
            ) && pin_ok(*b, square as int, t)) by {
                lemma_bit_ops(attacks, quiet_sqrs, t);
                lemma_bit_ops(raw, allowed, t);
                lemma_bishop_hit_iff(square as int, occupancy, t);
                lemma_rook_hit_iff(square as int, occupancy, t);
            }
        }
        let ghost mid = list@;
        push_targets(list, b, square, capture_moves, piece_moved, true);
        let ghost mid2 = list@;
        push_targets(list, b, square, quiet_moves, piece_moved, false);
        proof {
            let occ = occupancy;
            let sq = square as int;
            if kind == KNIGHT {
                crate::move_generation::movegen::lemma_bits_of(raw, |t: int| knight_hit(sq, t));
            } else if kind == BISHOP {
                crate::move_generation::movegen::lemma_bits_of(raw, |t: int| bishop_hit(sq, occ, t));
            } else {
                crate::move_generation::movegen::lemma_bits_of(raw, |t: int| rook_hit(sq, occ, t));
            }
            assert(raw == kind_set(kind, occupancy)(sq));
            assert(piece_moved as int == walked_piece(*b, kind, sq));
            let ca = target_moves(sq, capture_moves, piece_moved as int, true);
            let qa = target_moves(sq, quiet_moves, piece_moved as int, false);
            let r = pieces_moves(*b, kind, rest, occupancy, allowed, capture_squares, quiet_sqrs);
            lemma_capped_twice(old_list + ca, qa);
            lemma_capped_twice(old_list + ca + qa, r);
            assert(old_list + ca + qa + r =~= old_list + pieces_moves(
                *b,
                kind,
                old_rest,
                occupancy,
                allowed,
                capture_squares,
                quiet_sqrs,
            ));
        }
    }
}

pub const EIGTH_RANK: [Bitboard; 2] = [0xff00000000000000, 0xff];
pub const FOURTH_RANK: [Bitboard; 2] = [0xff000000, 0xff00000000];

/// The pawn on `s` is pinned along no line.
pub open spec fn unpinned(b: Board, s: int) -> bool {
    !bit(b.pin_mask(false), s) && !bit(b.pin_mask(true), s)
}

/// The pins let the pawn on `s` use the square `t` of a mask: the pawn is pinned along no
/// line, or it is pinned along a line of the given kind (diagonals for captures, ranks and
/// files for pushes) and `t` is in that pin mask.
pub open spec fn pawn_pin_fits(b: Board, diag: bool, s: int, t: int) -> bool {
    ||| unpinned(b, s)
    ||| bit(b.pin_mask(diag), s) && !bit(b.pin_mask(!diag), s) && bit(b.pin_mask(diag), t)
}

/// The square a pawn of the given color pushes to from `s`: a rank forward, the board's
/// rows wrapping around.
pub open spec fn ahead(black: bool, s: int) -> int {
    if black {
        (s + 56) % 64
    } else {
        (s + 8) % 64
    }
}

/// Square `t` is on the last rank for a pawn of the given color.
pub open spec fn last_rank(black: bool, t: int) -> bool {
    if black {
        0 <= t < 8
    } else {
        56 <= t < 64
    }
}

/// Square `t` is where a double push of a pawn of the given color lands.
pub open spec fn double_rank(black: bool, t: int) -> bool {
    if black {
        32 <= t < 40
    } else {
        24 <= t < 32
    }
}

/// The pushes of the pawn of the side to move on `from` that stay off the last rank: the
/// single push onto an empty square of `push_mask` when that square is legal, and, over it,
/// the double push onto an empty legal square of the fourth rank (flagged as such).
pub open spec fn pawn_push_moves(b: Board, from: int, push_mask: u64, legal_squares: u64, quiet_sqrs: u64) -> Seq<
    Move,
> {
    let t = ahead(b.tomove, from);
    let t2 = ahead(b.tomove, t);
    let open = bit(quiet_sqrs, t) && bit(push_mask, t) && !last_rank(b.tomove, t);
    (if open && bit(legal_squares, t) {
        seq![built_move(from, t, NORMAL as int, PAWN as int, false)]
    } else {
        Seq::empty()
    }) + (if open && bit(quiet_sqrs, t2) && double_rank(b.tomove, t2) && bit(legal_squares, t2) {
        seq![built_move(from, t2, NORMAL as int, PAWN as int, false) | (1u32 << 20)]
    } else {
        Seq::empty()
    })
}

/// A board whose one square (if any) is `t`, moved a rank forward for a pawn of the given
/// color, holds just the square ahead of `t`.
proof fn lemma_ahead_bits(x: u64, black: bool, t: int, on: bool, y: u64)
    requires
        0 <= t < 64,
        forall|u: int| 0 <= u < 64 ==> #[trigger] bit(x, u) == (u == t && on),
        y == if black { rotl(x, 56) } else { rotl(x, 8) },
    ensures
        forall|u: int| 0 <= u < 64 ==> #[trigger] bit(y, u) == (u == ahead(black, t) && on),
{
    assert forall|u: int| 0 <= u < 64 implies #[trigger] bit(y, u) == (u == ahead(black, t) && on) by {
        lemma_forward_bit(x, u);
        let back: int = if black { (u + 8) % 64 } else { (u + 56) % 64 };
        assert(bit(x, back) == (back == t && on));
    }
}

#[verifier::spinoff_prover]
#[verifier::rlimit(100)]
/// Appends the pushes of the pawn on `from` (the one-square board `bb`) that stay off the
/// last rank, onto `push_mask`: the single push when its square is legal, and the double
/// push from the second rank onto a legal square.
fn gen_pawn_pushes(
    list: &mut MoveList,
    b: &Board,
    from: Square,
    bb: Bitboard,
    ci: usize,
    push_mask: Bitboard,
    legal_squares: Bitboard,
    quiet_sqrs: Bitboard,
)
    requires
        old(list).wf(),
        b.wf(),
        b.all_sound(old(list)@),
        from < 64,
        bb == single(from as int),
        b.own_at(from as int, PAWN as int),
        ci == if b.tomove { 1usize } else { 0 },
        legal_squares == legal_targets(*b),
        forall|t: int| 0 <= t < 64 && #[trigger] bit(quiet_sqrs, t) ==> !bit(b.occ(), t),
        forall|t: int| #[trigger] bit(push_mask, t) ==> (legal_position(*b) ==> pawn_pin_fits(*b, false, from as int, t)),
    ensures
        final(list).wf(),
        b.all_sound(final(list)@),
        final(list)@ == capped(old(list)@ + pawn_push_moves(*b, from as int, push_mask, legal_squares, quiet_sqrs)),
{
    proof {
        lemma_single(from as u64);
    }
    let ghost t = ahead(b.tomove, from as int);
    let ghost t2 = ahead(b.tomove, t);
    let ghost open = bit(quiet_sqrs, t) && bit(push_mask, t) && !last_rank(b.tomove, t);
    let ghost s1: Seq<Move> = if open && bit(legal_squares, t) {
        seq![built_move(from as int, t, NORMAL as int, PAWN as int, false)]
    } else {
        Seq::empty()
    };
    let ghost s2: Seq<Move> = if open && bit(quiet_sqrs, t2) && double_rank(b.tomove, t2) && bit(legal_squares, t2) {
        seq![built_move(from as int, t2, NORMAL as int, PAWN as int, false) | (1u32 << 20)]
    } else {
        Seq::empty()
    };
    let fwd = bb.forward(b.tomove);
    let forward = fwd & quiet_sqrs & push_mask & !EIGTH_RANK[ci];
    proof {
        lemma_ahead_bits(bb, b.tomove, from as int, true, fwd);
        assert(EIGTH_RANK[0] == 0xff00000000000000u64 && EIGTH_RANK[1] == 0xffu64);
        assert(FOURTH_RANK[0] == 0xff000000u64 && FOURTH_RANK[1] == 0xff00000000u64);
        assert forall|u: int| 0 <= u < 64 implies #[trigger] bit(forward, u) == (u == t && open) by {
            lemma_forward_bit(bb, u);
            lemma_bit_ops(fwd & quiet_sqrs & push_mask, !EIGTH_RANK[ci as int], u);
            lemma_bit_ops(fwd & quiet_sqrs, push_mask, u);
            lemma_bit_ops(fwd, quiet_sqrs, u);
            lemma_bit_ops(EIGTH_RANK[ci as int], 0, u);
        }
        if open {
            lemma_bit_ops(0, 0, t);
        }
        if forward != 0 {
            lemma_lowest(forward);
        }
        assert((forward != 0) == open);
    }
    if forward != 0 {
        let single_push = forward & legal_squares;
        proof {
            lemma_bit_ops(forward, legal_squares, t);
            if single_push != 0 {
                lemma_lowest(single_push);
                lemma_bit_ops(forward, legal_squares, lowest(single_push));
            } else {
                lemma_bit_ops(0, 0, t);
            }
        }
        if single_push != 0 {
            let to = single_push.lsb();
            proof {
                lemma_bit_ops(forward, legal_squares, to as int);
                lemma_bit_ops(fwd & quiet_sqrs & push_mask, !EIGTH_RANK[ci as int], to as int);
                lemma_bit_ops(fwd & quiet_sqrs, push_mask, to as int);
                lemma_bit_ops(fwd, quiet_sqrs, to as int);
                lemma_bit_ops(b.colors[0], b.colors[1], to as int);
                lemma_forward_bit(bb, to as int);
                assert(b.reaches(PAWN as int, from as int, to as int, false));
            }
            let onepush = <Move as Action>::new_move(from, to, NORMAL, PAWN);
            proof {
                if legal_position(*b) {
                    assert(bit(b.pbb(1), from as int));
                    assert(bit(push_mask, to as int));
                    if !unpinned(*b, from as int) {
                        lemma_pinned_step(*b, false, from as int, to as int);
                    }
                    lemma_quiet_safe_move(*b, onepush);
                }
                assert(s1 == seq![onepush]);
                lemma_capped_push(old(list)@, onepush, s2);
            }
            push_move(list, onepush);
        } else {
            proof {
                assert(s1 =~= Seq::<Move>::empty());
                assert(old(list)@ + (s1 + s2) =~= old(list)@ + s2);
            }
        }
        let ghost mid = list@;
        proof {
            assert(capped(mid + s2) == capped(old(list)@ + (s1 + s2)));
        }
        let ffwd = forward.forward(b.tomove);
        let doublepush = ffwd & quiet_sqrs & FOURTH_RANK[ci] & legal_squares;
        proof {
            lemma_ahead_bits(forward, b.tomove, t, open, ffwd);
            assert forall|u: int| 0 <= u < 64 implies #[trigger] bit(doublepush, u) == (u == t2 && bit(quiet_sqrs, t2)
                && double_rank(b.tomove, t2) && bit(legal_squares, t2)) by {
                lemma_forward_bit(forward, u);
                lemma_bit_ops(ffwd & quiet_sqrs & FOURTH_RANK[ci as int], legal_squares, u);
                lemma_bit_ops(ffwd & quiet_sqrs, FOURTH_RANK[ci as int], u);
                lemma_bit_ops(ffwd, quiet_sqrs, u);
            }
            if bit(quiet_sqrs, t2) && double_rank(b.tomove, t2) && bit(legal_squares, t2) {
                lemma_bit_ops(0, 0, t2);
            }
            if doublepush != 0 {
                lemma_lowest(doublepush);
            }
        }
        if doublepush != 0 {
            let double_to = doublepush.lsb();
            let ghost m: int = if b.tomove { (double_to + 8) % 64 } else { (double_to + 56) % 64 };
            proof {
                lemma_bit_ops(ffwd & quiet_sqrs & FOURTH_RANK[ci as int], legal_squares, double_to as int);
                lemma_bit_ops(ffwd & quiet_sqrs, FOURTH_RANK[ci as int], double_to as int);
                lemma_bit_ops(ffwd, quiet_sqrs, double_to as int);
                lemma_bit_ops(b.colors[0], b.colors[1], double_to as int);
                lemma_forward_bit(forward, double_to as int);
                lemma_bit_ops(fwd & quiet_sqrs & push_mask, !EIGTH_RANK[ci as int], m);
                lemma_bit_ops(fwd & quiet_sqrs, push_mask, m);
                lemma_bit_ops(fwd, quiet_sqrs, m);
                lemma_forward_bit(bb, m);
                assert(b.reaches(PAWN as int, from as int, double_to as int, false));
            }
            let mut dp = <Move as Action>::new_move(from, double_to, NORMAL, PAWN);
            dp.set_doublemove();
            proof {
                if legal_position(*b) {
                    assert(bit(b.pbb(1), from as int));
                    assert(bit(push_mask, m));
                    if !unpinned(*b, from as int) {
                        lemma_pinned_double_push(*b, from as int, m, double_to as int);
                    }
                    lemma_quiet_safe_move(*b, dp);
                }
                assert(s2 == seq![dp]);
                lemma_capped_push(mid, dp, Seq::empty());
                assert(seq![dp] + Seq::<Move>::empty() =~= s2);
                assert(mid.push(dp) + Seq::<Move>::empty() =~= mid.push(dp));
            }
            push_move(list, dp);
        } else {
            proof {
                assert(s2 =~= Seq::<Move>::empty());
                assert(mid + s2 =~= mid);
            }
        }
    } else {
        proof {
            assert(s1 + s2 =~= Seq::<Move>::empty());
            assert(old(list)@ + (s1 + s2) =~= old(list)@);
        }
    }
}

/// The promotions of the push of the pawn of the side to move on `from`, when the square
/// ahead is on the last rank, empty and legal.
pub open spec fn pawn_promo_push_moves(
    b: Board,
    from: int,
    occupancy: u64,
    legal_squares: u64,
    captures: bool,
    quiets: bool,
) -> Seq<Move> {
    let t = ahead(b.tomove, from);
    if last_rank(b.tomove, t) && !bit(occupancy, t) && bit(legal_squares, t) {
        promotions(built_move(from, t, PROMOTION as int, PAWN as int, false), captures, quiets)
    } else {
        Seq::empty()
    }
}

/// The last rank of the pawns of the given color, as a bitboard.
pub open spec fn last_rank_bits(black: bool) -> u64 {
    if black {
        0xffu64
    } else {
        0xff00000000000000u64
    }
}

/// The promotions of the captures of the pawn on `from` onto each square of `targets`,
/// lowest square first.
pub open spec fn promo_capture_moves(from: int, targets: u64, captures: bool, quiets: bool) -> Seq<Move>
    decreases count(targets),
{
    if targets == 0 {
        Seq::empty()
    } else {
        proof {
            crate::board_state::bitboard::lemma_count_pop(targets);
        }
        promotions(built_move(from, lowest(targets), PROMOTION as int, PAWN as int, true), captures, quiets)
            + promo_capture_moves(from, targets & ((targets - 1) as u64), captures, quiets)
    }
}

/// The captures of the pawn of the side to move on `from` onto the squares it attacks that
/// are legal, in `capture_squares` and in `capture_mask`: plain ones off the last rank,
/// lowest square first, then the promotions of those onto enemy pieces on the last rank.
pub open spec fn pawn_capture_moves(
    b: Board,
    from: int,
    capture_mask: u64,
    legal_squares: u64,
    capture_squares: u64,
    captures: bool,
    quiets: bool,
) -> Seq<Move> {
    let atk = pawn_set(b.tomove, from);
    let lr = last_rank_bits(b.tomove);
    target_moves(from, atk & legal_squares & capture_squares & capture_mask & !lr, PAWN as int, true)
        + promo_capture_moves(from, atk & lr & b.cbb(!b.tomove) & legal_squares & capture_mask, captures, quiets)
}

/// Appends the promotions of the push of the pawn on `from` (the one-square board `bb`)
/// onto an empty legal square of the last rank.
fn gen_pawn_promo_push(
    list: &mut MoveList,
    b: &Board,
    from: Square,
    bb: Bitboard,
    ci: usize,
    occupancy: Bitboard,
    legal_squares: Bitboard,
    want_captures: bool,
    want_quiets: bool,
)
    requires
        old(list).wf(),
        b.wf(),
        b.all_sound(old(list)@),
        from < 64,
        bb == single(from as int),
        b.own_at(from as int, PAWN as int),
        ci == if b.tomove { 1usize } else { 0 },
        occupancy == b.occ(),
        legal_squares == legal_targets(*b),
        legal_position(*b) ==> unpinned(*b, from as int),
    ensures
        final(list).wf(),
        b.all_sound(final(list)@),
        final(list)@ == capped(
            old(list)@ + pawn_promo_push_moves(*b, from as int, occupancy, legal_squares, want_captures, want_quiets),
        ),
{
    proof {
        lemma_single(from as u64);
    }
    let ghost t = ahead(b.tomove, from as int);
    let ghost ok = last_rank(b.tomove, t) && !bit(occupancy, t) && bit(legal_squares, t);
    let fwd = bb.forward(b.tomove);
    let pr_push = fwd & EIGTH_RANK[ci] & !occupancy & legal_squares;
    proof {
        lemma_ahead_bits(bb, b.tomove, from as int, true, fwd);
        assert(EIGTH_RANK[0] == 0xff00000000000000u64 && EIGTH_RANK[1] == 0xffu64);
        assert forall|u: int| 0 <= u < 64 implies #[trigger] bit(pr_push, u) == (u == t && ok) by {
            lemma_forward_bit(bb, u);
            lemma_bit_ops(fwd & EIGTH_RANK[ci as int] & !occupancy, legal_squares, u);
            lemma_bit_ops(fwd & EIGTH_RANK[ci as int], !occupancy, u);
            lemma_bit_ops(occupancy, 0, u);
            lemma_bit_ops(fwd, EIGTH_RANK[ci as int], u);
        }
        if ok {
            lemma_bit_ops(0, 0, t);
        }
        if pr_push != 0 {
            lemma_lowest(pr_push);
        }
    }
    if pr_push != 0 {
        let to = pr_push.lsb();
        proof {
            lemma_bit_ops(fwd & EIGTH_RANK[ci as int] & !occupancy, legal_squares, to as int);
            lemma_bit_ops(fwd & EIGTH_RANK[ci as int], !occupancy, to as int);
            lemma_bit_ops(occupancy, 0, to as int);
            lemma_bit_ops(b.colors[0], b.colors[1], to as int);
            lemma_bit_ops(fwd, EIGTH_RANK[ci as int], to as int);
            lemma_forward_bit(bb, to as int);
            assert(b.reaches(PAWN as int, from as int, to as int, false));
        }
        let action = <Move as Action>::new_move(from, to, PROMOTION, PAWN);
        proof {
            if legal_position(*b) {
                lemma_quiet_safe_move(*b, action);
            }
        }
        push_promotions(list, b, action, want_captures, want_quiets);
    } else {
        proof {
            assert(old(list)@ + Seq::<Move>::empty() =~= old(list)@);
        }
    }
}

#[verifier::spinoff_prover]
#[verifier::rlimit(60)]
/// Appends the captures of the pawn on `from` onto legal squares of `capture_mask`: off the
/// last rank as plain captures, onto it as promotions.
fn gen_pawn_captures(
    list: &mut MoveList,
    b: &Board,
    from: Square,
    ci: usize,
    enemy: Bitboard,
    capture_mask: Bitboard,
    legal_squares: Bitboard,
    capture_squares: Bitboard,
    want_captures: bool,
    want_quiets: bool,
)
    requires
        old(list).wf(),
        b.wf(),
        b.all_sound(old(list)@),
        from < 64,
        b.own_at(from as int, PAWN as int),
        ci == if b.tomove { 1usize } else { 0 },
        enemy == b.cbb(!b.tomove),
        legal_squares == legal_targets(*b),
        forall|t: int| 0 <= t < 64 && #[trigger] bit(capture_squares, t) ==> bit(b.cbb(!b.tomove), t),
        forall|t: int| #[trigger] bit(capture_mask, t) ==> (legal_position(*b) ==> pawn_pin_fits(*b, true, from as int, t)),
    ensures
        final(list).wf(),
        b.all_sound(final(list)@),
        final(list)@ == capped(
            old(list)@ + pawn_capture_moves(
                *b,
                from as int,
                capture_mask,
                legal_squares,
                capture_squares,
                want_captures,
                want_quiets,
            ),
        ),
{
    let pawn_atk = pawn_attacks_from(from, b.tomove);
    proof {
        let sq = from as int;
        let c = b.tomove;
        lemma_bits_of(pawn_atk, |t: int| pawn_hit(c, sq, t));
        assert(pawn_atk == pawn_set(b.tomove, from as int));
        assert(EIGTH_RANK[0] == 0xff00000000000000u64 && EIGTH_RANK[1] == 0xffu64);
        assert(EIGTH_RANK[ci as int] == last_rank_bits(b.tomove));
    }
    let capture_moves = pawn_atk & legal_squares & capture_squares & capture_mask & !EIGTH_RANK[ci];
    proof {
        assert forall|t: int| 0 <= t < 64 && #[trigger] bit(capture_moves, t) implies bit(b.cbb(!b.tomove), t)
            && b.reaches(PAWN as int, from as int, t, true) && (legal_position(*b) ==> bit(legal_targets(*b), t)
            && pin_ok(*b, from as int, t)) by {
            lemma_bit_ops(pawn_atk & legal_squares & capture_squares & capture_mask, !EIGTH_RANK[ci as int], t);
            lemma_bit_ops(pawn_atk & legal_squares & capture_squares, capture_mask, t);
            lemma_bit_ops(pawn_atk & legal_squares, capture_squares, t);
            lemma_bit_ops(pawn_atk, legal_squares, t);
            if legal_position(*b) && !unpinned(*b, from as int) {
                lemma_pinned_step(*b, true, from as int, t);
            }
        }
    }
    push_targets(list, b, from, capture_moves, PAWN, true);
    let ghost mid = list@;

    let mut pr_captures = pawn_atk & EIGTH_RANK[ci] & enemy & legal_squares & capture_mask;
    let ghost all_pr = pr_captures;
    proof {
        assert forall|t: int| 0 <= t < 64 && #[trigger] bit(all_pr, t) implies bit(b.cbb(!b.tomove), t)
            && b.reaches(PAWN as int, from as int, t, true) && (legal_position(*b) ==> bit(legal_targets(*b), t)
            && pin_ok(*b, from as int, t)) by {
            lemma_bit_ops(pawn_atk & EIGTH_RANK[ci as int] & enemy & legal_squares, capture_mask, t);
            lemma_bit_ops(pawn_atk & EIGTH_RANK[ci as int] & enemy, legal_squares, t);
            lemma_bit_ops(pawn_atk & EIGTH_RANK[ci as int], enemy, t);
            lemma_bit_ops(pawn_atk, EIGTH_RANK[ci as int], t);
            if legal_position(*b) && !unpinned(*b, from as int) {
                lemma_pinned_step(*b, true, from as int, t);
            }
        }
    }
    while pr_captures != 0
        invariant
            list.wf(),
            b.wf(),
            b.all_sound(list@),
            from < 64,
            b.own_at(from as int, PAWN as int),
            forall|t: int| bit(pr_captures, t) ==> #[trigger] bit(all_pr, t),
            forall|t: int| 0 <= t < 64 && #[trigger] bit(all_pr, t) ==> bit(b.cbb(!b.tomove), t)
                && b.reaches(PAWN as int, from as int, t, true) && (legal_position(*b) ==> bit(legal_targets(*b), t)
                && pin_ok(*b, from as int, t)),
            mid.len() <= MAX_MOVES,
            capped(list@ + promo_capture_moves(from as int, pr_captures, want_captures, want_quiets)) == capped(
                mid + promo_capture_moves(from as int, all_pr, want_captures, want_quiets),
            ),
        decreases count(pr_captures),
    {
        let ghost old_pr = pr_captures;
        let ghost before = list@;
        let to = pr_captures.pop_lsb();
        proof {
            crate::board_state::bitboard::lemma_count_pop(old_pr);
            assert(bit(all_pr, to as int));
            b.lemma_wf_square(to as int);
            lemma_bit_ops(b.colors[0], b.colors[1], to as int);
        }
        let mut action = <Move as Action>::new_move(from, to, PROMOTION, PAWN);
        action.set_capture();
        proof {
            if legal_position(*b) {
                lemma_quiet_safe_move(*b, action);
            }
        }
        push_promotions(list, b, action, want_captures, want_quiets);
        proof {
            assert(action == built_move(from as int, to as int, PROMOTION as int, PAWN as int, true));
            let pm = promotions(action, want_captures, want_quiets);
            let r = promo_capture_moves(from as int, pr_captures, want_captures, want_quiets);
            lemma_capped_twice(before + pm, r);
            assert(before + pm + r =~= before + promo_capture_moves(from as int, old_pr, want_captures, want_quiets));
        }
    }
    proof {
        let cm = target_moves(from as int, capture_moves, PAWN as int, true);
        let pcm = promo_capture_moves(from as int, all_pr, want_captures, want_quiets);
        assert(list@ + promo_capture_moves(from as int, pr_captures, want_captures, want_quiets) =~= list@);
        lemma_capped_twice(old(list)@ + cm, pcm);
        assert(old(list)@ + cm + pcm =~= old(list)@ + (cm + pcm));
    }
}

/// The moves of one pawn of the side to move on `s`, as the flags ask: its pushes, its
/// promotion push, its captures.
pub open spec fn one_pawn_moves(
    b: Board,
    s: int,
    pushes: bool,
    push_mask: u64,
    promo_pushes: bool,
    captures: bool,
    capture_mask: u64,
    legal_squares: u64,
    capture_squares: u64,
    quiet_sqrs: u64,
    want_captures: bool,
    want_quiets: bool,
) -> Seq<Move> {
    (if pushes {
        pawn_push_moves(b, s, push_mask, legal_squares, quiet_sqrs)
    } else {
        Seq::empty()
    }) + (if promo_pushes {
        pawn_promo_push_moves(b, s, b.occ(), legal_squares, want_captures, want_quiets)
    } else {
        Seq::empty()
    }) + (if captures {
        pawn_capture_moves(b, s, capture_mask, legal_squares, capture_squares, want_captures, want_quiets)
    } else {
        Seq::empty()
    })
}

/// The moves of each pawn of `pieces`, lowest square first.
pub open spec fn pawns_moves(
    b: Board,
    pieces: u64,
    pushes: bool,
    push_mask: u64,
    promo_pushes: bool,
    captures: bool,
    capture_mask: u64,
    legal_squares: u64,
    capture_squares: u64,
    quiet_sqrs: u64,
    want_captures: bool,
    want_quiets: bool,
) -> Seq<Move>
    decreases count(pieces),
{
    if pieces == 0 {
        Seq::empty()
    } else {
        proof {
            crate::board_state::bitboard::lemma_count_pop(pieces);
        }
        one_pawn_moves(
            b,
            lowest(pieces),
            pushes,
            push_mask,
            promo_pushes,
            captures,
            capture_mask,
            legal_squares,
            capture_squares,
            quiet_sqrs,
            want_captures,
            want_quiets,
        ) + pawns_moves(
            b,
            pieces & ((pieces - 1) as u64),
            pushes,
            push_mask,
            promo_pushes,
            captures,
            capture_mask,
            legal_squares,
            capture_squares,
            quiet_sqrs,
            want_captures,
            want_quiets,
        )
    }
}

/// Three lists each the one before with moves appended, kept to their first `MAX_MOVES`
/// moves: the last, with more appended, is the first with all of them appended.
proof fn lemma_three_appends(
    l0: Seq<Move>,
    l1: Seq<Move>,
    l2: Seq<Move>,
    l3: Seq<Move>,
    a: Seq<Move>,
    b: Seq<Move>,
    c: Seq<Move>,
    r: Seq<Move>,
)
    requires
        l1 == capped(l0 + a),
        l2 == capped(l1 + b),
        l3 == capped(l2 + c),
    ensures
        capped(l3 + r) == capped(l0 + (a + b + c + r)),
{
    lemma_capped_twice(l0 + a, b);
    lemma_capped_twice(l0 + a + b, c);
    lemma_capped_twice(l0 + a + b + c, r);
    assert(l0 + a + b + c + r =~= l0 + (a + b + c + r));
}

#[verifier::spinoff_prover]
#[verifier::rlimit(100)]
/// Appends the moves of each pawn of `pieces`: pushes (single and double, onto
/// `push_mask`), pushes to the last rank as promotions, and captures (onto `capture_mask`),
/// the last-rank ones as promotions, as the flags ask.
fn gen_pawn_moves(
    list: &mut MoveList,
    b: &Board,
    pieces: Bitboard,
    pushes: bool,
    push_mask: Bitboard,
    promo_pushes: bool,
    captures: bool,
    capture_mask: Bitboard,
    legal_squares: Bitboard,
    capture_squares: Bitboard,
    quiet_sqrs: Bitboard,
    want_captures: bool,
    want_quiets: bool,
)
    requires
        old(list).wf(),
        b.wf(),
        b.all_sound(old(list)@),
        forall|s: int| #[trigger] bit(pieces, s) ==> b.own_at(s, PAWN as int),
        forall|t: int| 0 <= t < 64 && #[trigger] bit(capture_squares, t) ==> bit(b.cbb(!b.tomove), t),
        forall|t: int| 0 <= t < 64 && #[trigger] bit(quiet_sqrs, t) ==> !bit(b.occ(), t),
        legal_squares == legal_targets(*b),
        forall|s: int, t: int|
            #[trigger] bit(pieces, s) && #[trigger] bit(push_mask, t) ==> (legal_position(*b) ==> pawn_pin_fits(
                *b,
                false,
                s,
                t,
            )),
        forall|s: int, t: int|
            #[trigger] bit(pieces, s) && #[trigger] bit(capture_mask, t) ==> (legal_position(*b) ==> pawn_pin_fits(
                *b,
                true,
                s,
                t,
            )),
        promo_pushes ==> forall|s: int| #[trigger] bit(pieces, s) ==> (legal_position(*b) ==> unpinned(*b, s)),
    ensures
        final(list).wf(),
        b.all_sound(final(list)@),
        final(list)@ == capped(old(list)@ + pawns_moves(*b, pieces, pushes, push_mask, promo_pushes, captures, capture_mask, legal_squares, capture_squares, quiet_sqrs, want_captures, want_quiets)),
{
    let ci: usize = if b.tomove { 1 } else { 0 };
    let occupancy = b.get_occupancy();
    let enemy = b.color_index(!b.tomove);
    let mut rest = pieces;
    while rest != 0
        invariant
            list.wf(),
            b.wf(),
            b.all_sound(list@),
            ci == if b.tomove { 1usize } else { 0 },
            occupancy == b.occ(),
            enemy == b.cbb(!b.tomove),
            forall|s: int| #[trigger] bit(rest, s) ==> bit(pieces, s),
            forall|s: int| #[trigger] bit(pieces, s) ==> b.own_at(s, PAWN as int),
            forall|t: int| 0 <= t < 64 && #[trigger] bit(capture_squares, t) ==> bit(b.cbb(!b.tomove), t),
            forall|t: int| 0 <= t < 64 && #[trigger] bit(quiet_sqrs, t) ==> !bit(b.occ(), t),
            legal_squares == legal_targets(*b),
            forall|s: int, t: int|
                #[trigger] bit(pieces, s) && #[trigger] bit(push_mask, t) ==> (legal_position(*b) ==> pawn_pin_fits(
                    *b,
                    false,
                    s,
                    t,
                )),
            forall|s: int, t: int|
                #[trigger] bit(pieces, s) && #[trigger] bit(capture_mask, t) ==> (legal_position(*b) ==> pawn_pin_fits(
                    *b,
                    true,
                    s,
                    t,
                )),
            promo_pushes ==> forall|s: int| #[trigger] bit(pieces, s) ==> (legal_position(*b) ==> unpinned(*b, s)),
            capped(list@ + pawns_moves(*b, rest, pushes, push_mask, promo_pushes, captures, capture_mask, legal_squares, capture_squares, quiet_sqrs, want_captures, want_quiets)) == capped(
                old(list)@ + pawns_moves(*b, pieces, pushes, push_mask, promo_pushes, captures, capture_mask, legal_squares, capture_squares, quiet_sqrs, want_captures, want_quiets),
            ),
        decreases count(rest),
    {
        let ghost old_rest = rest;
        let ghost l0 = list@;
        let bb = rest.pop_bb();
        proof {
            crate::board_state::bitboard::lemma_count_pop(old_rest);
            crate::board_state::bitboard::lemma_lowest(old_rest);
            crate::board_state::bitboard::lemma_single(lowest(old_rest) as u64);
        }
        let from = bb.lsb();
        proof {
            assert(bit(pieces, from as int));
            assert(b.own_at(from as int, PAWN as int));
        }
        let ghost sq = from as int;
        let ghost pa: Seq<Move> = if pushes {
            pawn_push_moves(*b, sq, push_mask, legal_squares, quiet_sqrs)
        } else {
            Seq::empty()
        };
        let ghost pb: Seq<Move> = if promo_pushes {
            pawn_promo_push_moves(*b, sq, b.occ(), legal_squares, want_captures, want_quiets)
        } else {
            Seq::empty()
        };
        let ghost pc: Seq<Move> = if captures {
            pawn_capture_moves(*b, sq, capture_mask, legal_squares, capture_squares, want_captures, want_quiets)
        } else {
            Seq::empty()
        };
        if pushes {
            gen_pawn_pushes(list, b, from, bb, ci, push_mask, legal_squares, quiet_sqrs);
        } else {
            proof {
                assert(l0 + pa =~= l0);
            }
        }
        let ghost l1 = list@;
        if promo_pushes {
            gen_pawn_promo_push(list, b, from, bb, ci, occupancy, legal_squares, want_captures, want_quiets);
        } else {
            proof {
                assert(l1 + pb =~= l1);
            }
        }
        let ghost l2 = list@;
        if captures {
            gen_pawn_captures(
                list,
                b,
                from,
                ci,
                enemy,
                capture_mask,
                legal_squares,
                capture_squares,
                want_captures,
                want_quiets,
            );
        } else {
            proof {
                assert(l2 + pc =~= l2);
            }
        }
        proof {
            let r = pawns_moves(*b, rest, pushes, push_mask, promo_pushes, captures, capture_mask, legal_squares, capture_squares, quiet_sqrs, want_captures, want_quiets);
            assert(pawns_moves(*b, old_rest, pushes, push_mask, promo_pushes, captures, capture_mask, legal_squares, capture_squares, quiet_sqrs, want_captures, want_quiets) == pa + pb + pc + r);
            lemma_three_appends(l0, l1, l2, list@, pa, pb, pc, r);
        }
    }
}

/// The en passant captures onto `square` by each pawn of `pawns`, lowest square first,
/// kept when the square is empty, an enemy pawn stands behind it, and the capture leaves
/// the mover's king unattacked.
pub open spec fn passant_moves(b: Board, square: int, pawns: u64) -> Seq<Move>
    decreases count(pawns),
{
    if pawns == 0 {
        Seq::empty()
    } else {
        proof {
            crate::board_state::bitboard::lemma_count_pop(pawns);
        }
        let m = built_move(lowest(pawns), square, PASSANT as int, PAWN as int, false);
        (if !bit(b.occ(), square) && bit(b.of(PAWN as int, !b.tomove), passant_victim(square))
            && b.king_safe_after(m) {
            seq![m]
        } else {
            Seq::empty()
        }) + passant_moves(b, square, pawns & ((pawns - 1) as u64))
    }
}

/// The empty squares, when quiet moves are wanted.
pub open spec fn quiet_targets(b: Board, quiets: bool) -> u64 {
    if quiets {
        !b.occ()
    } else {
        0
    }
}

/// The enemy pieces, when captures are wanted.
pub open spec fn capture_targets(b: Board, captures: bool) -> u64 {
    if captures {
        b.cbb(!b.tomove)
    } else {
        0
    }
}

/// The squares the enemy attacks, seeing through the king of the side to move.
pub open spec fn enemy_reach(b: Board) -> u64 {
    b.attack_mask(!b.tomove, b.occ() ^ b.of(KING as int, b.tomove))
}

/// The king's captures and quiet steps onto squares the enemy does not reach.
#[verifier::opaque]
pub open spec fn king_part(b: Board, quiets: bool, captures: bool) -> Seq<Move> {
    let k = lowest(b.of(KING as int, b.tomove));
    let kmoves = king_set(k) & !enemy_reach(b);
    target_moves(k, kmoves & capture_targets(b, captures), KING as int, true) + target_moves(
        k,
        kmoves & quiet_targets(b, quiets),
        KING as int,
        false,
    )
}

/// With quiet moves wanted, the castlings whose right is kept and whose squares are empty
/// and not reached by the enemy: kingside, then queenside.
#[verifier::opaque]
pub open spec fn castle_part(b: Board, quiets: bool) -> Seq<Move> {
    let ci: int = if b.tomove { 1 } else { 0 };
    let occ = b.occ();
    let atk = enemy_reach(b);
    let rights: u8 = if b.tomove { b.castling_rights } else { b.castling_rights >> 2 };
    let ks_free = !(occ & BLOCK_OCCUPIED_KINGSIDE[ci] != 0 || atk & BLOCK_CHECKED_KINGSIDE[ci] != 0);
    let qs_free = !(occ & BLOCK_OCCUPIED_QUEENSIDE[ci] != 0 || atk & BLOCK_CHECKED_QUEENSIDE[ci] != 0);
    if quiets {
        (if ks_free && rights & 0b10 != 0 { seq![KINGSIDE_CASTLES[ci]] } else { Seq::empty() }) + (if qs_free
            && rights & 1 != 0 {
            seq![QUEENSIDE_CASTLES[ci]]
        } else {
            Seq::empty()
        })
    } else {
        Seq::empty()
    }
}

/// A castling of the generator's castle part fits a consistent board whose castling rights
/// are ones its kings and rooks still support: `do_move` can play it.
pub proof fn lemma_castle_fits(b: Board, m: Move)
    requires
        b.wf(),
        b.castling_rights & b.castle_mask() == b.castling_rights,
        castle_part(b, true).contains(m),
    ensures
        b.fits(m),
{
    lemma_castle_types();
    let ci: int = if b.tomove { 1 } else { 0 };
    let occ = b.occ();
    let x = b.castling_rights;
    let wr = b.pbb(4) & b.cbb(false);
    let br = b.pbb(4) & b.cbb(true);
    let wkg = b.pbb(6) & b.cbb(false);
    let bkg = b.pbb(6) & b.cbb(true);
    lemma_castle_bits(
        x,
        bit(wkg, 4) && bit(wr, 7),
        bit(wkg, 4) && bit(wr, 0),
        bit(bkg, 60) && bit(br, 63),
        bit(bkg, 60) && bit(br, 56),
    );
    let (f, t) = (from_of(m), to_of(m));
    let ks = m == KINGSIDE_CASTLES[ci];
    let rights: u8 = if b.tomove { x } else { x >> 2 };
    let atk = enemy_reach(b);
    let ks_free = !(occ & BLOCK_OCCUPIED_KINGSIDE[ci] != 0 || atk & BLOCK_CHECKED_KINGSIDE[ci] != 0);
    let qs_free = !(occ & BLOCK_OCCUPIED_QUEENSIDE[ci] != 0 || atk & BLOCK_CHECKED_QUEENSIDE[ci] != 0);
    let sa = if ks_free && rights & 0b10 != 0 { seq![KINGSIDE_CASTLES[ci]] } else { Seq::<Move>::empty() };
    let sb = if qs_free && rights & 1 != 0 { seq![QUEENSIDE_CASTLES[ci]] } else { Seq::<Move>::empty() };
    assert(castle_part(b, true) == sa + sb) by {
        reveal(castle_part);
    }
    let i = choose|i: int| 0 <= i < (sa + sb).len() && (sa + sb)[i] == m;
    if i < sa.len() {
        assert(m == KINGSIDE_CASTLES[ci] && ks_free && rights & 0b10 != 0);
    } else {
        assert(sb[i - sa.len()] == m);
        assert(m == QUEENSIDE_CASTLES[ci] && qs_free && rights & 1 != 0);
    }
    assert(ks ==> (rights & 0b10 != 0 && occ & BLOCK_OCCUPIED_KINGSIDE[ci] == 0));
    assert(!ks ==> (m == QUEENSIDE_CASTLES[ci] && rights & 1 != 0 && occ & BLOCK_OCCUPIED_QUEENSIDE[ci] == 0));
    let (rf, rt) = (crate::move_generation::makemove::rook_from(t), crate::move_generation::makemove::rook_to(t));
    lemma_bit_ops(b.pbb(6), b.cbb(b.tomove), f);
    lemma_bit_ops(b.pbb(4), b.cbb(b.tomove), rf);
    let blk = if ks { BLOCK_OCCUPIED_KINGSIDE[ci] } else { BLOCK_OCCUPIED_QUEENSIDE[ci] };
    assert(occ & blk == 0);
    assert(bit(blk, t) && bit(blk, rt));
    lemma_bit_ops(occ, blk, t);
    lemma_bit_ops(occ, blk, rt);
    lemma_bit_ops(0, 0, t);
    lemma_bit_ops(0, 0, rt);
    lemma_bit_ops(b.colors[0], b.colors[1], t);
    lemma_bit_ops(b.colors[0], b.colors[1], rt);
    assert(b.sq_ok(t) && b.sq_ok(rt));
    assert forall|i: int| 0 <= i < 6 implies !bit(#[trigger] b.pieces[i], t) && !bit(b.pieces[i], rt) by {
        if bit(b.pieces[i], t) {
            assert(b.sq_ok(t));
        }
        if bit(b.pieces[i], rt) {
            assert(b.sq_ok(rt));
        }
    }
}

/// The moves of the knights pinned along no line, onto legal squares.
#[verifier::opaque]
pub open spec fn knight_part(b: Board, quiets: bool, captures: bool) -> Seq<Move> {
    let knights = b.of(KNIGHT as int, b.tomove) & !b.pin_mask(true) & !b.pin_mask(false);
    pieces_moves(b, KNIGHT, knights, b.occ(), legal_targets(b), capture_targets(b, captures), quiet_targets(b, quiets))
}

/// The moves of the bishops and queens along diagonals not pinned along a rank or file:
/// the unpinned ones onto legal squares, then those pinned along a diagonal onto legal
/// squares of that pin mask.
#[verifier::opaque]
pub open spec fn bishop_part(b: Board, quiets: bool, captures: bool) -> Seq<Move> {
    let bp = b.pin_mask(true);
    let all = b.diagonals(b.tomove) & !b.pin_mask(false);
    let pinned = all & bp;
    let caps = capture_targets(b, captures);
    let qs = quiet_targets(b, quiets);
    pieces_moves(b, BISHOP, all ^ pinned, b.occ(), legal_targets(b), caps, qs) + pieces_moves(
        b,
        BISHOP,
        pinned,
        b.occ(),
        legal_targets(b) & bp,
        caps,
        qs,
    )
}

/// The moves of the rooks and queens along lines not pinned along a diagonal: the unpinned
/// ones onto legal squares, then those pinned along a rank or file onto legal squares of
/// that pin mask.
#[verifier::opaque]
pub open spec fn rook_part(b: Board, quiets: bool, captures: bool) -> Seq<Move> {
    let rp = b.pin_mask(false);
    let all = b.orthogonals(b.tomove) & !b.pin_mask(true);
    let pinned = all & rp;
    let caps = capture_targets(b, captures);
    let qs = quiet_targets(b, quiets);
    pieces_moves(b, ROOK, all ^ pinned, b.occ(), legal_targets(b), caps, qs) + pieces_moves(
        b,
        ROOK,
        pinned,
        b.occ(),
        legal_targets(b) & rp,
        caps,
        qs,
    )
}

/// The moves of the pawns: the unpinned ones in every way; those pinned along a rank or
/// file only pushing onto that pin mask; those pinned along a diagonal only capturing onto
/// that pin mask.
#[verifier::opaque]
pub open spec fn pawn_part(b: Board, quiets: bool, captures: bool) -> Seq<Move> {
    let rp = b.pin_mask(false);
    let bp = b.pin_mask(true);
    let all = b.of(PAWN as int, b.tomove);
    let rook_pinned = all & rp;
    let bishop_pinned = all & bp;
    let legal = legal_targets(b);
    let caps = capture_targets(b, captures);
    let qs = quiet_targets(b, quiets);
    pawns_moves(
        b,
        (all ^ rook_pinned) ^ bishop_pinned,
        true,
        0xffff_ffff_ffff_ffff,
        true,
        true,
        0xffff_ffff_ffff_ffff,
        legal,
        caps,
        qs,
        captures,
        quiets,
    ) + pawns_moves(b, rook_pinned, true, rp & legal, false, false, 0, legal, caps, qs, captures, quiets)
        + pawns_moves(b, bishop_pinned, false, 0, false, true, bp, legal, caps, qs, captures, quiets)
}

/// With captures wanted, the en passant captures onto the en passant square.
#[verifier::opaque]
pub open spec fn passant_part(b: Board, captures: bool) -> Seq<Move> {
    if captures {
        match b.passant_square {
            None => Seq::empty(),
            Some(sq) => passant_moves(b, sq as int, pawn_set(!b.tomove, sq as int) & b.of(PAWN as int, b.tomove)),
        }
    } else {
        Seq::empty()
    }
}

/// The moves the generator yields for the side to move, before the list's limit: with
/// `quiets` the quiet moves, with `captures` the captures (and queen promotions); the
/// king's, the castlings, the knights', the diagonal sliders', the line sliders', the
/// pawns' and the en passant captures, in that order.
pub open spec fn generated(b: Board, quiets: bool, captures: bool) -> Seq<Move> {
    king_part(b, quiets, captures) + castle_part(b, quiets) + knight_part(b, quiets, captures) + bishop_part(
        b,
        quiets,
        captures,
    ) + rook_part(b, quiets, captures) + pawn_part(b, quiets, captures) + passant_part(b, captures)
}

impl Board {
    #[verifier::spinoff_prover]
    #[verifier::rlimit(100)]
    /// The moves of the side to move: with `QUIETS` the quiet ones, with `CAPTURES` the
    /// captures and queen promotions. The king steps only to squares the enemy does not
    /// attack, pinned pieces move only along their pin, and in check the other pieces only
    /// capture the checker or block; en passant captures are kept only when they leave the
    /// king safe. A list that fills up takes no more moves.
    pub fn generate_moves<const QUIETS: bool, const CAPTURES: bool>(&mut self, z: &Zobrist) -> (r: MoveList)
        requires
            old(self).wf(),
            old(self).of(KING as int, old(self).tomove) != 0,
            old(self).of(KING as int, !old(self).tomove) != 0,
            -32000 <= old(self).evaluator.phase <= 32000,
            z.wf(),
        ensures
            *final(self) == *old(self),
            r.wf(),
            old(self).all_sound(r@),
            r@ == capped(generated(*old(self), QUIETS, CAPTURES)),
    {
        let mut list: MoveList = List::new();
        let ghost mut acc: Seq<Move> = Seq::empty();
        let ghost mut acc_king: Seq<Move> = Seq::empty();
        let ghost mut acc_knight: Seq<Move> = Seq::empty();
        let ghost mut acc_bishop: Seq<Move> = Seq::empty();
        let ghost mut acc_rook: Seq<Move> = Seq::empty();
        let ghost mut acc_pawn: Seq<Move> = Seq::empty();
        let b = *self;
        let ci: usize = if b.tomove { 1 } else { 0 };
        let occupancy = b.get_occupancy();
        let quiet_sqrs = if QUIETS { !occupancy } else { 0 };
        let capture_squares = if CAPTURES { b.color_index(!b.tomove) } else { 0 };
        proof {
            assert forall|t: int| 0 <= t < 64 && #[trigger] bit(quiet_sqrs, t) implies !bit(b.occ(), t) by {
                lemma_bit_ops(occupancy, 0, t);
            }
            assert forall|t: int| 0 <= t < 64 && #[trigger] bit(capture_squares, t) implies bit(b.cbb(!b.tomove), t) by {
                lemma_bit_ops(0, 0, t);
            }
        }

        let kingbb = b.get_pieces(KING, b.tomove);
        let blind_board = occupancy ^ kingbb;
        let atk_mask = b.generate_atk_mask(!b.tomove, blind_board);

        let legal_squares = if atk_mask & kingbb == 0 {
            0xffff_ffff_ffff_ffffu64
        } else {
            b.check_for_legalmoves()
        };

        {
            let kingsqr = kingbb.lsb();
            let king_atk = king_attacks_from(kingsqr);
            let moves = king_atk & !atk_mask;
            let capture_moves = moves & capture_squares;
            let quiet_moves = moves & quiet_sqrs;
            proof {
                lemma_bit_ops(b.pbb(6), b.cbb(b.tomove), kingsqr as int);
                assert forall|t: int| 0 <= t < 64 && #[trigger] bit(capture_moves, t) implies bit(b.cbb(!b.tomove), t)
                    && b.reaches(KING as int, kingsqr as int, t, true) && !bit(atk_mask, t) by {
                    lemma_bit_ops(moves, capture_squares, t);
                    lemma_bit_ops(king_atk, !atk_mask, t);
                    lemma_bit_ops(atk_mask, 0, t);
                }
                assert forall|t: int| 0 <= t < 64 && #[trigger] bit(quiet_moves, t) implies !bit(b.occ(), t)
                    && b.reaches(KING as int, kingsqr as int, t, false) && !bit(atk_mask, t) by {
                    lemma_bit_ops(moves, quiet_sqrs, t);
                    lemma_bit_ops(king_atk, !atk_mask, t);
                    lemma_bit_ops(atk_mask, 0, t);
                }
            }
            let ghost prev = list@;
            push_targets(&mut list, &b, kingsqr, capture_moves, KING, true);
            proof {
                lemma_extend(prev, acc, target_moves(kingsqr as int, capture_moves, KING as int, true), list@);
                acc = acc + target_moves(kingsqr as int, capture_moves, KING as int, true);
            }
            let ghost prev = list@;
            push_targets(&mut list, &b, kingsqr, quiet_moves, KING, false);
            proof {
                lemma_extend(prev, acc, target_moves(kingsqr as int, quiet_moves, KING as int, false), list@);
                acc = acc + target_moves(kingsqr as int, quiet_moves, KING as int, false);
            }
            proof {
                let kq = kingsqr as int;
                lemma_bits_of(king_atk, |t: int| king_hit(kq, t));
                assert(king_atk == king_set(kq));
                assert(acc == king_part(b, QUIETS, CAPTURES)) by {
                    reveal(king_part);
                    lemma_seq_assoc(target_moves(kq, capture_moves, KING as int, true), Seq::empty(), Seq::empty());
                }
            }
            proof {
                acc_king = acc;
            }

            if QUIETS {
                let rights = b.get_castlerights(b.tomove);
                let is_kingside_legal = rights & 0b10 != 0;
                let is_queenside_legal = rights & 1 != 0;
                let blocking_castle = occupancy;
                let checking_castle = atk_mask;

                let is_kingside_blocked = blocking_castle & BLOCK_OCCUPIED_KINGSIDE[ci] != 0
                    || checking_castle & BLOCK_CHECKED_KINGSIDE[ci] != 0;
                let is_queenside_blocked = blocking_castle & BLOCK_OCCUPIED_QUEENSIDE[ci] != 0
                    || checking_castle & BLOCK_CHECKED_QUEENSIDE[ci] != 0;
                if !is_kingside_blocked && is_kingside_legal {
                    proof {
                        lemma_castle_types();
                        let m = KINGSIDE_CASTLES[ci as int];
                        let t = to_of(m);
                        lemma_bit_ops(checking_castle, BLOCK_CHECKED_KINGSIDE[ci as int], t);
                        lemma_bit_ops(0, 0, t);
                        assert(!bit(atk_mask, t));
                        if one_king(b, !b.tomove) && bit(b.of(KING as int, b.tomove), from_of(m)) {
                            assert forall|nb: Board| nb.wf() && #[trigger] nb.played(&b, m) implies nb.attackers(
                                to_of(m),
                                !b.tomove,
                            ) == 0 by {
                                lemma_castle_safe(b, m, nb);
                            }
                        }
                    }
                    let ghost prev = list@;
                    push_move(&mut list, KINGSIDE_CASTLES[ci]);
                    proof {
                        assert(prev.push(KINGSIDE_CASTLES[ci as int]) =~= prev + seq![KINGSIDE_CASTLES[ci as int]]);
                        lemma_extend(prev, acc, seq![KINGSIDE_CASTLES[ci as int]], list@);
                        acc = acc + seq![KINGSIDE_CASTLES[ci as int]];
                    }
                }

                if !is_queenside_blocked && is_queenside_legal {
                    proof {
                        lemma_castle_types();
                        let m = QUEENSIDE_CASTLES[ci as int];
                        let t = to_of(m);
                        lemma_bit_ops(checking_castle, BLOCK_CHECKED_QUEENSIDE[ci as int], t);
                        lemma_bit_ops(0, 0, t);
                        assert(!bit(atk_mask, t));
                        if one_king(b, !b.tomove) && bit(b.of(KING as int, b.tomove), from_of(m)) {
                            assert forall|nb: Board| nb.wf() && #[trigger] nb.played(&b, m) implies nb.attackers(
                                to_of(m),
                                !b.tomove,
                            ) == 0 by {
                                lemma_castle_safe(b, m, nb);
                            }
                        }
                    }
                    let ghost prev = list@;
                    push_move(&mut list, QUEENSIDE_CASTLES[ci]);
                    proof {
                        assert(prev.push(QUEENSIDE_CASTLES[ci as int]) =~= prev + seq![QUEENSIDE_CASTLES[ci as int]]);
                        lemma_extend(prev, acc, seq![QUEENSIDE_CASTLES[ci as int]], list@);
                        acc = acc + seq![QUEENSIDE_CASTLES[ci as int]];
                    }
                }
            }
        }
        proof {
            assert(acc == acc_king + castle_part(b, QUIETS)) by {
                reveal(castle_part);
                lemma_seq_assoc(acc_king, Seq::empty(), Seq::empty());
                lemma_seq_assoc(acc_king, seq![KINGSIDE_CASTLES[ci as int]], seq![QUEENSIDE_CASTLES[ci as int]]);
                lemma_seq_assoc(seq![KINGSIDE_CASTLES[ci as int]], Seq::empty(), Seq::empty());
                lemma_seq_assoc(seq![QUEENSIDE_CASTLES[ci as int]], Seq::empty(), Seq::empty());
            }
        }
        let ghost acc_castle = acc;
        let rook_pinmask = b.generate_rook_pins();
        let bishop_pinmask = b.generate_bishop_pins();
        let own = b.color_index(b.tomove);
        proof {
            assert(legal_squares == legal_targets(b));
            lemma_lowest(b.of(KING as int, b.tomove));
        }
        {
            // Knights cannot move along rays, so pinned knights never move.
            let all_knights = b.get_pieces(KNIGHT, b.tomove);
            let knights = all_knights & !bishop_pinmask & !rook_pinmask;
            proof {
                assert forall|s: int| #[trigger] bit(knights, s) implies walks(&b, KNIGHT, s) by {
                    lemma_bit_ops(all_knights & !bishop_pinmask, !rook_pinmask, s);
                    lemma_bit_ops(all_knights, !bishop_pinmask, s);
                    lemma_bit_ops(b.pbb(2), b.cbb(b.tomove), s);
                }
            }
            proof {
                assert forall|s: int, t: int|
                    0 <= t < 64 && #[trigger] bit(knights, s) && #[trigger] bit(legal_squares, t) && legal_position(b) implies bit(legal_targets(b), t) && pin_group_ok(b, KNIGHT, s, t) by {
                    lemma_bit_ops(all_knights & !bishop_pinmask, !rook_pinmask, s);
                    lemma_bit_ops(all_knights, !bishop_pinmask, s);
                    lemma_bit_ops(rook_pinmask, 0, s);
                    lemma_bit_ops(bishop_pinmask, 0, s);
                }
            }
            let ghost prev = list@;
            gen_piece_moves(&mut list, &b, knights, KNIGHT, occupancy, legal_squares, capture_squares, quiet_sqrs);
            proof {
                lemma_extend(prev, acc, pieces_moves(b, KNIGHT, knights, occupancy, legal_squares, capture_squares, quiet_sqrs), list@);
                acc = acc + pieces_moves(b, KNIGHT, knights, occupancy, legal_squares, capture_squares, quiet_sqrs);
            }
            proof {
                assert(acc == acc_castle + knight_part(b, QUIETS, CAPTURES)) by {
                    reveal(knight_part);
                }
                acc_knight = acc;
            }
        }
        {
            let diag = b.get_diagonal_sliders(b.tomove);
            let bishops_all = diag & !rook_pinmask;
            let pinned_bishops = bishops_all & bishop_pinmask;
            let bishops = bishops_all ^ pinned_bishops;
            proof {
                assert forall|s: int| #[trigger] bit(bishops, s) implies walks(&b, BISHOP, s) by {
                    lemma_bit_ops(bishops_all, pinned_bishops, s);
                    lemma_bit_ops(bishops_all, bishop_pinmask, s);
                    lemma_bit_ops(diag, !rook_pinmask, s);
                }
                assert forall|s: int| #[trigger] bit(pinned_bishops, s) implies walks(&b, BISHOP, s) by {
                    lemma_bit_ops(bishops_all, bishop_pinmask, s);
                    lemma_bit_ops(diag, !rook_pinmask, s);
                }
            }
            proof {
                assert forall|s: int, t: int|
                    0 <= t < 64 && #[trigger] bit(bishops, s) && #[trigger] bit(legal_squares, t) && legal_position(b) implies bit(legal_targets(b), t) && pin_group_ok(b, BISHOP, s, t) by {
                    lemma_bit_ops(bishops_all, pinned_bishops, s);
                    lemma_bit_ops(bishops_all, bishop_pinmask, s);
                    lemma_bit_ops(diag, !rook_pinmask, s);
                    lemma_bit_ops(rook_pinmask, 0, s);
                }
                assert forall|s: int, t: int|
                    0 <= t < 64 && #[trigger] bit(pinned_bishops, s) && #[trigger] bit(legal_squares & bishop_pinmask, t)
                    && legal_position(b) implies bit(legal_targets(b), t) && pin_group_ok(b, BISHOP, s, t) by {
                    lemma_bit_ops(bishops_all, bishop_pinmask, s);
                    lemma_bit_ops(diag, !rook_pinmask, s);
                    lemma_bit_ops(rook_pinmask, 0, s);
                    lemma_bit_ops(legal_squares, bishop_pinmask, t);
                    lemma_pin_target(b, true, t);
                }
            }
            let ghost prev = list@;
            gen_piece_moves(&mut list, &b, bishops, BISHOP, occupancy, legal_squares, capture_squares, quiet_sqrs);
            proof {
                lemma_extend(prev, acc, pieces_moves(b, BISHOP, bishops, occupancy, legal_squares, capture_squares, quiet_sqrs), list@);
                acc = acc + pieces_moves(b, BISHOP, bishops, occupancy, legal_squares, capture_squares, quiet_sqrs);
            }
            let ghost prev = list@;
            gen_piece_moves(&mut list, &b, pinned_bishops, BISHOP, occupancy, legal_squares & bishop_pinmask, capture_squares, quiet_sqrs);
            proof {
                lemma_extend(prev, acc, pieces_moves(b, BISHOP, pinned_bishops, occupancy, legal_squares & bishop_pinmask, capture_squares, quiet_sqrs), list@);
                acc = acc + pieces_moves(b, BISHOP, pinned_bishops, occupancy, legal_squares & bishop_pinmask, capture_squares, quiet_sqrs);
            }
            proof {
                assert(acc == acc_knight + bishop_part(b, QUIETS, CAPTURES)) by {
                    reveal(bishop_part);
                    lemma_seq_assoc(acc_knight, pieces_moves(b, BISHOP, bishops, occupancy, legal_squares, capture_squares, quiet_sqrs), pieces_moves(b, BISHOP, pinned_bishops, occupancy, legal_squares & bishop_pinmask, capture_squares, quiet_sqrs));
                }
                acc_bishop = acc;
            }
        }
        {
            let orth = b.get_orthogonal_sliders(b.tomove);
            let rooks_all = orth & !bishop_pinmask;
            let pinned_rooks = rooks_all & rook_pinmask;
            let rooks = rooks_all ^ pinned_rooks;
            proof {
                assert forall|s: int| #[trigger] bit(rooks, s) implies walks(&b, ROOK, s) by {
                    lemma_bit_ops(rooks_all, pinned_rooks, s);
                    lemma_bit_ops(rooks_all, rook_pinmask, s);
                    lemma_bit_ops(orth, !bishop_pinmask, s);
                }
                assert forall|s: int| #[trigger] bit(pinned_rooks, s) implies walks(&b, ROOK, s) by {
                    lemma_bit_ops(rooks_all, rook_pinmask, s);
                    lemma_bit_ops(orth, !bishop_pinmask, s);
                }
            }
            proof {
                assert forall|s: int, t: int|
                    0 <= t < 64 && #[trigger] bit(rooks, s) && #[trigger] bit(legal_squares, t) && legal_position(b) implies bit(legal_targets(b), t) && pin_group_ok(b, ROOK, s, t) by {
                    lemma_bit_ops(rooks_all, pinned_rooks, s);
                    lemma_bit_ops(rooks_all, rook_pinmask, s);
                    lemma_bit_ops(orth, !bishop_pinmask, s);
                    lemma_bit_ops(bishop_pinmask, 0, s);
                }
                assert forall|s: int, t: int|
                    0 <= t < 64 && #[trigger] bit(pinned_rooks, s) && #[trigger] bit(legal_squares & rook_pinmask, t)
                    && legal_position(b) implies bit(legal_targets(b), t) && pin_group_ok(b, ROOK, s, t) by {
                    lemma_bit_ops(rooks_all, rook_pinmask, s);
                    lemma_bit_ops(orth, !bishop_pinmask, s);
                    lemma_bit_ops(bishop_pinmask, 0, s);
                    lemma_bit_ops(legal_squares, rook_pinmask, t);
                    lemma_pin_target(b, false, t);
                }
            }
            let ghost prev = list@;
            gen_piece_moves(&mut list, &b, rooks, ROOK, occupancy, legal_squares, capture_squares, quiet_sqrs);
            proof {
                lemma_extend(prev, acc, pieces_moves(b, ROOK, rooks, occupancy, legal_squares, capture_squares, quiet_sqrs), list@);
                acc = acc + pieces_moves(b, ROOK, rooks, occupancy, legal_squares, capture_squares, quiet_sqrs);
            }
            let ghost prev = list@;
            gen_piece_moves(&mut list, &b, pinned_rooks, ROOK, occupancy, legal_squares & rook_pinmask, capture_squares, quiet_sqrs);
            proof {
                lemma_extend(prev, acc, pieces_moves(b, ROOK, pinned_rooks, occupancy, legal_squares & rook_pinmask, capture_squares, quiet_sqrs), list@);
                acc = acc + pieces_moves(b, ROOK, pinned_rooks, occupancy, legal_squares & rook_pinmask, capture_squares, quiet_sqrs);
            }
            proof {
                assert(acc == acc_bishop + rook_part(b, QUIETS, CAPTURES)) by {
                    reveal(rook_part);
                    lemma_seq_assoc(acc_bishop, pieces_moves(b, ROOK, rooks, occupancy, legal_squares, capture_squares, quiet_sqrs), pieces_moves(b, ROOK, pinned_rooks, occupancy, legal_squares & rook_pinmask, capture_squares, quiet_sqrs));
                }
                acc_rook = acc;
            }
        }
        {
            let pawns_all = b.get_pieces(PAWN, b.tomove);
            let rook_pinned = pawns_all & rook_pinmask;
            let bishop_pinned = pawns_all & bishop_pinmask;
            let pawns = (pawns_all ^ rook_pinned) ^ bishop_pinned;
            proof {
                assert forall|s: int| #[trigger] bit(pawns, s) implies b.own_at(s, PAWN as int) by {
                    lemma_bit_ops(pawns_all ^ rook_pinned, bishop_pinned, s);
                    lemma_bit_ops(pawns_all, rook_pinned, s);
                    lemma_bit_ops(pawns_all, rook_pinmask, s);
                    lemma_bit_ops(pawns_all, bishop_pinmask, s);
                    lemma_bit_ops(b.pbb(1), b.cbb(b.tomove), s);
                }
                assert forall|s: int| #[trigger] bit(rook_pinned, s) implies b.own_at(s, PAWN as int) by {
                    lemma_bit_ops(pawns_all, rook_pinmask, s);
                    lemma_bit_ops(b.pbb(1), b.cbb(b.tomove), s);
                }
                assert forall|s: int| #[trigger] bit(bishop_pinned, s) implies b.own_at(s, PAWN as int) by {
                    lemma_bit_ops(pawns_all, bishop_pinmask, s);
                    lemma_bit_ops(b.pbb(1), b.cbb(b.tomove), s);
                }
            }
            proof {
                assert forall|s: int, t: int| #[trigger] bit(pawns, s) && #[trigger] bit(0xffff_ffff_ffff_ffffu64, t)
                    && legal_position(b) implies pawn_pin_fits(b, false, s, t) && pawn_pin_fits(b, true, s, t) by {
                    lemma_bit_ops(pawns_all ^ rook_pinned, bishop_pinned, s);
                    lemma_bit_ops(pawns_all, rook_pinned, s);
                    lemma_bit_ops(pawns_all, rook_pinmask, s);
                    lemma_bit_ops(pawns_all, bishop_pinmask, s);
                    lemma_bit_ops(b.pbb(1), b.cbb(b.tomove), s);
                    if 0 <= s < 64 {
                        lemma_one_pin(b, s);
                    }
                }
                assert forall|s: int| #[trigger] bit(pawns, s) && legal_position(b) implies unpinned(b, s) by {
                    lemma_bit_ops(0xffff_ffff_ffff_ffffu64, 0, s);
                    lemma_bit_ops(pawns_all ^ rook_pinned, bishop_pinned, s);
                    lemma_bit_ops(pawns_all, rook_pinned, s);
                    lemma_bit_ops(pawns_all, rook_pinmask, s);
                    lemma_bit_ops(pawns_all, bishop_pinmask, s);
                    lemma_bit_ops(b.pbb(1), b.cbb(b.tomove), s);
                    if 0 <= s < 64 {
                        lemma_one_pin(b, s);
                    }
                }
                assert forall|s: int, t: int| #[trigger] bit(rook_pinned, s) && #[trigger] bit(rook_pinmask & legal_squares, t)
                    && legal_position(b) implies pawn_pin_fits(b, false, s, t) by {
                    lemma_bit_ops(pawns_all, rook_pinmask, s);
                    lemma_bit_ops(rook_pinmask, legal_squares, t);
                    lemma_bit_ops(b.pbb(1), b.cbb(b.tomove), s);
                    if 0 <= s < 64 {
                        lemma_one_pin(b, s);
                    }
                }
                assert forall|s: int, t: int| #[trigger] bit(bishop_pinned, s) && #[trigger] bit(bishop_pinmask, t)
                    && legal_position(b) implies pawn_pin_fits(b, true, s, t) by {
                    lemma_bit_ops(pawns_all, bishop_pinmask, s);
                    lemma_bit_ops(b.pbb(1), b.cbb(b.tomove), s);
                    if 0 <= s < 64 {
                        lemma_one_pin(b, s);
                    }
                }
                assert forall|t: int| !#[trigger] bit(0u64, t) by {
                    lemma_bit_ops(0, 0, t);
                }
            }
            let ghost prev = list@;
            gen_pawn_moves(&mut list, &b, pawns, true, 0xffff_ffff_ffff_ffff, true, true, 0xffff_ffff_ffff_ffff, legal_squares, capture_squares, quiet_sqrs, CAPTURES, QUIETS);
            proof {
                lemma_extend(prev, acc, pawns_moves(b, pawns, true, 0xffff_ffff_ffff_ffff, true, true, 0xffff_ffff_ffff_ffff, legal_squares, capture_squares, quiet_sqrs, CAPTURES, QUIETS), list@);
                acc = acc + pawns_moves(b, pawns, true, 0xffff_ffff_ffff_ffff, true, true, 0xffff_ffff_ffff_ffff, legal_squares, capture_squares, quiet_sqrs, CAPTURES, QUIETS);
            }
            let ghost prev = list@;
            gen_pawn_moves(&mut list, &b, rook_pinned, true, rook_pinmask & legal_squares, false, false, 0, legal_squares, capture_squares, quiet_sqrs, CAPTURES, QUIETS);
            proof {
                lemma_extend(prev, acc, pawns_moves(b, rook_pinned, true, rook_pinmask & legal_squares, false, false, 0, legal_squares, capture_squares, quiet_sqrs, CAPTURES, QUIETS), list@);
                acc = acc + pawns_moves(b, rook_pinned, true, rook_pinmask & legal_squares, false, false, 0, legal_squares, capture_squares, quiet_sqrs, CAPTURES, QUIETS);
            }
            let ghost prev = list@;
            gen_pawn_moves(&mut list, &b, bishop_pinned, false, 0, false, true, bishop_pinmask, legal_squares, capture_squares, quiet_sqrs, CAPTURES, QUIETS);
            proof {
                lemma_extend(prev, acc, pawns_moves(b, bishop_pinned, false, 0, false, true, bishop_pinmask, legal_squares, capture_squares, quiet_sqrs, CAPTURES, QUIETS), list@);
                acc = acc + pawns_moves(b, bishop_pinned, false, 0, false, true, bishop_pinmask, legal_squares, capture_squares, quiet_sqrs, CAPTURES, QUIETS);
            }
            proof {
                assert(acc == acc_rook + pawn_part(b, QUIETS, CAPTURES)) by {
                    reveal(pawn_part);
                    let x1 = pawns_moves(b, pawns, true, 0xffff_ffff_ffff_ffff, true, true, 0xffff_ffff_ffff_ffff, legal_squares, capture_squares, quiet_sqrs, CAPTURES, QUIETS);
                    let x2 = pawns_moves(b, rook_pinned, true, rook_pinmask & legal_squares, false, false, 0, legal_squares, capture_squares, quiet_sqrs, CAPTURES, QUIETS);
                    let x3 = pawns_moves(b, bishop_pinned, false, 0, false, true, bishop_pinmask, legal_squares, capture_squares, quiet_sqrs, CAPTURES, QUIETS);
                    lemma_seq_assoc(acc_rook, x1, x2);
                    lemma_seq_assoc(acc_rook, x1 + x2, x3);
                }
                acc_pawn = acc;
            }

            if CAPTURES {
                let ghost prev = list@;
                self.gen_passant(&mut list, z);
                proof {
                    lemma_extend(prev, acc, match b.passant_square { None => Seq::<Move>::empty(), Some(sq) => passant_moves(b, sq as int, pawn_set(!b.tomove, sq as int) & b.of(PAWN as int, b.tomove)) }, list@);
                    acc = acc + match b.passant_square { None => Seq::<Move>::empty(), Some(sq) => passant_moves(b, sq as int, pawn_set(!b.tomove, sq as int) & b.of(PAWN as int, b.tomove)) };
                }
            }
        }
        proof {
            assert(acc == acc_pawn + passant_part(b, CAPTURES)) by {
                reveal(passant_part);
                lemma_seq_assoc(acc_pawn, Seq::empty(), Seq::empty());
            }
            assert(acc == generated(b, QUIETS, CAPTURES));
        }
        list
    }

    /// Appends the en passant captures onto the en passant square that leave the king
    /// safe; the captured pawn must stand behind that square.
    fn gen_passant(&self, list: &mut MoveList, z: &Zobrist)
        requires
            old(list).wf(),
            self.wf(),
            self.all_sound(old(list)@),
            self.of(KING as int, self.tomove) != 0,
            -32000 <= self.evaluator.phase <= 32000,
            z.wf(),
        ensures
            final(list).wf(),
            self.all_sound(final(list)@),
            final(list)@ == capped(
                old(list)@ + match self.passant_square {
                    None => Seq::empty(),
                    Some(sq) => passant_moves(*self, sq as int, pawn_set(!self.tomove, sq as int) & self.of(
                        PAWN as int,
                        self.tomove,
                    )),
                },
            ),
    {
        let square = match self.passant_square {
            None => {
                proof {
                    assert(old(list)@ + Seq::<Move>::empty() =~= old(list)@);
                }
                return;
            },
            Some(sqr) => sqr,
        };
        let passant_bb = pawn_attacks_from(square, !self.tomove);
        let mut possible_pawns = passant_bb & self.get_pieces(PAWN, self.tomove);
        let ghost all = possible_pawns;
        proof {
            let sq = square as int;
            let c = !self.tomove;
            lemma_bits_of(passant_bb, |t: int| pawn_hit(c, sq, t));
        }
        while possible_pawns != 0
            invariant
                list.wf(),
                self.wf(),
                self.all_sound(list@),
                self.of(KING as int, self.tomove) != 0,
                -32000 <= self.evaluator.phase <= 32000,
                z.wf(),
                self.passant_square == Some(square),
                square < 64,
                forall|s: int| bit(possible_pawns, s) ==> #[trigger] bit(all, s),
                all == passant_bb & self.of(PAWN as int, self.tomove),
                forall|t: int| 0 <= t < 64 ==> bit(passant_bb, t) == pawn_hit(!self.tomove, square as int, t),
                all == pawn_set(!self.tomove, square as int) & self.of(PAWN as int, self.tomove),
                capped(list@ + passant_moves(*self, square as int, possible_pawns)) == capped(
                    old(list)@ + passant_moves(*self, square as int, all),
                ),
            decreases count(possible_pawns),
        {
            let ghost old_pp = possible_pawns;
            let ghost before = list@;
            let from = possible_pawns.pop_lsb();
            proof {
                crate::board_state::bitboard::lemma_count_pop(old_pp);
                assert(bit(all, from as int));
                lemma_bit_ops(passant_bb, self.of(PAWN as int, self.tomove), from as int);
                lemma_bit_ops(self.pbb(1), self.cbb(self.tomove), from as int);
            }
            let to = square;
            let newpassant = <Move as Action>::new_move(from, to, PASSANT, PAWN);
            proof {
                assert(newpassant == built_move(from as int, to as int, PASSANT as int, PAWN as int, false));
            }
            if self.passant_fits(newpassant) {
                let newb = self.do_move(newpassant, z);
                proof {
                    let k = lowest(self.of(KING as int, self.tomove));
                    crate::board_state::bitboard::lemma_lowest(self.of(KING as int, self.tomove));
                    lemma_bit_ops(self.pbb(6), self.cbb(self.tomove), k);
                    self.lemma_wf_square(k);
                    self.lemma_wf_square(from as int);
                    lemma_bit_ops(self.colors[0], self.colors[1], k);
                    assert(!Board::touched(newpassant, k));
                    assert(newb.same_at(self, k));
                    lemma_bit_ops(newb.pbb(6), newb.cbb(self.tomove), k);
                    lemma_bit_ops(0, 0, k);
                }
                if !newb.incheck(self.tomove) {
                    proof {
                        lemma_bit_ops(self.colors[0], self.colors[1], to as int);
                        lemma_pawn_hit_back(self.tomove, from as int, to as int);
                        assert(bit(passant_bb, from as int));
                        assert(pawn_hit(!self.tomove, square as int, from as int));
                        assert(self.reaches(PAWN as int, from as int, to as int, true));
                        lemma_passant_keeps_kings(*self, newpassant, newb);
                        assert forall|nb: Board| nb.wf() && #[trigger] nb.played(self, newpassant) implies nb.attackers(
                            self.king_square_after(newpassant),
                            !self.tomove,
                        ) == 0 by {
                            lemma_played_same(*self, newpassant, nb, newb);
                        }
                    }
                    push_move(list, newpassant);
                    proof {
                        lemma_capped_push(before, newpassant, passant_moves(*self, square as int, possible_pawns));
                    }
                } else {
                    proof {
                        lemma_passant_keeps_kings(*self, newpassant, newb);
                        assert(!self.king_safe_after(newpassant));
                        assert(before + passant_moves(*self, square as int, old_pp) =~= before + passant_moves(
                            *self,
                            square as int,
                            possible_pawns,
                        ));
                    }
                }
            } else {
                proof {
                    assert(before + passant_moves(*self, square as int, old_pp) =~= before + passant_moves(
                        *self,
                        square as int,
                        possible_pawns,
                    ));
                }
            }
        }
        proof {
            assert(list@ + passant_moves(*self, square as int, possible_pawns) =~= list@);
        }
    }

    /// An en passant capture fits the board: the target is empty and an enemy pawn stands
    /// behind it.
    fn passant_fits(&self, m: Move) -> (r: bool)
        requires
            self.wf(),
            type_of(m) == PASSANT,
            self.own_at(from_of(m), PAWN as int),
        ensures
            r == (!bit(self.occ(), to_of(m)) && bit(self.of(PAWN as int, !self.tomove), passant_victim(to_of(m)))),
            r ==> self.fits(m),
    {
        let to = m.move_to();
        proof {
            crate::move_generation::makemove::lemma_flip_rank_bit(to);
        }
        let victim = to ^ 8;
        let enemy_pawns = self.get_pieces(PAWN, !self.tomove);
        let r = self.is_empty(to) && bit_at(enemy_pawns, victim);
        proof {
            if r {
                lemma_bit_ops(self.pbb(1), self.cbb(!self.tomove), victim as int);
                self.lemma_wf_square(to as int);
                self.lemma_wf_square(from_of(m));
                lemma_bit_ops(self.colors[0], self.colors[1], to as int);
                lemma_bit_ops(self.colors[0], self.colors[1], victim as int);
                lemma_bit_ops(self.colors[0], self.colors[1], from_of(m));
                assert forall|i: int| 0 <= i < 6 implies !bit(#[trigger] self.pieces[i], to as int) by {
                    if bit(self.pieces[i], to as int) {
                        assert(self.sq_ok(to as int));
                    }
                }
            }
        }
        r
    }
}

/// The four castling moves are castling moves.
proof fn lemma_castle_types()
    by (bit_vector)
    ensures
        (397700u32 >> 12u32) & 3 == 1,
        (401340u32 >> 12u32) & 3 == 1,
        (397444u32 >> 12u32) & 3 == 1,
        (401084u32 >> 12u32) & 3 == 1,
        397700u32 & 63 == 4 && (397700u32 >> 6u32) & 63 == 6,
        401340u32 & 63 == 60 && (401340u32 >> 6u32) & 63 == 62,
        397444u32 & 63 == 4 && (397444u32 >> 6u32) & 63 == 2,
        401084u32 & 63 == 60 && (401084u32 >> 6u32) & 63 == 58,
        (0x70u64 >> 6u64) & 1 == 1,
        (0x7000000000000000u64 >> 62u64) & 1 == 1,
        (0x1cu64 >> 2u64) & 1 == 1,
        (0x1c00000000000000u64 >> 58u64) & 1 == 1,
        (0x60u64 >> 5u64) & 1 == 1 && (0x60u64 >> 6u64) & 1 == 1,
        (0xeu64 >> 2u64) & 1 == 1 && (0xeu64 >> 3u64) & 1 == 1,
        (0x6000000000000000u64 >> 61u64) & 1 == 1 && (0x6000000000000000u64 >> 62u64) & 1 == 1,
        (0xe00000000000000u64 >> 58u64) & 1 == 1 && (0xe00000000000000u64 >> 59u64) & 1 == 1,
{
}

/// A castling right kept by a mask of the four rights that kings and rooks support is
/// supported; the side to move reads its two rights as bits 1 (kingside) and 0.
proof fn lemma_castle_bits(x: u8, p1: bool, p2: bool, p3: bool, p4: bool)
    by (bit_vector)
    requires
        x & ((((if p1 { 8u8 } else { 0u8 }) | (if p2 { 4u8 } else { 0u8 })) | (if p3 { 2u8 } else { 0u8 })) | (
        if p4 { 1u8 } else { 0u8 })) == x,
    ensures
        (x >> 2u8) & 2 != 0 ==> p1,
        (x >> 2u8) & 1 != 0 ==> p2,
        x & 2 != 0 ==> p3,
        x & 1 != 0 ==> p4,
{
}

/// Whether square `s` is in `b`.
fn bit_at(b: Bitboard, s: Square) -> (r: bool)
    requires
        s < 64,
    ensures
        r == bit(b, s as int),
{
    proof {
        crate::board_state::bitboard::lemma_bitv_exec(b, s as u64);
    }
    (b >> s) & 1 == 1
}

} // verus!
