use vstd::prelude::*;
use crate::board_state::bitboard::{
    bb_sum, bishop_hit, bit, count, king_hit, knight_hit, lemma_bb_sum_bounds, lemma_bb_sum_remove,
    lemma_bit_ops, lemma_lowest, lowest, rook_hit, rotl, shifted, single,
};
use crate::move_generation::action::{from_of, promo_of, to_of, type_of, Action, Move, PASSANT, PROMOTION};
use crate::move_generation::movegen::{bishop_set, king_set, knight_set, lemma_bits_of, rook_set};
use crate::movegen::atks;
use crate::movegen::bitboard::{self, Bitboard, Direction};
use crate::movegen::board::Board;
use crate::movegen::types::{color_index, other, piece_index, piece_of_index, Color, Piece, Square};

verus! {

pub const SEEVALUES: [i16; 7] = [100, 300, 300, 500, 900, 10_000, 0];

/// The exchange value of a piece.
pub open spec fn value(p: Piece) -> i16 {
    SEEVALUES[piece_index(p)]
}

impl Board {
    /// Most valuable victim, least valuable attacker: the victim's value less an eighth of
    /// the attacker's.
    pub fn mvv_lva(&self, action: Move) -> (r: i16)
        ensures
            r == value(self.piece_array[to_of(action)]) - value(self.piece_array[from_of(action)]) / 8,
    {
        let victim = self.get_piece(action.move_to());
        let attacker = self.get_piece(action.move_from());
        let attackervalue = SEEVALUES[attacker.index()] / 8;
        SEEVALUES[victim.index()] - attackervalue
    }

    /// The pieces of `color` attacking `square` when the board is occupied as `occ`.
    pub open spec fn side_attackers(&self, square: int, color: Color, occ: u64) -> u64 {
        let pf = match other(color) {
            Color::W => rotl(single(square), 8),
            Color::B => rotl(single(square), 56),
        };
        let ci = color_index(color);
        let pawn_atks = shifted(pf, crate::board_state::bitboard::Direction::E) | shifted(
            pf,
            crate::board_state::bitboard::Direction::W,
        );
        (((((self.piece_bbs[3] | self.piece_bbs[4]) & self.colors[ci]) & rook_set(square, occ)) | ((
        self.piece_bbs[2] | self.piece_bbs[4]) & self.colors[ci] & bishop_set(square, occ))) | ((
        self.piece_bbs[1] & self.colors[ci]) & knight_set(square)) | ((self.piece_bbs[0]
            & self.colors[ci]) & pawn_atks)) | ((self.piece_bbs[5] & self.colors[ci]) & king_set(square))
    }

    pub open spec fn all_attackers(&self, square: int, occ: u64) -> u64 {
        self.side_attackers(square, Color::W, occ) | self.side_attackers(square, Color::B, occ)
    }

    /// The sliders of both colors that attack `square` through `occ`, among the occupied
    /// squares.
    pub open spec fn xray(&self, square: int, occ: u64) -> u64 {
        let diag = ((self.piece_bbs[2] | self.piece_bbs[4]) & self.colors[0]) | ((self.piece_bbs[2]
            | self.piece_bbs[4]) & self.colors[1]);
        let orth = ((self.piece_bbs[3] | self.piece_bbs[4]) & self.colors[0]) | ((self.piece_bbs[3]
            | self.piece_bbs[4]) & self.colors[1]);
        ((rook_set(square, occ) & orth) | (bishop_set(square, occ) & diag)) & occ
    }

    /// The lowest square of the least valuable piece type of `color` among `valid`, from
    /// type `p` on, or 0 when there is none.
    pub open spec fn least_valuable(&self, valid: u64, color: Color, p: int) -> u64
        decreases 6 - p,
    {
        if p >= 6 {
            0
        } else {
            let subset = (self.piece_bbs[p] & self.colors[color_index(color)]) & valid;
            if subset != 0 {
                single(lowest(subset))
            } else {
                self.least_valuable(valid, color, p + 1)
            }
        }
    }

    /// The gains of the exchange on `square`, the gains so far being `gains`: the piece on
    /// `from_bb` has just taken and stands on the square worth `v`, so the next gain is `v`
    /// less the last. The exchange stops there when neither taking on nor having stopped
    /// before helps the side to take (both are negative); else the taker leaves its square
    /// (which may uncover sliders behind it) and the side `color` takes with its least
    /// valuable attacker, until a side has none left.
    pub open spec fn see_gains(
        &self,
        square: int,
        color: Color,
        occ: u64,
        attdef: u64,
        from_bb: u64,
        could_expose: u64,
        gains: Seq<int>,
        v: int,
        fuel: nat,
    ) -> Seq<int>
        decreases fuel,
    {
        let last = gains.last();
        let g = v - last;
        let gains2 = gains.push(g);
        if fuel == 0 || (if -last > g { -last } else { g }) < 0 {
            gains2
        } else {
            let attdef1 = attdef ^ from_bb;
            let occ1 = occ ^ from_bb;
            let attdef2 = if from_bb & could_expose > 0 { attdef1 | self.xray(square, occ1) } else { attdef1 };
            let next = self.least_valuable(attdef2, color, 0);
            if next == 0 {
                gains2
            } else {
                self.see_gains(
                    square,
                    other(color),
                    occ1,
                    attdef2,
                    next,
                    could_expose,
                    gains2,
                    value(self.piece_array[lowest(next)]) as int,
                    (fuel - 1) as nat,
                )
            }
        }
    }
}

/// The value of an exchange from step `d` on, its gains being `g` and `top` its last step
/// that counts: each side stops when going on would lose, the gains taken back from the
/// last step to the first.
pub open spec fn settle(g: Seq<int>, d: int, top: int) -> int
    decreases top - d,
{
    if d >= top {
        g[d]
    } else {
        let later = settle(g, d + 1, top);
        if g[d] < -later {
            g[d]
        } else {
            -later
        }
    }
}

impl Board {
    /// The gains of the exchange a capture starts on its target square.
    pub open spec fn capture_gains(&self, action: Move) -> Seq<int> {
        let could = self.piece_bbs[0] | self.piece_bbs[2] | self.piece_bbs[3] | self.piece_bbs[4];
        self.see_gains(
            to_of(action),
            other(self.active_color),
            self.occ(),
            self.all_attackers(to_of(action), self.occ()),
            single(from_of(action)),
            could,
            seq![value(self.piece_array[to_of(action)]) as int],
            value(self.piece_array[from_of(action)]) as int,
            count(self.occ()) as nat,
        )
    }

    /// Static exchange evaluation of a capture: en passant is worth a pawn and a promotion
    /// the promoted piece. Otherwise the captures on the target square alternate between
    /// the sides, each taking with its least valuable attacker and each capture gaining the
    /// value of the piece taken, until a side has no attacker left or a side would lose by
    /// going on whatever it did before; the result is what the side to move gains when each
    /// side stops when going on would lose. The moving piece must stand on its start square
    /// and attack the target.
    pub fn see(&self, action: Move) -> (r: i16)
        requires
            type_of(action) != PASSANT && type_of(action) != PROMOTION ==> bit(
                self.all_attackers(to_of(action), self.occ()),
                from_of(action),
            ),
        ensures
            type_of(action) == PASSANT ==> r == 100,
            type_of(action) == PROMOTION ==> r == SEEVALUES[promo_of(action) - 1],
            type_of(action) != PASSANT && type_of(action) != PROMOTION ==> self.capture_gains(action).len() >= 2
                && r == settle(self.capture_gains(action), 0, self.capture_gains(action).len() - 2),
    {
        let mt = action.move_type();
        if mt == PASSANT {
            return 100;
        }
        if mt == PROMOTION {
            return SEEVALUES[(action.promote_to() - 1) as usize];
        }

        let from = action.move_from();
        let mut from_bb = bitboard::new_bb(from);
        let seesquare = action.move_to();
        let attacker = self.get_piece(from);
        let target = self.get_piece(seesquare);
        let v = SEEVALUES[attacker.index()];
        let g0 = SEEVALUES[target.index()];
        let mut attacker_value = v;

        let could_expose_xray = self.piecetype(Piece::P) | self.piecetype(Piece::B) | self.piecetype(
            Piece::R,
        ) | self.piecetype(Piece::Q);
        let mut gain: Vec<i16> = Vec::new();
        gain.push(g0);
        let mut depth: usize = 0;
        let mut occupancy = self.occupancy();
        let mut attacks_defenders = self.attackers_on_square(seesquare, occupancy);
        let ghost could = could_expose_xray;
        let ghost fin = self.capture_gains(action);
        let ghost mut gs: Seq<int> = seq![g0 as int];

        let mut color = self.active_color();
        proof {
            lemma_bb_sum_bounds(occupancy, |t: int| 1int, 64, 0, 1);
            self.lemma_attackers_sub(seesquare as int, occupancy);
            crate::board_state::bitboard::lemma_single(from as u64);
            lemma_lowest(single(from as int));
            assert(gs.last() == g0);
        }
        loop
            invariant_except_break
                self.see_gains(seesquare as int, other(color), occupancy, attacks_defenders, from_bb, could, gs,
                    attacker_value as int, count(occupancy) as nat) == fin,
                0 <= gain@[depth as int] <= 10000,
                0 <= attacker_value <= 10000,
                0 <= count(occupancy) <= 64,
                depth + count(occupancy) <= 64,
                from_bb != 0,
                from_bb == single(lowest(from_bb)),
                bit(attacks_defenders, lowest(from_bb)),
                forall|t: int| bit(attacks_defenders, t) ==> bit(occupancy, t),
            invariant
                gain@.len() == depth + 1,
                gs.len() == depth + 1,
                forall|k: int| 0 <= k <= depth ==> #[trigger] gs[k] == gain@[k] as int,
                forall|k: int| 0 <= k <= depth ==> -10000 <= #[trigger] gain@[k] <= 10000,
                could == could_expose_xray,
                seesquare < 64,
                depth <= 65,
                fin == self.capture_gains(action),
            ensures
                gs == fin,
                depth >= 1,
            decreases count(occupancy),
        {
            color = std::ops::Not::not(color);
            depth += 1;
            let g = attacker_value - gain[depth - 1];
            gain.push(g);
            let ghost old_gs = gs;
            proof {
                gs = gs.push(g as int);
            }
            let prev_neg = -gain[depth - 1];
            let best = if prev_neg > g { prev_neg } else { g };
            if best < 0 {
                break;
            }
            let ghost old_occ = occupancy;
            let ghost old_att = attacks_defenders;
            let ghost old_from = from_bb;
            let ghost sq_from = lowest(from_bb);
            attacks_defenders ^= from_bb;
            occupancy ^= from_bb;
            proof {
                crate::board_state::bitboard::lemma_single(sq_from as u64);
                assert forall|t: int| 0 <= t < 64 && t != sq_from implies bit(old_occ, t) == bit(occupancy, t) by {
                    lemma_bit_ops(old_occ, old_from, t);
                }
                lemma_bit_ops(old_occ, old_from, sq_from);
                lemma_bb_sum_remove(old_occ, occupancy, |t: int| 1int, sq_from, 64);
                lemma_bb_sum_bounds(occupancy, |t: int| 1int, 64, 0, 1);
                assert(count(old_occ) == count(occupancy) + 1);
                assert forall|t: int| bit(attacks_defenders, t) implies bit(occupancy, t) by {
                    lemma_bit_ops(old_att, old_from, t);
                    lemma_bit_ops(old_occ, old_from, t);
                }
            }
            if from_bb & could_expose_xray > 0 {
                let xr = self.xray_attackers(seesquare, occupancy);
                let ghost before = attacks_defenders;
                attacks_defenders |= xr;
                proof {
                    assert forall|t: int| bit(attacks_defenders, t) implies bit(occupancy, t) by {
                        lemma_bit_ops(before, xr, t);
                        lemma_bit_ops(((rook_set(seesquare as int, occupancy) & (((self.piece_bbs[3] | self.piece_bbs[4]) & self.colors[0]) | ((self.piece_bbs[3] | self.piece_bbs[4]) & self.colors[1]))) | (bishop_set(seesquare as int, occupancy) & (((self.piece_bbs[2] | self.piece_bbs[4]) & self.colors[0]) | ((self.piece_bbs[2] | self.piece_bbs[4]) & self.colors[1])))), occupancy, t);
                    }
                }
            }
            let ghost att2 = attacks_defenders;
            from_bb = self.get_least_valuable_piece(attacks_defenders, color);
            proof {
                self.lemma_least_valuable(att2, color, 0);
                assert(att2 == if old_from & could > 0 {
                    (old_att ^ old_from) | self.xray(seesquare as int, old_occ ^ old_from)
                } else {
                    old_att ^ old_from
                });
            }
            if from_bb == 0 {
                break;
            }
            let mut rest = from_bb;
            let sq = bitboard::pop_lsb(&mut rest);
            attacker_value = SEEVALUES[self.get_piece(sq).index()];
        }
        proof {
            lemma_settle_bounds(gs, depth as int - 1, depth as int - 1);
        }
        let ghost top = depth;
        while depth > 1
            invariant
                1 <= depth <= top,
                gain@.len() == top + 1,
                gs.len() == top + 1,
                forall|k: int| 0 <= k <= top ==> -10000 <= #[trigger] gs[k] <= 10000,
                gain@[depth - 1] == settle(gs, depth - 1, top - 1),
                forall|k: int| 0 <= k < depth - 1 ==> #[trigger] gain@[k] == gs[k],
            decreases depth,
        {
            depth -= 1;
            proof {
                lemma_settle_bounds(gs, depth as int, top - 1);
                lemma_settle_bounds(gs, depth as int - 1, top - 1);
            }
            let a = -gain[depth - 1];
            let b2 = gain[depth];
            let m = if a > b2 { a } else { b2 };
            gain.set(depth - 1, -m);
        }
        gain[0]
    }

    /// The attackers of a square stand on occupied squares.
    proof fn lemma_attackers_sub(&self, square: int, occ: u64)
        ensures
            forall|t: int| bit(self.all_attackers(square, occ), t) ==> bit(self.occ(), t),
    {
        assert forall|t: int| bit(self.all_attackers(square, occ), t) implies bit(self.occ(), t) by {
            let w = self.side_attackers(square, Color::W, occ);
            let b = self.side_attackers(square, Color::B, occ);
            lemma_bit_ops(w, b, t);
            lemma_bit_ops(self.colors[0], self.colors[1], t);
            assert(bit(w, t) ==> bit(self.colors[0], t)) by {
                self.lemma_side_sub(square, Color::W, occ, t);
            }
            assert(bit(b, t) ==> bit(self.colors[1], t)) by {
                self.lemma_side_sub(square, Color::B, occ, t);
            }
        }
    }

    proof fn lemma_side_sub(&self, square: int, color: Color, occ: u64, t: int)
        ensures
            bit(self.side_attackers(square, color, occ), t) ==> bit(self.colors[color_index(color)], t),
    {
        let ci = color_index(color);
        let c = self.colors[ci];
        let pf = match other(color) {
            Color::W => rotl(single(square), 8),
            Color::B => rotl(single(square), 56),
        };
        let pawn_atks = shifted(pf, crate::board_state::bitboard::Direction::E) | shifted(
            pf,
            crate::board_state::bitboard::Direction::W,
        );
        let a1 = ((self.piece_bbs[3] | self.piece_bbs[4]) & c) & rook_set(square, occ);
        let a2 = (self.piece_bbs[2] | self.piece_bbs[4]) & c & bishop_set(square, occ);
        let a3 = (self.piece_bbs[1] & c) & knight_set(square);
        let a4 = (self.piece_bbs[0] & c) & pawn_atks;
        let a5 = (self.piece_bbs[5] & c) & king_set(square);
        lemma_bit_ops(((a1 | a2) | a3) | a4, a5, t);
        lemma_bit_ops((a1 | a2) | a3, a4, t);
        lemma_bit_ops(a1 | a2, a3, t);
        lemma_bit_ops(a1, a2, t);
        lemma_bit_ops((self.piece_bbs[3] | self.piece_bbs[4]) & c, rook_set(square, occ), t);
        lemma_bit_ops(self.piece_bbs[3] | self.piece_bbs[4], c, t);
        lemma_bit_ops((self.piece_bbs[2] | self.piece_bbs[4]) & c, bishop_set(square, occ), t);
        lemma_bit_ops(self.piece_bbs[2] | self.piece_bbs[4], c, t);
        lemma_bit_ops(self.piece_bbs[1] & c, knight_set(square), t);
        lemma_bit_ops(self.piece_bbs[1], c, t);
        lemma_bit_ops(self.piece_bbs[0] & c, pawn_atks, t);
        lemma_bit_ops(self.piece_bbs[0], c, t);
        lemma_bit_ops(self.piece_bbs[5] & c, king_set(square), t);
        lemma_bit_ops(self.piece_bbs[5], c, t);
    }

    /// The least valuable pick is 0 or one square of `valid`.
    proof fn lemma_least_valuable(&self, valid: u64, color: Color, p: int)
        ensures
            self.least_valuable(valid, color, p) != 0 ==> {
                let r = self.least_valuable(valid, color, p);
                &&& r == single(lowest(r))
                &&& bit(valid, lowest(r))
            },
        decreases 6 - p,
    {
        if p < 6 {
            let subset = (self.piece_bbs[p] & self.colors[color_index(color)]) & valid;
            if subset != 0 {
                lemma_lowest(subset);
                let s = lowest(subset);
                crate::board_state::bitboard::lemma_single(s as u64);
                lemma_lowest(single(s));
                lemma_bit_ops(self.piece_bbs[p] & self.colors[color_index(color)], valid, s);
            } else {
                self.lemma_least_valuable(valid, color, p + 1);
            }
        }
    }
}

/// Settled values stay within the range of the gains.
proof fn lemma_settle_bounds(g: Seq<int>, d: int, e: int)
    requires
        0 <= d <= e < g.len(),
        forall|k: int| 0 <= k < g.len() ==> -10000 <= #[trigger] g[k] <= 10000,
    ensures
        -10000 <= settle(g, d, e) <= 10000,
    decreases e - d,
{
    if d < e {
        lemma_settle_bounds(g, d + 1, e);
    }
}

impl Board {
    fn attackers_on_square(&self, square: Square, occupancy: Bitboard) -> (r: Bitboard)
        requires
            square < 64,
        ensures
            r == self.all_attackers(square as int, occupancy),
    {
        self.attackers_for_side(square, Color::W, occupancy) | self.attackers_for_side(
            square,
            Color::B,
            occupancy,
        )
    }

    fn attackers_for_side(&self, square: Square, color: Color, occupancy: Bitboard) -> (r: Bitboard)
        requires
            square < 64,
        ensures
            r == self.side_attackers(square as int, color, occupancy),
    {
        let pawn_forwards = bitboard::forward(bitboard::new_bb(square), std::ops::Not::not(color));

        let pawn_atks = bitboard::shift(pawn_forwards, Direction::E) | bitboard::shift(
            pawn_forwards,
            Direction::W,
        );
        let king_atks = atks::king_attacks(square);
        let knight_atks = atks::knight_attacks(square);
        let rook_atks = atks::rook_attacks(square, occupancy);
        let bishop_atks = atks::bishop_attacks(square, occupancy);
        proof {
            lemma_bits_of(king_atks, |t: int| king_hit(square as int, t));
            lemma_bits_of(knight_atks, |t: int| knight_hit(square as int, t));
            lemma_bits_of(rook_atks, |t: int| rook_hit(square as int, occupancy, t));
            lemma_bits_of(bishop_atks, |t: int| bishop_hit(square as int, occupancy, t));
        }

        let pawns = self.piece_bb(Piece::P, color);
        let kings = self.piece_bb(Piece::K, color);
        let knights = self.piece_bb(Piece::N, color);
        let orthogonals = self.orthogonal_sliders(color);
        let diagonals = self.diagonal_sliders(color);

        (orthogonals & rook_atks) | (diagonals & bishop_atks) | (knights & knight_atks) | (pawns
            & pawn_atks) | (kings & king_atks)
    }

    fn xray_attackers(&self, square: Square, occupancy: Bitboard) -> (r: Bitboard)
        requires
            square < 64,
        ensures
            r == self.xray(square as int, occupancy),
    {
        let diagonal_sliders = self.diagonal_sliders(Color::W) | self.diagonal_sliders(Color::B);
        let orthogonal_sliders = self.orthogonal_sliders(Color::W) | self.orthogonal_sliders(Color::B);

        let bishop_atks = atks::bishop_attacks(square, occupancy);
        let rook_atks = atks::rook_attacks(square, occupancy);
        proof {
            lemma_bits_of(rook_atks, |t: int| rook_hit(square as int, occupancy, t));
            lemma_bits_of(bishop_atks, |t: int| bishop_hit(square as int, occupancy, t));
        }

        ((rook_atks & orthogonal_sliders) | (bishop_atks & diagonal_sliders)) & occupancy
    }

    fn get_least_valuable_piece(&self, valid_places: Bitboard, color: Color) -> (r: Bitboard)
        ensures
            r == self.least_valuable(valid_places, color, 0),
    {
        let mut piecetype: u8 = 0;
        while piecetype < 6
            invariant
                piecetype <= 6,
                self.least_valuable(valid_places, color, 0) == self.least_valuable(
                    valid_places,
                    color,
                    piecetype as int,
                ),
            decreases 6 - piecetype,
        {
            let mut subset = self.piece_bb(Piece::from(piecetype), color) & valid_places;
            if subset > 0 {
                return bitboard::pop_bb(&mut subset);
            }
            piecetype += 1;
        }
        0
    }
}

} // verus!
