use vstd::prelude::*;
use crate::move_generation::action::{from_of, to_of, Action, Move};
use crate::movegen::board::Board;
use crate::movegen::movelist::{List, MAX_MOVES};
use super::alphabeta::MAX_DEPTH;
use crate::movegen::types::{color_index, piece_index, Color, Piece, Square};

verus! {

/// The deepest ply the search reaches.
pub const MAX_HISTORY: i16 = 32_000;

pub const NUM_KILLERS: usize = 2;

/// The stages a move generator for the search goes through.
#[derive(Clone, Copy, PartialEq, Eq, Structural, Debug)]
pub enum Stage {
    HashMove,
    GenCaptures,
    Captures,
    Killers,
    LCaptures,
    GenQuiets,
    Quiets,
}

/// Hands out a node's moves stage by stage: the move from the table, captures, killers,
/// losing captures, quiet moves.
pub struct StagedGenerator {
    pub stage: Stage,
    pub ttmove: Move,
    pub movelist: List<Move, MAX_MOVES>,
    pub ply: u16,
    pub idx: usize,
    pub lcapture_index: usize,
}

impl StagedGenerator {
    pub fn new(ttmove: Move, ply: u16) -> (r: Self)
        ensures
            r.stage == Stage::HashMove,
            r.ttmove == ttmove,
            r.movelist.wf(),
            r.movelist@ == Seq::<Move>::empty(),
            r.ply == ply,
            r.idx == 0,
            r.lcapture_index == 0,
    {
        Self { stage: Stage::HashMove, ttmove, movelist: List::new(), ply, idx: 0, lcapture_index: 0 }
    }
}

/// What move ordering learns during a search: two killer moves per ply and a history score
/// per color, piece and target square.
pub struct OrderData {
    pub killers: [[Move; 2]; 64],
    pub history: [[[i16; 64]; 6]; 2],
}

/// `x` halved, rounding toward zero.
pub open spec fn halved(x: i16) -> i16 {
    (if x >= 0 { x / 2 } else { -((-x) / 2) }) as i16
}

/// `x` wrapped into `i16`.
pub open spec fn wrapped16(x: int) -> i16 {
    crate::search::evaluate::wrap16(x) as i16
}

impl OrderData {
    /// No killers and all history scores zero.
    pub open spec fn is_clear(&self) -> bool {
        &&& forall|p: int| 0 <= p < 64 ==> #[trigger] self.killers[p] == [0u32, 0u32]
        &&& forall|c: int, p: int, s: int|
            0 <= c < 2 && 0 <= p < 6 && 0 <= s < 64 ==> #[trigger] self.history[c][p][s] == 0
    }

    pub fn new() -> (r: Self)
        ensures
            r.is_clear(),
    {
        let row = [0i16; 64];
        let plane = [row; 6];
        let history = [plane; 2];
        let pair = [0u32; NUM_KILLERS];
        let killers = [pair; MAX_DEPTH];
        proof {
            assert(pair =~= [0u32, 0u32]);
            assert forall|p: int| 0 <= p < 64 implies #[trigger] killers[p] == [0u32, 0u32] by {
                assert(killers@[p] == pair);
            }
            assert forall|c: int, p: int, s: int|
                0 <= c < 2 && 0 <= p < 6 && 0 <= s < 64 implies #[trigger] history[c][p][s] == 0 by {
                assert(history@[c] == plane);
                assert(plane@[p] == row);
                assert(row@[s] == 0);
            }
        }
        Self { history, killers }
    }

    /// Makes `action` the first killer at `ply`, the old first one becoming the second,
    /// unless it is the first killer already.
    pub fn update_killer(&mut self, action: Move, ply: u16)
        requires
            ply < MAX_DEPTH,
        ensures
            final(self).history == old(self).history,
            forall|p: int| 0 <= p < 64 && p != ply ==> #[trigger] final(self).killers[p] == old(self).killers[p],
            final(self).killers[ply as int] == if old(self).killers[ply as int][0] == action {
                old(self).killers[ply as int]
            } else {
                [action, old(self).killers[ply as int][0]]
            },
    {
        let p = ply as usize;
        let firstkiller = self.killers[p][0];
        if firstkiller != action {
            let row: [Move; 2] = [action, firstkiller];
            self.killers[p] = row;
        }
    }

    pub fn get_history(&self, piece: Piece, color: Color, square: Square) -> (r: i16)
        requires
            piece != Piece::Empty,
            square < 64,
        ensures
            r == self.history[color_index(color)][piece_index(piece)][square as int],
    {
        self.history[color.index()][piece.index()][square as usize]
    }

    /// Raises the history score of the piece on the move's start square, for the side to
    /// move and the move's target, by the square of the depth, capped at `MAX_HISTORY`
    /// (sums wrap as `i16`).
    pub fn update_history(&mut self, action: Move, depth: u8, board: &Board)
        requires
            board.piece_array[from_of(action)] != Piece::Empty,
        ensures
            final(self).killers == old(self).killers,
            ({
                let c = color_index(board.active_color);
                let p = piece_index(board.piece_array[from_of(action)]);
                let t = to_of(action);
                let v = wrapped16(old(self).history[c][p][t] + wrapped16(depth as int * depth as int));
                &&& final(self).history[c][p][t] == if v < MAX_HISTORY { v } else { MAX_HISTORY }
                &&& forall|c2: int, p2: int, s2: int|
                    0 <= c2 < 2 && 0 <= p2 < 6 && 0 <= s2 < 64 && !(c2 == c && p2 == p && s2 == t)
                        ==> #[trigger] final(self).history[c2][p2][s2] == old(self).history[c2][p2][s2]
            }),
    {
        let from = action.move_from();
        let to = action.move_to();
        let piece_moved = board.get_piece(from);
        let d = depth as i16;
        let ci = board.active_color().index();
        let pi = piece_moved.index();
        let ti = to as usize;
        let sq = d.wrapping_mul(d);
        let sum = self.history[ci][pi][ti].wrapping_add(sq);
        let v = if sum < MAX_HISTORY { sum } else { MAX_HISTORY };
        proof {
            lemma_wrap_mul(d);
            lemma_wrap_add(self.history[ci as int][pi as int][ti as int], sq);
        }
        let mut row = self.history[ci][pi];
        row[ti] = v;
        let mut plane = self.history[ci];
        plane[pi] = row;
        self.history[ci] = plane;
    }

    /// Halves every history score, rounding toward zero.
    pub fn age_history(&mut self)
        ensures
            final(self).killers == old(self).killers,
            forall|c: int, p: int, s: int|
                0 <= c < 2 && 0 <= p < 6 && 0 <= s < 64 ==> #[trigger] final(self).history[c][p][s]
                    == halved(old(self).history[c][p][s]),
    {
        for c in 0..2usize
            invariant
                self.killers == old(self).killers,
                forall|c2: int, p: int, s: int|
                    0 <= c2 < 2 && 0 <= p < 6 && 0 <= s < 64 ==> #[trigger] self.history[c2][p][s]
                        == if c2 < c { halved(old(self).history[c2][p][s]) } else { old(self).history[c2][p][s] },
        {
            let mut plane = self.history[c];
            for p in 0..6usize
                invariant
                    c < 2,
                    forall|p2: int, s: int|
                        0 <= p2 < 6 && 0 <= s < 64 ==> #[trigger] plane[p2][s] == if p2 < p {
                            halved(self.history[c as int][p2][s])
                        } else {
                            self.history[c as int][p2][s]
                        },
            {
                let mut row = plane[p];
                for s in 0..64usize
                    invariant
                        p < 6,
                        forall|s2: int|
                            0 <= s2 < 64 ==> #[trigger] row[s2] == if s2 < s {
                                halved(plane[p as int][s2])
                            } else {
                                plane[p as int][s2]
                            },
                {
                    let x = row[s] as i32;
                    let h = if x >= 0 { x / 2 } else { -((-x) / 2) };
                    row[s] = h as i16;
                }
                plane[p] = row;
            }
            self.history[c] = plane;
        }
    }

    pub fn clear(&mut self)
        ensures
            final(self).is_clear(),
    {
        *self = OrderData::new();
    }
}

proof fn lemma_wrap_mul(d: i16)
    requires
        0 <= d <= 255,
    ensures
        d.wrapping_mul(d) == wrapped16(d * d),
{
    let x = d * d;
    assert(0 <= x <= 65025) by (nonlinear_arith)
        requires
            0 <= d <= 255,
            x == d * d,
    ;
}

proof fn lemma_wrap_add(a: i16, b: i16)
    ensures
        a.wrapping_add(b) == wrapped16(a + b),
{
    crate::search::evaluate::lemma_wrapping_i16(a, b);
    crate::search::evaluate::lemma_wrap16(a + b, 0);
}

} // verus!
