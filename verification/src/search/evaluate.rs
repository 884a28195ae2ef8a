use vstd::prelude::*;
use crate::board_state::bitboard::{
    bb_sum, bit, count, count_ones, lemma_bb_sum_bounds, lemma_bb_sum_empty, lemma_bb_sum_pop,
    lemma_bb_sum_remove, lemma_bb_sum_same, lemma_bit_ops, lowest, BB,
};
use crate::board_state::board::Board;
use crate::board_state::typedefs::{
    color_index, Color, Piece, Sq, Square, BISHOP, BLACK, KNIGHT, PAWN, QUEEN, ROOK, WHITE,
};

verus! {

// PeSTO piece-square tables. Tapered evaluation blends a middle game and an end game score
// by the material left on the board (the phase).
pub const PAWN_PHASE: i16 = 0;
pub const KNIGHT_PHASE: i16 = 1;
pub const BISHOP_PHASE: i16 = 1;
pub const ROOK_PHASE: i16 = 2;
pub const QUEEN_PHASE: i16 = 4;
pub const TOTAL_PHASE: i16 = 24;

pub const PHASES: [i16; 6] = [PAWN_PHASE, KNIGHT_PHASE, BISHOP_PHASE, ROOK_PHASE, QUEEN_PHASE, 0];

const MG_PAWN: [i16; 64] = [
    82, 82, 82, 82, 82, 82, 82, 82,
    180, 216, 143, 177, 150, 208, 116, 71,
    76, 89, 108, 113, 147, 138, 107, 62,
    68, 95, 88, 103, 105, 94, 99, 59,
    55, 80, 77, 94, 99, 88, 92, 57,
    56, 78, 78, 72, 85, 85, 115, 70,
    47, 81, 62, 59, 67, 106, 120, 60,
    82, 82, 82, 82, 82, 82, 82, 82,
];
const MG_KNIGHT: [i16; 64] = [
    170, 248, 303, 288, 398, 240, 322, 230,
    264, 296, 409, 373, 360, 399, 344, 320,
    290, 397, 374, 402, 421, 466, 410, 381,
    328, 354, 356, 390, 374, 406, 355, 359,
    324, 341, 353, 350, 365, 356, 358, 329,
    314, 328, 349, 347, 356, 354, 362, 321,
    308, 284, 325, 334, 336, 355, 323, 318,
    232, 316, 279, 304, 320, 309, 318, 314,
];
const MG_BISHOP: [i16; 64] = [
    336, 369, 283, 328, 340, 323, 372, 357,
    339, 381, 347, 352, 395, 424, 383, 318,
    349, 402, 408, 405, 400, 415, 402, 363,
    361, 370, 384, 415, 402, 402, 372, 363,
    359, 378, 378, 391, 399, 377, 375, 369,
    365, 380, 380, 380, 379, 392, 383, 375,
    369, 380, 381, 365, 372, 386, 398, 366,
    332, 362, 351, 344, 352, 353, 326, 344,
];
const MG_ROOK: [i16; 64] = [
    509, 519, 509, 528, 540, 486, 508, 520,
    504, 509, 535, 539, 557, 544, 503, 521,
    472, 496, 503, 513, 494, 522, 538, 493,
    453, 466, 484, 503, 501, 512, 469, 457,
    441, 451, 465, 476, 486, 470, 483, 454,
    432, 452, 461, 460, 480, 477, 472, 444,
    433, 461, 457, 468, 476, 488, 471, 406,
    458, 464, 478, 494, 493, 484, 440, 451,
];
const MG_QUEEN: [i16; 64] = [
    997, 1025, 1054, 1037, 1084, 1069, 1068, 1070,
    1001, 986, 1020, 1026, 1009, 1082, 1053, 1079,
    1012, 1008, 1032, 1033, 1054, 1081, 1072, 1082,
    998, 998, 1009, 1009, 1024, 1042, 1023, 1026,
    1016, 999, 1016, 1015, 1023, 1021, 1028, 1022,
    1011, 1027, 1014, 1023, 1020, 1027, 1039, 1030,
    990, 1017, 1036, 1027, 1033, 1040, 1022, 1026,
    1024, 1007, 1016, 1035, 1010, 1000, 994, 975,
];
const MG_KING: [i16; 64] = [
    -65, 23, 16, -15, -56, -34, 2, 13,
    29, -1, -20, -7, -8, -4, -38, -29,
    -9, 24, 2, -16, -20, 6, 22, -22,
    -17, -20, -12, -27, -30, -25, -14, -36,
    -49, -1, -27, -39, -46, -44, -33, -51,
    -14, -14, -22, -46, -44, -30, -15, -27,
    1, 7, -8, -64, -43, -16, 9, 8,
    -15, 36, 12, -54, 8, -28, 24, 14,
];
const EG_PAWN: [i16; 64] = [
    94, 94, 94, 94, 94, 94, 94, 94,
    272, 267, 252, 228, 241, 226, 259, 281,
    188, 194, 179, 161, 150, 147, 176, 178,
    126, 118, 107, 99, 92, 98, 111, 111,
    107, 103, 91, 87, 87, 86, 97, 93,
    98, 101, 88, 95, 94, 89, 93, 86,
    107, 102, 102, 104, 107, 94, 96, 87,
    94, 94, 94, 94, 94, 94, 94, 94,
];
const EG_KNIGHT: [i16; 64] = [
    223, 243, 268, 253, 250, 254, 218, 182,
    256, 273, 256, 279, 272, 256, 257, 229,
    257, 261, 291, 290, 280, 272, 262, 240,
    264, 284, 303, 303, 303, 292, 289, 263,
    263, 275, 297, 306, 297, 298, 285, 263,
    258, 278, 280, 296, 291, 278, 261, 259,
    239, 261, 271, 276, 279, 261, 258, 237,
    252, 230, 258, 266, 259, 263, 231, 217,
];
const EG_BISHOP: [i16; 64] = [
    283, 276, 286, 289, 290, 288, 280, 273,
    289, 293, 304, 285, 294, 284, 293, 283,
    299, 289, 297, 296, 295, 303, 297, 301,
    294, 306, 309, 306, 311, 307, 300, 299,
    291, 300, 310, 316, 304, 307, 294, 288,
    285, 294, 305, 307, 310, 300, 290, 282,
    283, 279, 290, 296, 301, 288, 282, 270,
    274, 288, 274, 292, 288, 281, 292, 280,
];
const EG_ROOK: [i16; 64] = [
    525, 522, 530, 527, 524, 524, 520, 517,
    523, 525, 525, 523, 509, 515, 520, 515,
    519, 519, 519, 517, 516, 509, 507, 509,
    516, 515, 525, 513, 514, 513, 511, 514,
    515, 517, 520, 516, 507, 506, 504, 501,
    508, 512, 507, 511, 505, 500, 504, 496,
    506, 506, 512, 514, 503, 503, 501, 509,
    503, 514, 515, 511, 507, 499, 516, 492,
];
const EG_QUEEN: [i16; 64] = [
    927, 958, 958, 963, 963, 955, 946, 956,
    919, 956, 968, 977, 994, 961, 966, 936,
    916, 942, 945, 985, 983, 971, 955, 945,
    939, 958, 960, 981, 993, 976, 993, 972,
    918, 964, 955, 983, 967, 970, 975, 959,
    920, 909, 951, 942, 945, 953, 946, 941,
    914, 913, 906, 920, 920, 913, 900, 904,
    903, 908, 914, 893, 931, 904, 916, 895,
];
const EG_KING: [i16; 64] = [
    -74, -35, -18, -18, -11, 15, 4, -17,
    -12, 17, 14, 17, 17, 38, 23, 11,
    10, 17, 23, 15, 20, 45, 44, 13,
    -8, 22, 24, 27, 26, 33, 26, 3,
    -18, -4, 21, 24, 27, 23, 9, -11,
    -19, -3, 11, 21, 23, 16, 7, -9,
    -27, -11, 4, 13, 14, 4, -5, -17,
    -53, -34, -21, -11, -28, -14, -24, -43,
];

const MG_TABLES: [[i16; 64]; 6] = [MG_PAWN, MG_KNIGHT, MG_BISHOP, MG_ROOK, MG_QUEEN, MG_KING];

const EG_TABLES: [[i16; 64]; 6] = [EG_PAWN, EG_KNIGHT, EG_BISHOP, EG_ROOK, EG_QUEEN, EG_KING];

/// The phase weight of a piece type, counted from 0 (pawn) to 5 (king).
pub open spec fn phase_of(p: int) -> int {
    if p == 3 { 2 } else if p == 4 { 4 } else if p == 1 || p == 2 { 1 } else { 0 }
}

/// The middle game value of piece type `p` (0-based) standing on table square `s`.
pub closed spec fn mg_value(p: int, s: int) -> i16 {
    MG_TABLES[p][s]
}

/// The end game value of piece type `p` (0-based) standing on table square `s`.
pub closed spec fn eg_value(p: int, s: int) -> i16 {
    EG_TABLES[p][s]
}

/// The table square of a board square for a side: white reads the tables upside down.
pub open spec fn table_square(s: int, c: Color) -> int {
    if c { s } else { (s as u8 ^ 56u8) as int }
}

/// An integer taken modulo 2^16 into the range of `i16`, as wrapping arithmetic does.
pub open spec fn wrap16(x: int) -> int {
    (x + 32768) % 65536 - 32768
}

pub proof fn lemma_wrap16(x: int, v: int)
    ensures
        -32768 <= wrap16(x) <= 32767,
        wrap16(wrap16(x) + v) == wrap16(x + v),
        -32768 <= x <= 32767 ==> wrap16(x) == x,
{
    assert(wrap16(wrap16(x) + v) == wrap16(x + v)) by (nonlinear_arith);
}

pub proof fn lemma_wrapping_i16(a: i16, b: i16)
    ensures
        a.wrapping_add(b) as int == wrap16(a + b),
        a.wrapping_sub(b) as int == wrap16(a - b),
{
}

/// Integer division rounding towards zero, as Rust divides signed integers.
pub open spec fn tdiv(a: int, b: int) -> int {
    if a >= 0 { a / b } else { -((-a) / b) }
}

/// The score of material and phase, white's point of view: middle game and end game
/// differences blended by the phase (capped at the full phase).
pub open spec fn tapered(mg0: int, mg1: int, eg0: int, eg1: int, phase: int) -> int {
    let mg_phase = if phase < 24 { phase } else { 24 };
    let eg_phase = if 24 - mg_phase > 0 { 24 - mg_phase } else { 0 };
    tdiv((mg0 - mg1) * mg_phase + (eg0 - eg1) * eg_phase, 24)
}

/// The truncation of an integer to `i16`, as `as i16` does.
pub open spec fn trunc16(x: int) -> i16 {
    wrap16(x) as i16
}

#[derive(Clone, Copy, PartialEq, Eq, Debug)]
pub struct IncrementalEval {
    pub phase: i16,
    pub mg_material: [i16; 2],
    pub eg_material: [i16; 2],
}

impl Default for IncrementalEval {
    fn default() -> (r: Self)
        ensures
            r == IncrementalEval::initial(),
    {
        Self::new()
    }
}

const FLIPS: [u8; 2] = [56, 0];

impl IncrementalEval {
    /// The state of an evaluator that has seen no piece.
    pub open spec fn initial() -> IncrementalEval {
        IncrementalEval { phase: 24, mg_material: [0, 0], eg_material: [0, 0] }
    }

    pub open spec fn mg(&self, c: Color) -> int {
        if c { self.mg_material[1] as int } else { self.mg_material[0] as int }
    }

    pub open spec fn eg(&self, c: Color) -> int {
        if c { self.eg_material[1] as int } else { self.eg_material[0] as int }
    }

    /// The evaluator after adding (`sign` 1) or taking away (`sign` -1) piece type `p`
    /// (1..=6) of color `c` on square `s`.
    pub open spec fn with_piece(self, s: int, p: int, c: Color, sign: int) -> IncrementalEval {
        let ts = table_square(s, c);
        let mg = wrap16(self.mg(c) + sign * mg_value(p - 1, ts)) as i16;
        let eg = wrap16(self.eg(c) + sign * eg_value(p - 1, ts)) as i16;
        IncrementalEval {
            phase: (self.phase + sign * phase_of(p - 1)) as i16,
            mg_material: if c { [self.mg_material[0], mg] } else { [mg, self.mg_material[1]] },
            eg_material: if c { [self.eg_material[0], eg] } else { [eg, self.eg_material[1]] },
        }
    }

    pub fn new() -> (r: Self)
        ensures
            r == IncrementalEval::initial(),
    {
        Self { phase: TOTAL_PHASE, mg_material: [0, 0], eg_material: [0, 0] }
    }

    /// Adds a piece's phase weight and its table values for its side (material wraps
    /// around as `i16` arithmetic does).
    #[inline]
    pub fn set_piece(&mut self, square: Square, piecetype: Piece, color: Color)
        requires
            square < 64,
            1 <= piecetype <= 6,
            old(self).phase + phase_of(piecetype - 1) <= 32767,
        ensures
            *final(self) == old(self).with_piece(square as int, piecetype as int, color, 1),
    {
        let p = (piecetype - 1) as usize;
        self.phase = self.phase + PHASES[p];
        let ci: usize = if color { 1 } else { 0 };
        let board_square = square;
        let square = square ^ FLIPS[ci];
        proof {
            let sq = square;
            lemma_flip_square(board_square, sq);
        }
        let mg_value = MG_TABLES[p][square as usize];
        let eg_value = EG_TABLES[p][square as usize];
        proof {
            lemma_wrapping_i16(self.mg_material[ci as int], mg_value);
            lemma_wrapping_i16(self.eg_material[ci as int], eg_value);
        }
        self.mg_material[ci] = self.mg_material[ci].wrapping_add(mg_value);
        self.eg_material[ci] = self.eg_material[ci].wrapping_add(eg_value);
        proof {
            let target = old(self).with_piece(board_square as int, piecetype as int, color, 1);
            assert(self.mg_material =~= target.mg_material);
            assert(self.eg_material =~= target.eg_material);
        }
    }

    /// Takes away a piece's phase weight and its table values for its side.
    #[inline]
    pub fn remove_piece(&mut self, square: Square, piecetype: Piece, color: Color)
        requires
            square < 64,
            1 <= piecetype <= 6,
            old(self).phase - phase_of(piecetype - 1) >= -32768,
        ensures
            *final(self) == old(self).with_piece(square as int, piecetype as int, color, -1),
    {
        let p = (piecetype - 1) as usize;
        self.phase = self.phase - PHASES[p];
        let ci: usize = if color { 1 } else { 0 };
        let board_square = square;
        let square = square ^ FLIPS[ci];
        proof {
            let sq = square;
            lemma_flip_square(board_square, sq);
        }
        let mg_value = MG_TABLES[p][square as usize];
        let eg_value = EG_TABLES[p][square as usize];
        proof {
            lemma_wrapping_i16(self.mg_material[ci as int], mg_value);
            lemma_wrapping_i16(self.eg_material[ci as int], eg_value);
        }
        self.mg_material[ci] = self.mg_material[ci].wrapping_sub(mg_value);
        self.eg_material[ci] = self.eg_material[ci].wrapping_sub(eg_value);
        proof {
            let target = old(self).with_piece(board_square as int, piecetype as int, color, -1);
            assert(self.mg_material =~= target.mg_material);
            assert(self.eg_material =~= target.eg_material);
        }
    }

    /// Moves a piece from one square to another: a removal, then a placement.
    #[inline]
    pub fn move_piece(&mut self, from: Square, to: Square, piecetype: Piece, color: Color)
        requires
            from < 64,
            to < 64,
            1 <= piecetype <= 6,
            old(self).phase - phase_of(piecetype - 1) >= -32768,
        ensures
            *final(self) == old(self).with_piece(from as int, piecetype as int, color, -1).with_piece(
                to as int,
                piecetype as int,
                color,
                1,
            ),
    {
        self.remove_piece(from, piecetype, color);
        self.set_piece(to, piecetype, color);
    }

    /// The score `evaluate` gives: the tapered material, truncated to `i16`.
    pub open spec fn score(&self) -> i16 {
        trunc16(
            tapered(
                self.mg_material[0] as int,
                self.mg_material[1] as int,
                self.eg_material[0] as int,
                self.eg_material[1] as int,
                self.phase as int,
            ),
        )
    }

    /// The middle game weight of the phase.
    pub open spec fn mg_phase(&self) -> int {
        if self.phase < 24 { self.phase as int } else { 24 }
    }

    /// The end game weight of the phase.
    pub open spec fn eg_phase(&self) -> int {
        if 24 - self.mg_phase() > 0 { 24 - self.mg_phase() } else { 0 }
    }

    /// Whether the blended score fits in `i32`, as the computation needs.
    pub open spec fn score_fits(&self) -> bool {
        let m = (self.mg_material[0] - self.mg_material[1]) * self.mg_phase();
        let e = (self.eg_material[0] - self.eg_material[1]) * self.eg_phase();
        &&& i32::MIN <= m <= i32::MAX
        &&& i32::MIN <= e <= i32::MAX
        &&& i32::MIN <= m + e <= i32::MAX
    }

    /// The tapered score from white's point of view, truncated to `i16`.
    #[inline]
    pub fn evaluate(&self) -> (r: i16)
        requires
            self.score_fits(),
        ensures
            r == trunc16(
                tapered(
                    self.mg_material[0] as int,
                    self.mg_material[1] as int,
                    self.eg_material[0] as int,
                    self.eg_material[1] as int,
                    self.phase as int,
                ),
            ),
    {
        let mg_score = self.mg_material[0] as i32 - self.mg_material[1] as i32;
        let eg_score = self.eg_material[0] as i32 - self.eg_material[1] as i32;
        let mg_phase: i32 = if self.phase < TOTAL_PHASE { self.phase as i32 } else { TOTAL_PHASE as i32 };
        let eg_phase: i32 = if TOTAL_PHASE as i32 - mg_phase > 0 { TOTAL_PHASE as i32 - mg_phase } else { 0 };
        let total = (mg_score * mg_phase) + (eg_score * eg_phase);
        let q = total / (TOTAL_PHASE as i32);
        proof {
            lemma_truncate_i16(q);
        }
        q as i16
    }
}

/// What `as i16` does to an `i32`.
pub proof fn lemma_truncate_i16(x: i32)
    ensures
        (x as i16) as int == wrap16(x as int),
{
    assert((x as i16) as int == wrap16(x as int)) by (bit_vector);
}

/// The middle game value of piece type `pi` (0-based) of color `c` on each board square.
pub open spec fn mg_fn(pi: int, c: Color) -> spec_fn(int) -> int {
    |s: int| mg_value(pi, table_square(s, c)) as int
}

/// The end game value of piece type `pi` (0-based) of color `c` on each board square.
pub open spec fn eg_fn(pi: int, c: Color) -> spec_fn(int) -> int {
    |s: int| eg_value(pi, table_square(s, c)) as int
}

/// The phase weight of piece type `pi` (0-based), on every square.
pub open spec fn ph_fn(pi: int) -> spec_fn(int) -> int {
    |s: int| phase_of(pi)
}

impl Board {
    /// The pieces of type `pi` (0-based) and color `c`.
    pub open spec fn side(&self, pi: int, c: Color) -> u64 {
        self.pieces[pi] & self.colors[color_index(c)]
    }

    /// The middle game material of color `c` over the piece types below `k`.
    pub open spec fn mg_upto(&self, c: Color, k: int) -> int
        decreases k,
    {
        if k <= 0 {
            0
        } else {
            self.mg_upto(c, k - 1) + bb_sum(self.side(k - 1, c), mg_fn(k - 1, c), 64)
        }
    }

    /// The end game material of color `c` over the piece types below `k`.
    pub open spec fn eg_upto(&self, c: Color, k: int) -> int
        decreases k,
    {
        if k <= 0 {
            0
        } else {
            self.eg_upto(c, k - 1) + bb_sum(self.side(k - 1, c), eg_fn(k - 1, c), 64)
        }
    }

    /// The phase of the pieces of both colors over the piece types below `k`.
    pub open spec fn phase_upto(&self, k: int) -> int
        decreases k,
    {
        if k <= 0 {
            0
        } else {
            self.phase_upto(k - 1) + bb_sum(self.side(k - 1, WHITE), ph_fn(k - 1), 64) + bb_sum(
                self.side(k - 1, BLACK),
                ph_fn(k - 1),
                64,
            )
        }
    }

    /// The evaluator that describes the board from scratch (material wraps as `i16`).
    pub open spec fn eval_spec(&self) -> IncrementalEval {
        IncrementalEval {
            phase: self.phase_upto(6) as i16,
            mg_material: [
                wrap16(self.mg_upto(WHITE, 6)) as i16,
                wrap16(self.mg_upto(BLACK, 6)) as i16,
            ],
            eg_material: [
                wrap16(self.eg_upto(WHITE, 6)) as i16,
                wrap16(self.eg_upto(BLACK, 6)) as i16,
            ],
        }
    }

    /// The stored evaluator is the one that describes the board.
    pub open spec fn eval_ok(&self) -> bool {
        self.evaluator == self.eval_spec()
    }

    /// Two boards that differ only on square `s`, which `with` holds a piece `p` (1..=6) of
    /// color `c` on and `without` leaves vacant, differ in material and phase by that piece.
    pub proof fn lemma_eval_vacancy(with: &Board, without: &Board, s: int, p: int, c: Color, k: int)
        requires
            0 <= s < 64,
            1 <= p <= 6,
            0 <= k <= 6,
            forall|t: int| 0 <= t < 64 && t != s ==> with.same_at(without, t),
            without.vacant(s),
            forall|i: int| 0 <= i < 6 ==> bit(#[trigger] with.pieces[i], s) == (i == p - 1),
            bit(with.colors[color_index(c)], s),
            !bit(with.colors[color_index(!c)], s),
        ensures
            with.mg_upto(c, k) == without.mg_upto(c, k) + if p - 1 < k {
                mg_value(p - 1, table_square(s, c)) as int
            } else {
                0
            },
            with.eg_upto(c, k) == without.eg_upto(c, k) + if p - 1 < k {
                eg_value(p - 1, table_square(s, c)) as int
            } else {
                0
            },
            with.mg_upto(!c, k) == without.mg_upto(!c, k),
            with.eg_upto(!c, k) == without.eg_upto(!c, k),
            with.phase_upto(k) == without.phase_upto(k) + if p - 1 < k { phase_of(p - 1) } else { 0 },
        decreases k,
    {
        if k > 0 {
            Board::lemma_eval_vacancy(with, without, s, p, c, k - 1);
            let pi = k - 1;
            assert forall|t: int| 0 <= t < 64 && t != s implies bit(with.side(pi, c), t) == bit(
                without.side(pi, c),
                t,
            ) && bit(with.side(pi, !c), t) == bit(without.side(pi, !c), t) by {
                assert(with.same_at(without, t));
                assert(bit(with.pieces[pi], t) == bit(without.pieces[pi], t));
                lemma_bit_ops(with.pieces[pi], with.colors[0], t);
                lemma_bit_ops(with.pieces[pi], with.colors[1], t);
                lemma_bit_ops(without.pieces[pi], without.colors[0], t);
                lemma_bit_ops(without.pieces[pi], without.colors[1], t);
            }
            assert(!bit(without.pieces[pi], s));
            lemma_bit_ops(with.pieces[pi], with.colors[0], s);
            lemma_bit_ops(with.pieces[pi], with.colors[1], s);
            lemma_bit_ops(without.pieces[pi], without.colors[0], s);
            lemma_bit_ops(without.pieces[pi], without.colors[1], s);
            assert(!bit(with.side(pi, !c), s));
            assert(!bit(without.side(pi, !c), s));
            let nc = !c;
            assert forall|t: int| 0 <= t < 64 implies #[trigger] bit(with.side(pi, nc), t) == bit(
                without.side(pi, nc),
                t,
            ) by {
                if t != s {
                    assert(with.same_at(without, t));
                    assert(bit(with.pieces[pi], t) == bit(without.pieces[pi], t));
                    lemma_bit_ops(with.pieces[pi], with.colors[0], t);
                    lemma_bit_ops(with.pieces[pi], with.colors[1], t);
                    lemma_bit_ops(without.pieces[pi], without.colors[0], t);
                    lemma_bit_ops(without.pieces[pi], without.colors[1], t);
                }
            }
            lemma_bb_sum_same(with.side(pi, !c), without.side(pi, !c), mg_fn(pi, !c), 64);
            lemma_bb_sum_same(with.side(pi, !c), without.side(pi, !c), eg_fn(pi, !c), 64);
            lemma_bb_sum_same(with.side(pi, !c), without.side(pi, !c), ph_fn(pi), 64);
            if pi == p - 1 {
                lemma_bb_sum_remove(with.side(pi, c), without.side(pi, c), mg_fn(pi, c), s, 64);
                lemma_bb_sum_remove(with.side(pi, c), without.side(pi, c), eg_fn(pi, c), s, 64);
                lemma_bb_sum_remove(with.side(pi, c), without.side(pi, c), ph_fn(pi), s, 64);
            } else {
                lemma_bb_sum_same(with.side(pi, c), without.side(pi, c), mg_fn(pi, c), 64);
                lemma_bb_sum_same(with.side(pi, c), without.side(pi, c), eg_fn(pi, c), 64);
                lemma_bb_sum_same(with.side(pi, c), without.side(pi, c), ph_fn(pi), 64);
            }
            if c {
                assert(with.phase_upto(k) == with.phase_upto(k - 1) + bb_sum(with.side(pi, !c), ph_fn(pi), 64) + bb_sum(with.side(pi, c), ph_fn(pi), 64));
                assert(without.phase_upto(k) == without.phase_upto(k - 1) + bb_sum(without.side(pi, !c), ph_fn(pi), 64) + bb_sum(without.side(pi, c), ph_fn(pi), 64));
            }
        }
    }

    /// The phase counts at most four per piece bitboard square.
    pub proof fn lemma_phase_bounds(&self, k: int)
        requires
            0 <= k <= 6,
        ensures
            0 <= self.phase_upto(k) <= 512 * k,
        decreases k,
    {
        if k > 0 {
            self.lemma_phase_bounds(k - 1);
            assert forall|t: int| 0 <= t < 64 implies 0 <= #[trigger] ph_fn(k - 1)(t) <= 4 by {}
            lemma_bb_sum_bounds(self.side(k - 1, WHITE), ph_fn(k - 1), 64, 0, 4);
            lemma_bb_sum_bounds(self.side(k - 1, BLACK), ph_fn(k - 1), 64, 0, 4);
        }
    }

    /// The scratch evaluator of a board whose evaluator has the phase it should.
    pub fn generate_eval(&self) -> (r: IncrementalEval)
        ensures
            r == self.eval_spec(),
    {
        let (phase, mgw, mgb, egw, egb) = self.material();
        IncrementalEval { phase, mg_material: [mgw, mgb], eg_material: [egw, egb] }
    }

    /// The phase and the white and black material, walking the piece bitboards.
    fn material(&self) -> (r: (i16, i16, i16, i16, i16))
        ensures
            r.0 == self.phase_upto(6),
            r.1 == wrap16(self.mg_upto(WHITE, 6)),
            r.2 == wrap16(self.mg_upto(BLACK, 6)),
            r.3 == wrap16(self.eg_upto(WHITE, 6)),
            r.4 == wrap16(self.eg_upto(BLACK, 6)),
    {
        let mut white_mg_material: i16 = 0;
        let mut black_mg_material: i16 = 0;
        let mut white_eg_material: i16 = 0;
        let mut black_eg_material: i16 = 0;
        let mut phase: i16 = 0;
        let whites = self.color_index(WHITE);
        let blacks = self.color_index(BLACK);
        let mut piecetype: usize = 0;
        proof {
            lemma_wrap16(0, 0);
        }
        while piecetype < 6
            invariant
                0 <= piecetype <= 6,
                whites == self.colors[0],
                blacks == self.colors[1],
                phase == self.phase_upto(piecetype as int),
                white_mg_material == wrap16(self.mg_upto(WHITE, piecetype as int)),
                black_mg_material == wrap16(self.mg_upto(BLACK, piecetype as int)),
                white_eg_material == wrap16(self.eg_upto(WHITE, piecetype as int)),
                black_eg_material == wrap16(self.eg_upto(BLACK, piecetype as int)),
            decreases 6 - piecetype,
        {
            let bb = self.pieces[piecetype];
            proof {
                self.lemma_phase_bounds(piecetype as int + 1);
                self.lemma_phase_bounds(piecetype as int);
                let pt = piecetype as int;
                assert forall|t: int| 0 <= t < 64 implies 0 <= #[trigger] ph_fn(pt)(t) <= 4 by {}
                lemma_bb_sum_bounds(self.side(pt, WHITE), ph_fn(pt), 64, 0, 4);
                lemma_bb_sum_bounds(self.side(pt, BLACK), ph_fn(pt), 64, 0, 4);
                assert(bb & whites == self.side(pt, WHITE));
                assert(bb & blacks == self.side(pt, BLACK));
            }
            let ghost pbase = phase as int;
            add_side(
                bb & whites,
                piecetype,
                WHITE,
                &mut white_mg_material,
                &mut white_eg_material,
                &mut phase,
            );
            proof {
                lemma_wrap16(self.mg_upto(WHITE, piecetype as int), bb_sum(self.side(piecetype as int, WHITE), mg_fn(piecetype as int, WHITE), 64));
                lemma_wrap16(self.eg_upto(WHITE, piecetype as int), bb_sum(self.side(piecetype as int, WHITE), eg_fn(piecetype as int, WHITE), 64));
            }
            add_side(
                bb & blacks,
                piecetype,
                BLACK,
                &mut black_mg_material,
                &mut black_eg_material,
                &mut phase,
            );
            proof {
                lemma_wrap16(self.mg_upto(BLACK, piecetype as int), bb_sum(self.side(piecetype as int, BLACK), mg_fn(piecetype as int, BLACK), 64));
                lemma_wrap16(self.eg_upto(BLACK, piecetype as int), bb_sum(self.side(piecetype as int, BLACK), eg_fn(piecetype as int, BLACK), 64));
            }
            piecetype += 1;
        }
        (phase, white_mg_material, black_mg_material, white_eg_material, black_eg_material)
    }
}

/// Adds the material and phase of the pieces of one bitboard, one square at a time.
fn add_side(
    pieces: u64,
    piecetype: usize,
    color: Color,
    mg: &mut i16,
    eg: &mut i16,
    phase: &mut i16,
)
    requires
        piecetype < 6,
        0 <= *old(phase) + bb_sum(pieces, ph_fn(piecetype as int), 64) <= 32767,
        0 <= *old(phase),
    ensures
        *final(mg) == wrap16(*old(mg) + bb_sum(pieces, mg_fn(piecetype as int, color), 64)),
        *final(eg) == wrap16(*old(eg) + bb_sum(pieces, eg_fn(piecetype as int, color), 64)),
        *final(phase) == *old(phase) + bb_sum(pieces, ph_fn(piecetype as int), 64),
{
    let mut rest = pieces;
    let ghost mg0 = *mg as int;
    let ghost eg0 = *eg as int;
    let ghost ph0 = *phase as int;
    let ghost fm = mg_fn(piecetype as int, color);
    let ghost fe = eg_fn(piecetype as int, color);
    let ghost fp = ph_fn(piecetype as int);
    proof {
        lemma_wrap16(mg0, 0);
        lemma_wrap16(eg0, 0);
        assert forall|t: int| 0 <= t < 64 implies 0 <= #[trigger] fp(t) <= 4 by {}
        lemma_bb_sum_bounds(pieces, fp, 64, 0, 4);
    }
    while rest > 0
        invariant
            piecetype < 6,
            *mg == wrap16(mg0 + bb_sum(pieces, fm, 64) - bb_sum(rest, fm, 64)),
            *eg == wrap16(eg0 + bb_sum(pieces, fe, 64) - bb_sum(rest, fe, 64)),
            *phase == ph0 + bb_sum(pieces, fp, 64) - bb_sum(rest, fp, 64),
            0 <= ph0 + bb_sum(pieces, fp, 64) <= 32767,
            0 <= ph0,
            0 <= bb_sum(rest, fp, 64) <= bb_sum(pieces, fp, 64),
            fm == mg_fn(piecetype as int, color),
            fe == eg_fn(piecetype as int, color),
            fp == ph_fn(piecetype as int),
        decreases count(rest),
    {
        let ghost before = rest;
        let popped = rest.pop_lsb();
        let square = if color { popped } else { popped.flip() };
        proof {
            lemma_bb_sum_pop(before, fm);
            lemma_bb_sum_pop(before, fe);
            lemma_bb_sum_pop(before, fp);
            lemma_bb_sum_pop(before, |s: int| 1int);
            assert forall|t: int| 0 <= t < 64 implies 0 <= #[trigger] fp(t) <= 4 by {}
            lemma_bb_sum_bounds(rest, fp, 64, 0, 4);
            lemma_bb_sum_bounds(rest, |s: int| 1int, 64, 0, 1);
        }
        let mg_value = MG_TABLES[piecetype][square as usize];
        let eg_value = EG_TABLES[piecetype as usize][square as usize];
        proof {
            lemma_wrapping_i16(*mg, mg_value);
            lemma_wrapping_i16(*eg, eg_value);
            lemma_wrap16(mg0 + bb_sum(pieces, fm, 64) - bb_sum(before, fm, 64), mg_value as int);
            lemma_wrap16(eg0 + bb_sum(pieces, fe, 64) - bb_sum(before, fe, 64), eg_value as int);
        }
        *mg = mg.wrapping_add(mg_value);
        *eg = eg.wrapping_add(eg_value);
        *phase = *phase + PHASES[piecetype];
    }
    proof {
        lemma_bb_sum_empty(fm, 64);
        lemma_bb_sum_empty(fe, 64);
        lemma_bb_sum_empty(fp, 64);
    }
}

impl Board {
    /// The tapered evaluation computed from scratch, white's point of view.
    pub fn do_eval(&self) -> (r: i16)
        ensures
            r == self.eval_spec().score(),
    {
        let (phase, white_mg_material, black_mg_material, white_eg_material, black_eg_material) =
            self.material();
        proof {
            self.lemma_phase_bounds(6);
        }
        let mg_score = white_mg_material as i32 - black_mg_material as i32;
        let eg_score = white_eg_material as i32 - black_eg_material as i32;
        let mg_phase: i32 = if phase < TOTAL_PHASE { phase as i32 } else { TOTAL_PHASE as i32 };
        let eg_phase: i32 = if TOTAL_PHASE as i32 - mg_phase > 0 { TOTAL_PHASE as i32 - mg_phase } else { 0 };
        assert(-65535 * 24 <= mg_score * mg_phase <= 65535 * 24) by (nonlinear_arith)
            requires
                -65535 <= mg_score <= 65535,
                0 <= mg_phase <= 24,
        ;
        assert(-65535 * 24 <= eg_score * eg_phase <= 65535 * 24) by (nonlinear_arith)
            requires
                -65535 <= eg_score <= 65535,
                0 <= eg_phase <= 24,
        ;
        let q = ((mg_score * mg_phase) + (eg_score * eg_phase)) / (TOTAL_PHASE as i32);
        proof {
            lemma_truncate_i16(q);
        }
        q as i16
    }

    /// The incremental evaluation from the side to move's point of view.
    pub fn evaluate(&self) -> (r: i16)
        requires
            self.evaluator.score_fits(),
            !(self.tomove && self.evaluator.score() == i16::MIN),
        ensures
            r == if self.tomove { -self.evaluator.score() } else { self.evaluator.score() as int },
    {
        let multipliers: [i16; 2] = [1, -1];
        let eval = self.evaluator.evaluate();
        let ci: usize = if self.tomove { 1 } else { 0 };
        eval * multipliers[ci]
    }

    /// The material-only count, in centipawns, from white's point of view (for debugging).
    pub fn beancount(&self) -> (r: i16)
        requires
            self.beancount_fits(),
        ensures
            r == self.bean_upto(6),
    {
        let values: [i16; 6] = [100, 315, 325, 500, 900, 0];
        let mut value: i16 = 0;
        let wpieces = self.color_index(WHITE);
        let bpieces = self.color_index(BLACK);
        let mut idx: usize = 0;
        while idx < 6
            invariant
                0 <= idx <= 6,
                self.beancount_fits(),
                wpieces == self.colors[0],
                bpieces == self.colors[1],
                values@ == seq![100i16, 315, 325, 500, 900, 0],
                value == self.bean_upto(idx as int),
            decreases 6 - idx,
        {
            let piece = self.pieces[idx];
            let w = wpieces & piece;
            let b = bpieces & piece;
            proof {
                crate::board_state::bitboard::lemma_bit_and_comm(wpieces, bpieces, piece);
                assert(self.bean_step_fits(idx as int));
            }
            value += count_ones(w) as i16 * values[idx];
            value -= count_ones(b) as i16 * values[idx];
            idx += 1;
        }
        value
    }

    /// The material count over the piece types below `k`.
    pub open spec fn bean_upto(&self, k: int) -> int
        decreases k,
    {
        if k <= 0 {
            0
        } else {
            self.bean_upto(k - 1) + count(self.side(k - 1, WHITE)) * bean_value(k - 1) - count(
                self.side(k - 1, BLACK),
            ) * bean_value(k - 1)
        }
    }

    /// Each step of the count for piece type `k` stays within `i16`.
    pub open spec fn bean_step_fits(&self, k: int) -> bool {
        let w = count(self.side(k, WHITE)) * bean_value(k);
        let b = count(self.side(k, BLACK)) * bean_value(k);
        &&& w <= i16::MAX
        &&& b <= i16::MAX
        &&& i16::MIN <= self.bean_upto(k) + w <= i16::MAX
        &&& i16::MIN <= self.bean_upto(k) + w - b <= i16::MAX
    }

    /// The count never leaves `i16` on its way.
    pub open spec fn beancount_fits(&self) -> bool {
        forall|k: int| 0 <= k < 6 ==> #[trigger] self.bean_step_fits(k)
    }

    /// Whether the position is a draw: neither side has mating material, or the fifty-move
    /// counter has run out.
    pub fn is_draw(&self) -> (r: bool)
        ensures
            r == (!self.can_force_mate() || self.halfmove_clock >= 100),
    {
        let can_force_mate = self.piece_index(PAWN) > 0 || self.piece_index(ROOK) > 0
            || self.piece_index(QUEEN) > 0 || count_ones(self.get_pieces(BISHOP, WHITE)) >= 2
            || count_ones(self.get_pieces(BISHOP, BLACK)) >= 2 || (count_ones(
            self.get_pieces(BISHOP, WHITE),
        ) >= 1 && self.get_pieces(KNIGHT, WHITE) >= 1) || (count_ones(
            self.get_pieces(BISHOP, BLACK),
        ) >= 1 && self.get_pieces(KNIGHT, BLACK) >= 1);
        !can_force_mate || self.halfmove_clock >= 100
    }

    /// Whether some side has material that can force mate: a pawn, rook or queen, two
    /// bishops, or bishop and knight.
    pub open spec fn can_force_mate(&self) -> bool {
        ||| self.pieces[0] > 0
        ||| self.pieces[3] > 0
        ||| self.pieces[4] > 0
        ||| count(self.side(2, WHITE)) >= 2
        ||| count(self.side(2, BLACK)) >= 2
        ||| (count(self.side(2, WHITE)) >= 1 && self.side(1, WHITE) >= 1)
        ||| (count(self.side(2, BLACK)) >= 1 && self.side(1, BLACK) >= 1)
    }
}

/// The material value of piece type `k` (0-based) for the debugging count.
pub open spec fn bean_value(k: int) -> int {
    if k == 0 {
        100
    } else if k == 1 {
        315
    } else if k == 2 {
        325
    } else if k == 3 {
        500
    } else if k == 4 {
        900
    } else {
        0
    }
}

/// The evaluation computed from scratch agrees with the incremental evaluator whenever the
/// evaluator describes the board.
pub proof fn lemma_scratch_eval_matches(b: &Board)
    requires
        b.eval_ok(),
    ensures
        b.evaluator.score() == b.eval_spec().score(),
{
}

/// The empty board has no phase.
pub proof fn lemma_empty_phase(k: int)
    requires
        0 <= k <= 6,
    ensures
        Board::empty().phase_upto(k) == 0,
    decreases k,
{
    if k > 0 {
        lemma_empty_phase(k - 1);
        assert(0u64 & 0u64 == 0u64) by (bit_vector);
        crate::board_state::bitboard::lemma_bb_sum_empty(ph_fn(k - 1), 64);
    }
}

/// A square flipped by 56 or by 0 stays on the board.
proof fn lemma_flip_square(board_square: u8, sq: u8)
    by (bit_vector)
    requires
        sq == (board_square ^ 56u8) || sq == (board_square ^ 0u8),
        board_square < 64,
    ensures
        sq < 64,
        (board_square ^ 0u8) == board_square,
{
}

} // verus!
