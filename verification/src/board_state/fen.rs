use vstd::prelude::*;
use super::bitboard::{bit, lemma_bit_ops, single};
use super::board::Board;
use super::typedefs::{
    color_index, square_of_name, Color, Piece, Sq, Square, BISHOP, BLACK, KING, KNIGHT, PAWN, QUEEN,
    ROOK, WHITE,
};
use super::zobrist::Zobrist;
use crate::text::{chars_of, parse_u8, split_at_spaces, split_spaces, u8_of};

verus! {

pub const PIECES: u8 = 0;
pub const ACTIVE_COLOR: u8 = 1;
pub const CASTLE_RIGHTS: u8 = 2;
pub const EP_SQUARE: u8 = 3;
pub const HALFMOVE_CLOCK: u8 = 4;

/// The piece type a lowercase letter names, 0 for none.
pub open spec fn piece_of_letter(c: char) -> int {
    if c == 'k' {
        KING as int
    } else if c == 'q' {
        QUEEN as int
    } else if c == 'b' {
        BISHOP as int
    } else if c == 'n' {
        KNIGHT as int
    } else if c == 'r' {
        ROOK as int
    } else if c == 'p' {
        PAWN as int
    } else {
        0
    }
}

/// `a` with square `s` added to entry `i`.
pub open spec fn add6(a: [u64; 6], i: int, s: int) -> [u64; 6] {
    [
        if i == 0 { a[0] | single(s) } else { a[0] },
        if i == 1 { a[1] | single(s) } else { a[1] },
        if i == 2 { a[2] | single(s) } else { a[2] },
        if i == 3 { a[3] | single(s) } else { a[3] },
        if i == 4 { a[4] | single(s) } else { a[4] },
        if i == 5 { a[5] | single(s) } else { a[5] },
    ]
}

pub open spec fn add2(a: [u64; 2], i: int, s: int) -> [u64; 2] {
    [if i == 0 { a[0] | single(s) } else { a[0] }, if i == 1 { a[1] | single(s) } else { a[1] }]
}

/// One character of the placement field read with the file, the rank and the bitboards so
/// far. A digit skips files (at most to the end of the rank), a slash starts the rank
/// below at its first file, a letter puts a piece (white when upper case) on the current
/// square (its index taken modulo 256), which must be on the board and still empty, and moves to the next file.
pub open spec fn placement_step(st: (u8, u8, [u64; 6], [u64; 2]), c: char) -> Option<
    (u8, u8, [u64; 6], [u64; 2]),
> {
    let (file, rank, pieces, colors) = st;
    if c == '/' {
        Some((0u8, if rank == 0 { 255u8 } else { (rank - 1) as u8 }, pieces, colors))
    } else if '0' <= c <= '9' {
        let f = file + (c as int - '0' as int);
        if f > 8 {
            None
        } else {
            Some((f as u8, rank, pieces, colors))
        }
    } else {
        let lower = if 'A' <= c <= 'Z' { (c as int + 32) as char } else { c };
        let p = piece_of_letter(lower);
        let m = (rank * 8) % 256;
        let sqr = if m + file > 255 { m + file - 256 } else { m + file };
        let ci = if 'a' <= c <= 'z' { 1int } else { 0 };
        if p == 0 || sqr >= 64 || bit(colors[0] | colors[1], sqr) {
            None
        } else {
            Some((if file == 255 { 0u8 } else { (file + 1) as u8 }, rank, add6(pieces, p - 1, sqr), add2(colors, ci, sqr)))
        }
    }
}

/// The placement field read from the top left corner of an empty board, `None` when it is
/// malformed.
pub open spec fn placement(s: Seq<char>) -> Option<(u8, u8, [u64; 6], [u64; 2])>
    decreases s.len(),
{
    if s.len() == 0 {
        Some((0u8, 7u8, [0u64, 0, 0, 0, 0, 0], [0u64, 0]))
    } else {
        match placement(s.drop_last()) {
            None => None,
            Some(st) => placement_step(st, s.last()),
        }
    }
}

/// The castling rights a castling field names, KQkq from the high bit down.
pub open spec fn castle_bits(part: Seq<char>) -> u8 {
    ((if part.contains('K') { 8int } else { 0 }) + (if part.contains('Q') { 4int } else { 0 }) + (
    if part.contains('k') { 2int } else { 0 }) + (if part.contains('q') { 1int } else { 0 })) as u8
}

/// The board after reading field number `id` into `b`, or the error code of that field.
pub open spec fn apply_field(b: Board, id: int, part: Seq<char>) -> Result<Board, u8> {
    if id == 0 {
        match placement(part) {
            None => Err(PIECES),
            Some((_f, _r, pieces, colors)) => Ok(Board { pieces, colors, ..b }),
        }
    } else if id == 1 {
        if part == seq!['w'] {
            Ok(Board { tomove: WHITE, ..b })
        } else if part == seq!['b'] {
            Ok(Board { tomove: BLACK, ..b })
        } else {
            Err(ACTIVE_COLOR)
        }
    } else if id == 2 {
        let rights = castle_bits(part);
        if rights != 0 || part.contains('-') {
            Ok(Board { castling_rights: rights, ..b })
        } else {
            Err(CASTLE_RIGHTS)
        }
    } else if id == 3 {
        if part == seq!['-'] {
            Ok(Board { passant_square: None, ..b })
        } else {
            match square_of_name(part) {
                None => Err(EP_SQUARE),
                Some(s) => Ok(Board { passant_square: Some(s), ..b }),
            }
        }
    } else if id == 4 {
        match u8_of(part) {
            None => Err(0),
            Some(n) => Ok(Board { halfmove_clock: n, ..b }),
        }
    } else if id == 5 {
        Ok(b)
    } else {
        Err(6)
    }
}

/// The first `n` fields read into an empty board, stopping at the first error.
pub open spec fn apply_fields(parts: Seq<Seq<char>>, n: int) -> Result<Board, u8>
    decreases n,
{
    if n <= 0 {
        Ok(Board::empty())
    } else {
        match apply_fields(parts, n - 1) {
            Err(e) => Err(e),
            Ok(b) => apply_field(b, n - 1, parts[n - 1]),
        }
    }
}

/// What `parse_fen` gives for a FEN string: its space-separated fields read in order, then
/// the hash and the evaluator computed from scratch.
pub open spec fn fen_board(fen: Seq<char>, z: &Zobrist) -> Result<Board, u8> {
    let parts = split_spaces(fen);
    match apply_fields(parts, parts.len() as int) {
        Err(e) => Err(e),
        Ok(b) => Ok(Board { zobrist_key: b.hash(z), evaluator: b.eval_spec(), ..b }),
    }
}

impl Board {
    /// The fields the FEN fields set agree.
    pub open spec fn same_fields(&self, other: Board) -> bool {
        &&& self.pieces == other.pieces
        &&& self.colors == other.colors
        &&& self.tomove == other.tomove
        &&& self.passant_square == other.passant_square
        &&& self.castling_rights == other.castling_rights
        &&& self.halfmove_clock == other.halfmove_clock
    }

    /// Reads a position in Forsyth-Edwards notation. The error is the number of the field
    /// that is malformed (a malformed halfmove clock gives 0), or 6 for more than six
    /// fields. Two pieces on one square make the placement malformed.
    #[verifier::spinoff_prover]
    #[verifier::rlimit(40)]
    pub fn parse_fen(fen: &str, z: &Zobrist) -> (r: Result<Board, u8>)
        requires
            z.wf(),
        ensures
            r == fen_board(fen@, z),
            r matches Ok(b) ==> b.wf() && b.hash_ok(z) && b.eval_ok(),
    {
        let chars = chars_of(fen);
        let split_fen = split_at_spaces(&chars);
        let ghost parts = split_spaces(fen@);
        let mut starting_board = Board::new();
        let mut id: usize = 0;
        while id < split_fen.len()
            invariant
                parts == split_spaces(fen@),
                split_fen@.len() == parts.len(),
                forall|i: int| 0 <= i < split_fen@.len() ==> #[trigger] split_fen@[i]@ == parts[i],
                z.wf(),
                id <= parts.len(),
                apply_fields(parts, id as int) matches Ok(b) && starting_board.same_fields(b)
                    && b.zobrist_key == 0 && b.evaluator == crate::search::evaluate::IncrementalEval::initial(),
                starting_board.wf(),
                id == 0 ==> starting_board == Board::empty(),
            decreases split_fen.len() - id,
        {
            let ghost before = starting_board;
            let res = starting_board.read_field(id, &split_fen[id], z);
            proof {
                lemma_fields_step(parts, id as int, before, starting_board, res);
            }
            if let Err(e) = res {
                proof {
                    assert(apply_fields(parts, id + 1) == Err::<Board, u8>(e));
                    lemma_fields_err(parts, id + 1, parts.len() as int);
                    assert(apply_fields(parts, parts.len() as int) == Err::<Board, u8>(e));
                }
                return Err(e);
            }
            id += 1;
        }
        let ghost b = apply_fields(parts, parts.len() as int)->Ok_0;
        let ghost pre = starting_board;
        starting_board.zobrist_key = 0;
        starting_board.evaluator = crate::search::evaluate::IncrementalEval::new();
        proof {
            lemma_wf_fields(pre, starting_board);
            assert(starting_board.pieces =~= b.pieces);
            assert(starting_board.colors =~= b.colors);
            assert(starting_board == b);
        }
        proof {
            starting_board.lemma_wf_hashable();
        }
        let key = starting_board.generate_zobrist(z);
        let evaluator = starting_board.generate_eval();
        starting_board.zobrist_key = key;
        starting_board.evaluator = evaluator;
        proof {
            let fin = starting_board;
            lemma_wf_fields(pre, fin);
            lemma_hash_same(b, fin, z);
            lemma_eval_same(b, fin, 6);
        }
        Ok(starting_board)
    }

    /// Reads field number `id` of a FEN string.
    fn read_field(&mut self, id: usize, part: &Vec<char>, z: &Zobrist) -> (r: Result<(), u8>)
        requires
            old(self).wf(),
            id == 0 ==> *old(self) == Board::empty(),
            z.wf(),
        ensures
            final(self).wf(),
            r matches Ok(()) ==> apply_field(*old(self), id as int, part@) matches Ok(b)
                && final(self).same_fields(b),
            r matches Err(e) ==> apply_field(*old(self), id as int, part@) == Err::<Board, u8>(e),
    {
        if id == 0 {
            proof {
                crate::search::evaluate::lemma_empty_phase(6);
            }
            let r = self.set_pieces(part, z);
            proof {
                if r is Ok {
                    let pl = placement(part@)->Some_0;
                    assert(self.pieces =~= pl.2);
                    assert(self.colors =~= pl.3);
                }
            }
            r
        } else if id == 1 {
            self.set_tomove(part)
        } else if id == 2 {
            self.set_castling(part)
        } else if id == 3 {
            self.set_ep(part)
        } else if id == 4 {
            self.set_halfmove_clock(part)
        } else if id == 5 {
            Ok(())
        } else {
            Err(6)
        }
    }

    /// Reads the placement field into an empty board.
    fn set_pieces(&mut self, pieces: &Vec<char>, z: &Zobrist) -> (r: Result<(), u8>)
        requires
            old(self).wf(),
            old(self).evaluator.phase == 24 + old(self).phase_upto(6),
            old(self).pieces == [0u64, 0, 0, 0, 0, 0],
            old(self).colors == [0u64, 0],
            z.wf(),
        ensures
            r is Ok <==> placement(pieces@) is Some,
            r matches Err(e) ==> e == PIECES,
            r is Ok ==> {
                &&& final(self).pieces == placement(pieces@)->Some_0.2
                &&& final(self).colors == placement(pieces@)->Some_0.3
                &&& final(self).tomove == old(self).tomove
                &&& final(self).passant_square == old(self).passant_square
                &&& final(self).castling_rights == old(self).castling_rights
                &&& final(self).halfmove_clock == old(self).halfmove_clock
            },
            final(self).wf(),
    {
        let mut file: u8 = 0;
        let mut rank: u8 = 7;
        let mut i: usize = 0;
        while i < pieces.len()
            invariant
                0 <= i <= pieces@.len(),
                z.wf(),
                placement(pieces@.take(i as int)) == Some((file, rank, self.pieces, self.colors)),
                self.wf(),
                self.evaluator.phase == 24 + self.phase_upto(6),
                self.tomove == old(self).tomove,
                self.passant_square == old(self).passant_square,
                self.castling_rights == old(self).castling_rights,
                self.halfmove_clock == old(self).halfmove_clock,
            decreases pieces.len() - i,
        {
            let symbol = pieces[i];
            proof {
                assert(pieces@.take(i + 1).drop_last() =~= pieces@.take(i as int));
            }
            if symbol == '/' {
                file = 0;
                rank = rank.wrapping_sub(1);
            } else if '0' <= symbol && symbol <= '9' {
                let val = (symbol as u32 - '0' as u32) as u8;
                if file as u32 + val as u32 > 8 {
                    proof {
                        lemma_placement_none(pieces@, i as int + 1);
                    }
                    return Err(PIECES);
                }
                file += val;
            } else {
                let ptype: Piece = if symbol == 'k' || symbol == 'K' {
                    KING
                } else if symbol == 'q' || symbol == 'Q' {
                    QUEEN
                } else if symbol == 'b' || symbol == 'B' {
                    BISHOP
                } else if symbol == 'n' || symbol == 'N' {
                    KNIGHT
                } else if symbol == 'r' || symbol == 'R' {
                    ROOK
                } else if symbol == 'p' || symbol == 'P' {
                    PAWN
                } else {
                    proof {
                        lemma_placement_none(pieces@, i as int + 1);
                    }
                    return Err(PIECES);
                };
                let sqr = rank.wrapping_mul(8).wrapping_add(file);
                if sqr >= 64 || !self.is_empty(sqr) {
                    proof {
                        lemma_placement_none(pieces@, i as int + 1);
                    }
                    return Err(PIECES);
                }
                let color = if 'a' <= symbol && symbol <= 'z' { BLACK } else { WHITE };
                proof {
                    self.lemma_wf_square(sqr as int);
                    lemma_bit_ops(self.colors[0], self.colors[1], sqr as int);
                    self.lemma_phase_bounds(6);
                    assert(self.vacant(sqr as int));
                }
                self.set_piece(sqr, ptype, color, z);
                proof {
                    let ci: int = if color { 1 } else { 0 };
                    let prev = placement(pieces@.take(i as int))->Some_0;
                    assert(self.pieces =~= add6(prev.2, ptype - 1, sqr as int));
                    assert(self.colors =~= add2(prev.3, ci, sqr as int));
                }
                file = file.wrapping_add(1);
            }
            i += 1;
        }
        assert(pieces@.take(pieces@.len() as int) =~= pieces@);
        Ok(())
    }

    fn set_tomove(&mut self, part: &Vec<char>) -> (r: Result<(), u8>)
        requires
            old(self).wf(),
        ensures
            r matches Ok(()) ==> apply_field(*old(self), 1, part@) == Ok::<Board, u8>(*final(self)),
            r matches Err(e) ==> apply_field(*old(self), 1, part@) == Err::<Board, u8>(e),
            final(self).wf(),
    {
        let r = if part.len() == 1 && part[0] == 'w' {
            assert(part@ =~= seq!['w']);
            self.tomove = WHITE;
            Ok(())
        } else if part.len() == 1 && part[0] == 'b' {
            assert(part@ =~= seq!['b']);
            self.tomove = BLACK;
            Ok(())
        } else {
            proof {
                if part@ == seq!['w'] || part@ == seq!['b'] {
                    assert(part@.len() == 1);
                }
            }
            Err(ACTIVE_COLOR)
        };
        proof {
            lemma_wf_fields(*old(self), *self);
        }
        r
    }

    fn set_castling(&mut self, part: &Vec<char>) -> (r: Result<(), u8>)
        requires
            old(self).wf(),
        ensures
            r matches Ok(()) ==> apply_field(*old(self), 2, part@) == Ok::<Board, u8>(*final(self)),
            r matches Err(e) ==> apply_field(*old(self), 2, part@) == Err::<Board, u8>(e),
            final(self).wf(),
    {
        let wk = contains_char(part, 'K');
        let wq = contains_char(part, 'Q');
        let bk = contains_char(part, 'k');
        let bq = contains_char(part, 'q');
        let dash = contains_char(part, '-');
        let rights: u8 = (if wk { 8u8 } else { 0 }) + (if wq { 4u8 } else { 0 }) + (if bk { 2u8 } else { 0 }) + (
        if bq { 1u8 } else { 0 });
        self.castling_rights = rights;
        proof {
            lemma_wf_fields(*old(self), *self);
        }
        if rights != 0 || dash {
            Ok(())
        } else {
            Err(CASTLE_RIGHTS)
        }
    }

    fn set_ep(&mut self, part: &Vec<char>) -> (r: Result<(), u8>)
        requires
            old(self).wf(),
        ensures
            r matches Ok(()) ==> apply_field(*old(self), 3, part@) == Ok::<Board, u8>(*final(self)),
            r matches Err(e) ==> apply_field(*old(self), 3, part@) == Err::<Board, u8>(e),
            final(self).wf(),
    {
        if part.len() == 1 && part[0] == '-' {
            assert(part@ =~= seq!['-']);
            self.passant_square = None;
            proof {
                lemma_wf_fields(*old(self), *self);
            }
            Ok(())
        } else {
            proof {
                if part@ == seq!['-'] {
                    assert(part@.len() == 1);
                }
            }
            let sqr = name_to_square(part);
            match sqr {
                None => Err(EP_SQUARE),
                Some(val) => {
                    self.passant_square = Some(val);
                    proof {
                        lemma_wf_fields(*old(self), *self);
                    }
                    Ok(())
                },
            }
        }
    }

    fn set_halfmove_clock(&mut self, part: &Vec<char>) -> (r: Result<(), u8>)
        requires
            old(self).wf(),
        ensures
            r matches Ok(()) ==> apply_field(*old(self), 4, part@) == Ok::<Board, u8>(*final(self)),
            r matches Err(e) ==> apply_field(*old(self), 4, part@) == Err::<Board, u8>(e),
            final(self).wf(),
    {
        let val = parse_u8(part);
        match val {
            Some(num) => {
                self.halfmove_clock = num;
                proof {
                    lemma_wf_fields(*old(self), *self);
                }
                Ok(())
            },
            None => Err(0),
        }
    }
}

/// A board with the pieces of a consistent one, castling rights in four bits and an en
/// passant square on the board, is consistent.
proof fn lemma_wf_fields(a: Board, b: Board)
    requires
        a.wf(),
        a.pieces == b.pieces,
        a.colors == b.colors,
        b.castling_rights < 16,
        b.passant_square matches Some(s) ==> s < 64,
    ensures
        b.wf(),
{
    assert forall|t: int| 0 <= t < 64 implies #[trigger] b.sq_ok(t) by {
        assert(a.sq_ok(t));
    }
}

/// One more field read: the fields read so far stay in step with the board.
proof fn lemma_fields_step(parts: Seq<Seq<char>>, id: int, before: Board, after: Board, r: Result<(), u8>)
    requires
        0 <= id < parts.len(),
        apply_fields(parts, id) matches Ok(b) && before.same_fields(b) && b.zobrist_key == 0
            && b.evaluator == crate::search::evaluate::IncrementalEval::initial(),
        r matches Ok(()) ==> apply_field(before, id, parts[id]) matches Ok(x) && after.same_fields(x),
        r matches Err(e) ==> apply_field(before, id, parts[id]) == Err::<Board, u8>(e),
    ensures
        r matches Ok(()) ==> apply_fields(parts, id + 1) matches Ok(b) && after.same_fields(b)
            && b.zobrist_key == 0 && b.evaluator == crate::search::evaluate::IncrementalEval::initial(),
        r matches Err(e) ==> apply_fields(parts, id + 1) == Err::<Board, u8>(e),
{
    let b = apply_fields(parts, id)->Ok_0;
    lemma_apply_same(before, b, id, parts[id]);
}

/// Reading a field into boards with the same fields gives boards with the same fields.
proof fn lemma_apply_same(a: Board, b: Board, id: int, part: Seq<char>)
    requires
        a.same_fields(b),
    ensures
        apply_field(a, id, part) is Ok <==> apply_field(b, id, part) is Ok,
        apply_field(a, id, part) matches Ok(x) ==> x.same_fields(apply_field(b, id, part)->Ok_0),
        apply_field(a, id, part) matches Err(e) ==> apply_field(b, id, part) == Err::<Board, u8>(e),
{
}

/// The hash reads only the pieces, the side to move, the en passant square and the rights.
proof fn lemma_hash_same(a: Board, b: Board, z: &Zobrist)
    requires
        a.same_fields(b),
    ensures
        a.hash(z) == b.hash(z),
{
    assert forall|t: int| 0 <= t < 64 implies #[trigger] a.square_key(z, t) == b.square_key(z, t) by {}
    super::zobrist::lemma_psq_same(&a, &b, z, 64);
}

/// The evaluation from scratch reads only the pieces.
pub proof fn lemma_eval_same(a: Board, b: Board, k: int)
    requires
        a.pieces == b.pieces,
        a.colors == b.colors,
        0 <= k <= 6,
    ensures
        a.phase_upto(k) == b.phase_upto(k),
        a.mg_upto(WHITE, k) == b.mg_upto(WHITE, k),
        a.mg_upto(BLACK, k) == b.mg_upto(BLACK, k),
        a.eg_upto(WHITE, k) == b.eg_upto(WHITE, k),
        a.eg_upto(BLACK, k) == b.eg_upto(BLACK, k),
        k == 6 ==> a.eval_spec() == b.eval_spec(),
    decreases k,
{
    if k > 0 {
        lemma_eval_same(a, b, k - 1);
    }
}

/// Whether `c` occurs in `s`.
fn contains_char(s: &Vec<char>, c: char) -> (r: bool)
    ensures
        r == s@.contains(c),
{
    let mut i: usize = 0;
    while i < s.len()
        invariant
            i <= s@.len(),
            forall|j: int| 0 <= j < i ==> s@[j] != c,
        decreases s.len() - i,
    {
        if s[i] == c {
            return true;
        }
        i += 1;
    }
    false
}

/// A square's name read from characters: as `algebraic_to_sqr` reads it.
pub fn name_to_square(chars: &Vec<char>) -> (r: Option<Square>)
    ensures
        r == square_of_name(chars@),
        r matches Some(s) ==> s < 64,
{
    if chars.len() < 2 {
        return None;
    }
    let f = chars[0];
    let rk = chars[1];
    if 'a' <= f && f <= 'h' && '1' <= rk && rk <= '8' {
        let file = (f as u32 - 'a' as u32) as u8;
        let rank = (rk as u32 - '1' as u32) as u8;
        Some(rank * 8 + file)
    } else {
        None
    }
}

/// Once a prefix of the placement field is malformed, so is every longer one.
proof fn lemma_placement_none(s: Seq<char>, n: int)
    requires
        0 <= n <= s.len(),
        placement(s.take(n)) is None,
    ensures
        placement(s) is None,
    decreases s.len() - n,
{
    if n < s.len() {
        assert(s.take(n + 1).drop_last() =~= s.take(n));
        lemma_placement_none(s, n + 1);
    } else {
        assert(s.take(n) =~= s);
    }
}

/// Once a field fails, reading more fields keeps that error.
proof fn lemma_fields_err(parts: Seq<Seq<char>>, n: int, m: int)
    requires
        0 <= n <= m,
        apply_fields(parts, n) is Err,
    ensures
        apply_fields(parts, m) == apply_fields(parts, n),
    decreases m - n,
{
    if n < m {
        lemma_fields_err(parts, n, m - 1);
    }
}

} // verus!
