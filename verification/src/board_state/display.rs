use vstd::prelude::*;
use crate::board_state::bitboard::bit;
use crate::text::{dec_text, push_decimal, push_square_name, push_str, square_name, string_from_chars};
use super::board::Board;
use super::typedefs::{Sq, Square, BLACK, WHITE};

verus! {

/// The chess symbols of the piece types (none, pawn, knight, bishop, rook, queen, king),
/// the first of each pair for white and the second for black.
pub const SYMBOLS: [[char; 2]; 7] = [
    [' ', ' '],
    ['♟', '♙'],
    ['♞', '♘'],
    ['♝', '♗'],
    ['♜', '♖'],
    ['♛', '♕'],
    ['♚', '♔'],
];

/// The castling rights written as letters, indexed by their four bits `KQkq`.
pub const CASTLE_RIGHTS: [&'static str; 16] = [
    "-", "q", "k", "kq", "Q", "Qq", "Qk", "Qkq", "K", "Kq", "Kk", "Kkq", "KQ", "KQq", "KQk", "KQkq",
];

/// The letters of the castling rights `KQkq` held in the four bits of `cr`, '-' for none.
pub open spec fn rights_letters(cr: int) -> Seq<char> {
    if cr == 0 {
        seq!['-']
    } else {
        (if (cr / 8) % 2 == 1 { seq!['K'] } else { Seq::empty() }) + (if (cr / 4) % 2 == 1 {
            seq!['Q']
        } else {
            Seq::empty()
        }) + (if (cr / 2) % 2 == 1 { seq!['k'] } else { Seq::empty() }) + (if cr % 2 == 1 {
            seq!['q']
        } else {
            Seq::empty()
        })
    }
}

/// The letters of the castling rights, looked up in `CASTLE_RIGHTS`.
fn castle_rights_str(cr: u8) -> (r: &'static str)
    requires
        cr < 16,
    ensures
        r@ == rights_letters(cr as int),
{
    proof {
        reveal_strlit("-");
        reveal_strlit("q");
        reveal_strlit("k");
        reveal_strlit("kq");
        reveal_strlit("Q");
        reveal_strlit("Qq");
        reveal_strlit("Qk");
        reveal_strlit("Qkq");
        reveal_strlit("K");
        reveal_strlit("Kq");
        reveal_strlit("Kk");
        reveal_strlit("Kkq");
        reveal_strlit("KQ");
        reveal_strlit("KQq");
        reveal_strlit("KQk");
        reveal_strlit("KQkq");
    }
    let table = CASTLE_RIGHTS;
    let r = table[cr as usize];
    assert(r@ =~= rights_letters(cr as int));
    r
}

/// The symbol shown for square `s`: the piece's chess symbol in its color, a space for an
/// empty square.
pub open spec fn symbol_at(b: Board, s: int) -> char {
    let p = b.at_square(s);
    if p == 0 {
        ' '
    } else if bit(b.colors[0], s) {
        SYMBOLS[p][0]
    } else {
        SYMBOLS[p][1]
    }
}

/// The square shown at position `i` of the grid, which runs from a8 rank by rank down
/// to h1.
pub open spec fn grid_square(i: int) -> int {
    (7 - i / 8) * 8 + i % 8
}

/// The first `n` cells of the grid's row `row`, each followed by its separator.
pub open spec fn grid_cells(b: Board, row: int, n: int) -> Seq<char>
    decreases n,
{
    if n <= 0 {
        Seq::empty()
    } else {
        grid_cells(b, row, n - 1) + seq![symbol_at(b, grid_square(row * 8 + n - 1))] + "  | "@
    }
}

/// The first `k` rows of the grid, each under a rule and headed by its rank number.
pub open spec fn grid_rows(b: Board, k: int) -> Seq<char>
    decreases k,
{
    if k <= 0 {
        Seq::empty()
    } else {
        grid_rows(b, k - 1) + "\n---+----+----+----+----+----+----+----+----+\n"@ + seq![
            ' ',
            (('0' as int) + 8 - (k - 1)) as char,
        ] + " | "@ + grid_cells(b, k - 1, 8)
    }
}

/// The board as text: a grid of chess symbols with rank numbers and file letters, then
/// the side to move, the en passant square, the castling rights, the halfmove clock and
/// the hash key in a frame.
pub open spec fn board_text(b: Board) -> Seq<char> {
    grid_rows(b, 8) + "\n---+----+----+----+----+----+----+----+----+"@
        + "\n   | a  | b  | c  | d  | e  | f  | g  | h  |"@
        + "\n\n+------------------------------------------+"@ + "\n|   Active Color: "@ + (if b.tomove
        == WHITE {
        "White"@
    } else {
        "Black"@
    }) + "\n|   Valid En Passant Square: "@ + (match b.passant_square {
        None => "None"@,
        Some(s) => square_name(s as int),
    }) + "\n|   Castling Rights: "@ + rights_letters(b.castling_rights as int)
        + "\n|   Halfmove Clock: "@ + dec_text(b.halfmove_clock as nat) + "\n|   Zobrist Key: "@
        + dec_text(b.zobrist_key as nat) + "\n+------------------------------------------+"@
}

impl Board {
    /// Every square can be shown: its piece code names a piece type and an occupied square
    /// has a color; the castling rights fit in four bits and the en passant square is on
    /// the board.
    pub open spec fn displayable(&self) -> bool {
        &&& forall|s: int|
            0 <= s < 64 ==> #[trigger] self.at_square(s) <= 6 && (self.at_square(s) != 0 ==> (bit(
                self.colors[0],
                s,
            ) || bit(self.colors[1], s)))
        &&& self.castling_rights < 16
        &&& (self.passant_square matches Some(s) ==> s < 64)
    }

    /// The board as text, as `board_text` lays it out.
    pub fn to_string(&self) -> (r: String)
        requires
            self.displayable(),
        ensures
            r@ == board_text(*self),
    {
        let mut char_indices = [' '; 64];
        let mut square: u8 = 0;
        while square < 64
            invariant
                square <= 64,
                self.displayable(),
                forall|i: int|
                    0 <= i < 64 ==> #[trigger] char_indices[i] == if grid_square(i) < square {
                        symbol_at(*self, grid_square(i))
                    } else {
                        ' '
                    },
            decreases 64 - square,
        {
            let idx = square.flip();
            let piece_at_square = self.get_at_square(square);
            let symbols = SYMBOLS[piece_at_square as usize];
            if piece_at_square != 0 {
                if self.is_color(square, WHITE) {
                    char_indices[idx as usize] = symbols[0];
                } else if self.is_color(square, BLACK) {
                    char_indices[idx as usize] = symbols[1];
                }
            }
            assert(grid_square(idx as int) == square);
            square = square + 1;
        }
        let mut out: Vec<char> = Vec::new();
        let mut rank: u8 = 0;
        while rank < 8
            invariant
                rank <= 8,
                forall|i: int| 0 <= i < 64 ==> #[trigger] char_indices[i] == symbol_at(*self, grid_square(i)),
                out@ == grid_rows(*self, rank as int),
            decreases 8 - rank,
        {
            push_str(&mut out, "\n---+----+----+----+----+----+----+----+----+\n");
            out.push(' ');
            out.push((('0' as u8) + (8 - rank)) as char);
            push_str(&mut out, " | ");
            let ghost start = out@;
            let mut file: u8 = 0;
            while file < 8
                invariant
                    file <= 8,
                    rank < 8,
                    forall|i: int| 0 <= i < 64 ==> #[trigger] char_indices[i] == symbol_at(*self, grid_square(i)),
                    out@ == start + grid_cells(*self, rank as int, file as int),
                decreases 8 - file,
            {
                let index = rank * 8 + file;
                out.push(char_indices[index as usize]);
                push_str(&mut out, "  | ");
                file = file + 1;
                assert(out@ =~= start + grid_cells(*self, rank as int, file as int));
            }
            rank = rank + 1;
            assert(out@ =~= grid_rows(*self, rank as int));
        }
        push_str(&mut out, "\n---+----+----+----+----+----+----+----+----+");
        push_str(&mut out, "\n   | a  | b  | c  | d  | e  | f  | g  | h  |");
        push_str(&mut out, "\n\n+------------------------------------------+");
        push_str(&mut out, "\n|   Active Color: ");
        if self.tomove == WHITE {
            push_str(&mut out, "White");
        } else {
            push_str(&mut out, "Black");
        }
        push_str(&mut out, "\n|   Valid En Passant Square: ");
        match self.passant_square {
            None => push_str(&mut out, "None"),
            Some(val) => push_square_name(&mut out, val),
        }
        push_str(&mut out, "\n|   Castling Rights: ");
        push_str(&mut out, castle_rights_str(self.castling_rights));
        push_str(&mut out, "\n|   Halfmove Clock: ");
        push_decimal(&mut out, self.halfmove_clock as u64);
        push_str(&mut out, "\n|   Zobrist Key: ");
        push_decimal(&mut out, self.zobrist_key);
        push_str(&mut out, "\n+------------------------------------------+");
        string_from_chars(&out)
    }
}

} // verus!
