use vstd::prelude::*;
use crate::board_state::bitboard::bit;
use crate::text::{dec_text, push_decimal, push_str, square_name, string_from_chars};
use super::board::{Board, Castling};
use super::types::{piece_letter, square, Color, Piece};

verus! {

/// The name of a color.
pub open spec fn color_text(c: Color) -> Seq<char> {
    match c {
        Color::W => "White"@,
        Color::B => "Black"@,
    }
}

impl Color {
    /// The color's name, as it is displayed.
    pub fn to_string(&self) -> (r: String)
        ensures
            r@ == color_text(*self),
    {
        match self {
            Color::W => "White".to_owned(),
            Color::B => "Black".to_owned(),
        }
    }
}

/// A lowercase ASCII letter made uppercase; any other character unchanged.
pub open spec fn upper(c: char) -> char {
    if 'a' <= c && c <= 'z' {
        ((c as int) - 32) as char
    } else {
        c
    }
}

/// A character made uppercase, as `char::to_ascii_uppercase` does for ASCII letters.
fn upper_char(c: char) -> (r: char)
    ensures
        r == upper(c),
{
    if 'a' <= c && c <= 'z' {
        let v = c as u32 - 32;
        v as u8 as char
    } else {
        c
    }
}

/// The character shown for square `s`: the piece's letter, uppercase for white, '.' for
/// an empty square.
pub open spec fn cell(b: Board, s: int) -> char {
    if bit(b.colors[0], s) {
        upper(piece_letter(b.piece_array[s]))
    } else {
        piece_letter(b.piece_array[s])
    }
}

/// The first `n` squares of a rank, each followed by a space.
pub open spec fn cells(b: Board, rank: int, n: int) -> Seq<char>
    decreases n,
{
    if n <= 0 {
        Seq::empty()
    } else {
        cells(b, rank, n - 1) + seq![cell(b, rank * 8 + n - 1), ' ']
    }
}

/// One rank: its number, then its squares, then a newline.
pub open spec fn rank_line(b: Board, rank: int) -> Seq<char> {
    seq![(('1' as int) + rank) as char, ' '] + cells(b, rank, 8) + seq!['\n']
}

/// The top `k` ranks, from the eighth down.
pub open spec fn rank_lines(b: Board, k: int) -> Seq<char>
    decreases k,
{
    if k <= 0 {
        Seq::empty()
    } else {
        rank_lines(b, k - 1) + rank_line(b, 8 - k)
    }
}

/// The castling rights as letters, '-' for none.
pub open spec fn rights_text(r: [bool; 4]) -> Seq<char> {
    let t = (if r[0] { seq!['K'] } else { Seq::empty() }) + (if r[1] { seq!['Q'] } else { Seq::empty() })
        + (if r[2] { seq!['k'] } else { Seq::empty() }) + (if r[3] { seq!['q'] } else { Seq::empty() });
    if r[0] || r[1] || r[2] || r[3] { t } else { seq!['-'] }
}

/// The en passant square's name, '-' for none.
pub open spec fn passant_text(p: Option<u8>) -> Seq<char> {
    match p {
        Some(s) => square_name(s as int),
        None => "-"@,
    }
}

/// The board as text: the ranks from the eighth down with the file letters under them,
/// then the side to move, the castling rights, the en passant square and the halfmove
/// clock in a frame.
pub open spec fn board_text(b: Board) -> Seq<char> {
    rank_lines(b, 8) + "  a b c d e f g h \n"@ + "\n|[====---------------------====]|\n"@
        + "|[    Active Color: "@ + color_text(b.active_color) + "\n"@ + "|[    Castle Rights: "@
        + rights_text(b.cur().castling_rights) + "\n"@ + "|[    En Passant Square: "@
        + passant_text(b.cur().passant_square) + "\n"@ + "|[    Halfmove Clock: "@
        + dec_text(b.cur().halfmove_clock as nat) + "\n"@ + "|[====---------------------====]|"@
}

impl Board {
    /// The squares agree with the colors: a square holds a piece exactly when it has a color.
    pub open spec fn shows_cleanly(&self) -> bool {
        forall|s: int|
            0 <= s < 64 ==> ((#[trigger] self.piece_array[s] == Piece::Empty) == (!bit(self.colors[0], s)
                && !bit(self.colors[1], s)))
    }

    /// The board as text, as `board_text` lays it out.
    pub fn to_string(&self) -> (r: String)
        requires
            self.shows_cleanly(),
            self.info@.len() > 0,
            self.cur().passant_square matches Some(s) ==> s < 64,
        ensures
            r@ == board_text(*self),
    {
        let mut out: Vec<char> = Vec::new();
        let mut k: u8 = 0;
        while k < 8
            invariant
                k <= 8,
                out@ == rank_lines(*self, k as int),
            decreases 8 - k,
        {
            let rank: u8 = 7 - k;
            let ghost start = out@;
            out.push((('1' as u8) + rank) as char);
            out.push(' ');
            let mut file: u8 = 0;
            while file < 8
                invariant
                    file <= 8,
                    rank < 8,
                    out@ == start + seq![(('1' as int) + rank) as char, ' '] + cells(*self, rank as int, file as int),
                decreases 8 - file,
            {
                let sq = square::new_sq(rank, file);
                let piece_at = self.get_piece(sq);
                let mut name = piece_at.name();
                if self.is_color(sq, Color::W) {
                    name = upper_char(name);
                }
                out.push(name);
                out.push(' ');
                file = file + 1;
                assert(out@ =~= start + seq![(('1' as int) + rank) as char, ' '] + cells(*self, rank as int, file as int));
            }
            out.push('\n');
            k = k + 1;
            assert(out@ =~= rank_lines(*self, k as int));
        }
        push_str(&mut out, "  a b c d e f g h \n");
        push_str(&mut out, "\n|[====---------------------====]|\n");
        push_str(&mut out, "|[    Active Color: ");
        let color = self.active_color();
        match color {
            Color::W => push_str(&mut out, "White"),
            Color::B => push_str(&mut out, "Black"),
        }
        push_str(&mut out, "\n");
        push_str(&mut out, "|[    Castle Rights: ");
        let wk = *self.castling(Castling::WK);
        let wq = *self.castling(Castling::WQ);
        let bk = *self.castling(Castling::BK);
        let bq = *self.castling(Castling::BQ);
        let ghost before = out@;
        if wk {
            out.push('K');
        }
        if wq {
            out.push('Q');
        }
        if bk {
            out.push('k');
        }
        if bq {
            out.push('q');
        }
        if !(wk || wq || bk || bq) {
            out.push('-');
        }
        assert(out@ =~= before + rights_text(self.cur().castling_rights));
        push_str(&mut out, "\n");
        push_str(&mut out, "|[    En Passant Square: ");
        match self.passant_square() {
            Some(s) => push_str(&mut out, square::name(s)),
            None => push_str(&mut out, "-"),
        }
        push_str(&mut out, "\n");
        push_str(&mut out, "|[    Halfmove Clock: ");
        push_decimal(&mut out, self.halfmove_clock() as u64);
        push_str(&mut out, "\n");
        push_str(&mut out, "|[====---------------------====]|");
        string_from_chars(&out)
    }
}

} // verus!
