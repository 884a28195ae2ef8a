use vstd::prelude::*;
use crate::move_generation::action::{algebraic, push_algebraic, Move};
use crate::move_generation::list::List;
use crate::text::string_from_chars;
use super::alphabeta::{mated_in, plies_to_mate};

verus! {

/// The score of a won game; mate scores lie within `MAX_DEPTH` of it.
pub const CHECKMATE: i16 = 10_000;

/// How a score is reported to the GUI.
#[derive(Clone, Copy, Debug, PartialEq, Eq, Structural)]
pub enum ScoreReport {
    /// An ordinary score, in centipawns.
    Centipawns(i16),
    /// A forced mate in this many moves (negative: the side to move is mated).
    Mate(i16),
}

/// Plies to mate turned into moves to mate, as the search reports them: an even count
/// is halved, an odd one halved (toward zero) and raised by one.
pub open spec fn moves_to_mate(plies: int) -> int {
    let half = if plies >= 0 { plies / 2 } else { -((-plies) / 2) };
    if plies % 2 == 0 { half } else { half + 1 }
}

/// What the search reports for `score`: a mate when the score is within 64 plies of
/// one, otherwise the score itself.
pub open spec fn report_of(score: i16) -> ScoreReport {
    let m = plies_to_mate(score as int);
    if -64 < m < 64 {
        ScoreReport::Mate(moves_to_mate(m) as i16)
    } else {
        ScoreReport::Centipawns(score)
    }
}

/// The report for a finished iteration's score.
pub fn score_report(score: i16) -> (r: ScoreReport)
    ensures
        r == report_of(score),
{
    let m = mated_in(score);
    if m < 64 && m > -64 {
        let half = if m >= 0 { m / 2 } else { -((-m) / 2) };
        let moves = if m % 2 == 0 { half } else { half + 1 };
        ScoreReport::Mate(moves)
    } else {
        ScoreReport::Centipawns(score)
    }
}

/// The principal variation: the moves the search expects, best first.
pub type PVLine = List<Move, 64>;

/// The names of the moves, each after a space.
pub open spec fn pv_text(moves: Seq<Move>) -> Seq<char>
    decreases moves.len(),
{
    if moves.len() == 0 {
        Seq::empty()
    } else {
        pv_text(moves.drop_last()) + seq![' '] + algebraic(moves.last())
    }
}

/// The principal variation as UCI prints it: each move's name after a space.
pub fn format_pv(pv: &PVLine) -> (r: String)
    requires
        pv.wf(),
    ensures
        r@ == pv_text(pv@),
{
    let mut chars: Vec<char> = Vec::new();
    let mut i: usize = 0;
    while i < pv.length
        invariant
            pv.wf(),
            i <= pv@.len(),
            chars@ == pv_text(pv@.take(i as int)),
        decreases pv.length - i,
    {
        chars.push(' ');
        push_algebraic(&mut chars, *pv.get(i));
        proof {
            assert(pv@.take(i + 1).drop_last() =~= pv@.take(i as int));
            assert(chars@ =~= pv_text(pv@.take(i + 1)));
        }
        i += 1;
    }
    assert(pv@.take(pv@.len() as int) =~= pv@);
    string_from_chars(&chars)
}

} // verus!
