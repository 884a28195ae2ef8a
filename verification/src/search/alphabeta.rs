use vstd::prelude::*;
use super::searchcontrol::CHECKMATE;

verus! {

/// The deepest the search goes, in plies.
pub const MAX_DEPTH: usize = 64;

/// `x` taken into the range of `i16` the way wrapping arithmetic does.
pub open spec fn wrap_i16(x: int) -> int {
    (x + 32768) % 65536 - 32768
}

/// The score of being mated at `ply`, counted from `starting_ply`: the sooner the mate,
/// the lower the score (sums wrap as `i16`).
pub fn mate_score(ply: u16, starting_ply: u8) -> (r: i16)
    ensures
        r == wrap_i16(ply - starting_ply - CHECKMATE),
{
    let x: i32 = ply as i32 - starting_ply as i32 - CHECKMATE as i32;
    if x > 32767 {
        (x - 65536) as i16
    } else {
        x as i16
    }
}

/// How many plies a mate score is from the mate: positive for a score of mating,
/// negative for one of being mated.
pub open spec fn plies_to_mate(score: int) -> int {
    if score > 0 {
        CHECKMATE - score
    } else {
        -CHECKMATE - score
    }
}

/// The distance of a score from a mate, as `plies_to_mate` says.
pub fn mated_in(score: i16) -> (r: i16)
    ensures
        r == plies_to_mate(score as int),
{
    if score > 0 {
        CHECKMATE - score
    } else {
        -CHECKMATE - score
    }
}

} // verus!
