use vstd::prelude::*;
use crate::board_state::board::Board;
use crate::board_state::zobrist::{Zobrist, ZobristKey};
use crate::move_generation::list::List;

verus! {

/// How many positions a game history holds at most.
pub const HISTORY_SIZE: usize = 1024;

/// The keys of the positions of the game so far, the current one last.
pub struct GameHistory {
    pub positions: List<ZobristKey, HISTORY_SIZE>,
}

pub const START_FEN: &'static str = "rnbqkbnr/pppppppp/8/8/8/8/PPPPPPPP/RNBQKBNR w KQkq - 0 1";

impl GameHistory {
    pub open spec fn wf(&self) -> bool {
        self.positions.wf()
    }

    /// Records the position reached.
    pub fn store(&mut self, key: ZobristKey)
        requires
            old(self).wf(),
            old(self).positions@.len() < HISTORY_SIZE,
        ensures
            final(self).wf(),
            final(self).positions@ == old(self).positions@.push(key),
    {
        self.positions.push(key);
    }

    /// Forgets the last position, keeping at least one.
    pub fn retract(&mut self)
        requires
            old(self).wf(),
        ensures
            final(self).wf(),
            final(self).positions@ == if old(self).positions@.len() <= 1 {
                old(self).positions@
            } else {
                old(self).positions@.drop_last()
            },
    {
        if self.positions.length <= 1 {
            return;
        }
        self.positions.pop();
    }

    /// A history holding the key of the starting position.
    pub fn new(z: &Zobrist) -> (r: Self)
        requires
            z.wf(),
        ensures
            r.wf(),
            crate::board_state::fen::fen_board(START_FEN@, z) matches Ok(b) ==> r.positions@ == seq![
                b.zobrist_key,
            ],
    {
        let mut list: List<ZobristKey, HISTORY_SIZE> = List::new();
        match Board::parse_fen(START_FEN, z) {
            Ok(startpos) => {
                list.push(startpos.zobrist_key);
            },
            Err(_) => {},
        }
        Self { positions: list }
    }

    /// Whether the current position occurred before within the last `hmc` positions with
    /// the same side to move (two, four, .. positions back). Under four halfmoves there is
    /// none.
    pub fn find(&self, hmc: u8) -> (r: bool)
        requires
            self.wf(),
            self.positions@.len() > 0,
        ensures
            r == (hmc >= 4 && exists|j: int|
                1 <= j && 2 * j <= hmc && 2 * j <= self.positions@.len() - 1 && #[trigger] self.positions@[
                    self.positions@.len() - 1 - 2 * j] == self.positions@.last()),
    {
        let len = self.positions.length;
        let start = len - 1;
        if hmc < 4 {
            return false;
        }
        let item = *self.positions.get(start);
        let mut j: usize = 1;
        while 2 * j <= hmc as usize && 2 * j <= start
            invariant
                self.wf(),
                len == self.positions@.len(),
                start == len - 1,
                item == self.positions@.last(),
                1 <= j <= len,
                hmc >= 4,
                forall|k: int|
                    1 <= k < j ==> #[trigger] self.positions@[len - 1 - 2 * k] != item,
            decreases len - j,
        {
            if *self.positions.get(start - 2 * j) == item {
                return true;
            }
            j += 1;
        }
        proof {
            assert forall|k: int|
                1 <= k && 2 * k <= hmc && 2 * k <= len - 1 implies #[trigger] self.positions@[len - 1 - 2 * k]
                    != item by {
                assert(k < j);
            }
        }
        false
    }
}

/// Forgetting a position just recorded gives back the history as it was (a history
/// keeps at least one position).
pub proof fn lemma_retract_undoes_store(positions: Seq<ZobristKey>, key: ZobristKey)
    requires
        positions.len() >= 1,
    ensures
        ({
            let stored = positions.push(key);
            (if stored.len() <= 1 { stored } else { stored.drop_last() }) == positions
        }),
{
    assert(positions.push(key).drop_last() =~= positions);
}

} // verus!
