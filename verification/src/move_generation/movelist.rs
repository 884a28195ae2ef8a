use vstd::prelude::*;
use super::action::Move;

verus! {

/// A fixed-capacity list of moves: the first `length` entries are live.
pub struct MoveList {
    pub moves: [Move; 255],
    pub length: u8,
}

impl Default for MoveList {
    fn default() -> (r: Self)
        ensures
            r@ == Seq::<Move>::empty(),
    {
        Self::new()
    }
}

impl View for MoveList {
    type V = Seq<Move>;

    open spec fn view(&self) -> Seq<Move> {
        self.moves@.take(self.length as int)
    }
}

impl MoveList {
    pub fn new() -> (r: Self)
        ensures
            r@ == Seq::<Move>::empty(),
    {
        Self { moves: [0; 255], length: 0 }
    }

    #[inline]
    pub fn push(&mut self, item: Move)
        requires
            old(self).length < 255,
        ensures
            final(self)@ == old(self)@.push(item),
            final(self).length == old(self).length + 1,
    {
        self.moves[self.length as usize] = item;
        self.length += 1;
        assert(final(self)@ =~= old(self)@.push(item));
    }

    #[inline]
    pub fn swap(&mut self, idx1: usize, idx2: usize)
        requires
            idx1 < 255,
            idx2 < 255,
        ensures
            final(self).length == old(self).length,
            final(self).moves@ == old(self).moves@.update(idx1 as int, old(self).moves@[idx2 as int]).update(
                idx2 as int,
                old(self).moves@[idx1 as int],
            ),
    {
        let a = self.moves[idx1];
        let b = self.moves[idx2];
        self.moves[idx1] = b;
        self.moves[idx2] = a;
        assert(final(self).moves@ =~= old(self).moves@.update(idx1 as int, old(self).moves@[idx2 as int]).update(
            idx2 as int,
            old(self).moves@[idx1 as int],
        ));
    }

    /// The move at a live position, as `list[index]` reads it.
    pub fn get(&self, index: usize) -> (r: Move)
        requires
            index < self.length,
        ensures
            r == self@[index as int],
    {
        self.moves[index]
    }
}

/// A fixed-capacity list of move scores: the first `length` entries are live.
pub struct ScoreList {
    pub scores: [i16; 256],
    pub length: u8,
}

impl Default for ScoreList {
    fn default() -> (r: Self)
        ensures
            r@ == Seq::<i16>::empty(),
    {
        Self::new()
    }
}

impl View for ScoreList {
    type V = Seq<i16>;

    open spec fn view(&self) -> Seq<i16> {
        self.scores@.take(self.length as int)
    }
}

impl ScoreList {
    pub fn new() -> (r: Self)
        ensures
            r@ == Seq::<i16>::empty(),
    {
        Self { scores: [0; 256], length: 0 }
    }

    #[inline]
    pub fn push(&mut self, item: i16)
        requires
            old(self).length < 255,
        ensures
            final(self)@ == old(self)@.push(item),
            final(self).length == old(self).length + 1,
    {
        self.scores[self.length as usize] = item;
        self.length += 1;
        assert(final(self)@ =~= old(self)@.push(item));
    }

    #[inline]
    pub fn swap(&mut self, idx1: usize, idx2: usize)
        requires
            idx1 < 256,
            idx2 < 256,
        ensures
            final(self).length == old(self).length,
            final(self).scores@ == old(self).scores@.update(idx1 as int, old(self).scores@[idx2 as int]).update(
                idx2 as int,
                old(self).scores@[idx1 as int],
            ),
    {
        let a = self.scores[idx1];
        let b = self.scores[idx2];
        self.scores[idx1] = b;
        self.scores[idx2] = a;
        assert(final(self).scores@ =~= old(self).scores@.update(idx1 as int, old(self).scores@[idx2 as int]).update(
            idx2 as int,
            old(self).scores@[idx1 as int],
        ));
    }

    /// The score at a live position, as `list[index]` reads it.
    pub fn get(&self, index: usize) -> (r: i16)
        requires
            index < self.length,
        ensures
            r == self@[index as int],
    {
        self.scores[index]
    }

    /// Replaces the score at a position, as `list[index] = score` writes it.
    pub fn set(&mut self, index: usize, score: i16)
        requires
            index < 256,
        ensures
            final(self).length == old(self).length,
            final(self).scores@ == old(self).scores@.update(index as int, score),
    {
        self.scores[index] = score;
        assert(final(self).scores@ =~= old(self).scores@.update(index as int, score));
    }
}

} // verus!
