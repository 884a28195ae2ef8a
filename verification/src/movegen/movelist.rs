use vstd::prelude::*;

verus! {

pub const MAX_MOVES: usize = 256;

/// A list of at most `N` items. Pushing onto a full list does nothing; `items` holds exactly
/// the `length` live items.
pub struct List<T, const N: usize> {
    pub items: Vec<T>,
    pub length: usize,
}

impl<T, const N: usize> View for List<T, N> {
    type V = Seq<T>;

    open spec fn view(&self) -> Seq<T> {
        self.items@
    }
}

impl<T, const N: usize> Default for List<T, N> {
    fn default() -> (r: Self)
        ensures
            r.wf(),
            r@ == Seq::<T>::empty(),
    {
        Self::new()
    }
}

/// The running maximum of `scores[from..to]` that starts at `i16::MIN` and moves only on a
/// strictly greater score, with the index where it last moved (`from` while it has not).
pub open spec fn best_from(scores: Seq<i16>, from: int, to: int) -> (int, int)
    decreases to - from,
{
    if to <= from {
        (i16::MIN as int, from)
    } else {
        let (m, b) = best_from(scores, from, to - 1);
        if scores[to - 1] > m {
            (scores[to - 1] as int, to - 1)
        } else {
            (m, b)
        }
    }
}

/// `s` with the items at `i` and `j` exchanged.
pub open spec fn swapped<T>(s: Seq<T>, i: int, j: int) -> Seq<T> {
    s.update(i, s[j]).update(j, s[i])
}

proof fn lemma_best_from_range(scores: Seq<i16>, from: int, to: int)
    requires
        from <= to <= scores.len(),
    ensures
        from <= best_from(scores, from, to).1,
        from < to ==> best_from(scores, from, to).1 < to,
        best_from(scores, from, to).0 > i16::MIN ==> best_from(scores, from, to).0
            == scores[best_from(scores, from, to).1],
        i16::MIN <= best_from(scores, from, to).0 <= i16::MAX,
    decreases to - from,
{
    if from < to {
        lemma_best_from_range(scores, from, to - 1);
    }
}

impl<T, const N: usize> List<T, N> {
    pub open spec fn wf(&self) -> bool {
        &&& self.items@.len() == self.length
        &&& self.length <= N
    }

    pub fn new() -> (r: Self)
        ensures
            r.wf(),
            r@ == Seq::<T>::empty(),
    {
        Self { items: Vec::new(), length: 0 }
    }

    /// Appends `action` when there is room; a full list stays as it is.
    pub fn push(&mut self, action: T)
        requires
            old(self).wf(),
        ensures
            final(self).wf(),
            final(self)@ == if old(self)@.len() < N {
                old(self)@.push(action)
            } else {
                old(self)@
            },
    {
        if self.length < N {
            self.items.push(action);
            self.length += 1;
        }
    }

    pub fn len(&self) -> (r: usize)
        requires
            self.wf(),
        ensures
            r == self@.len(),
    {
        self.length
    }

    /// Cuts the list down to its first `new_size` items.
    pub fn shrink(&mut self, new_size: usize)
        requires
            old(self).wf(),
            new_size <= old(self)@.len(),
        ensures
            final(self).wf(),
            final(self)@ == old(self)@.take(new_size as int),
    {
        self.items.truncate(new_size);
        self.length = new_size;
    }

    pub fn clear(&mut self)
        requires
            old(self).wf(),
        ensures
            final(self).wf(),
            final(self)@ == Seq::<T>::empty(),
    {
        self.items.truncate(0);
        self.length = 0;
    }

    /// The item at `index`, which must be a live one (reading past the live items
    /// panics).
    pub fn get(&self, index: usize) -> (r: &T)
        requires
            self.wf(),
            index < self@.len(),
        ensures
            *r == self@[index as int],
    {
        &self.items[index]
    }
}

impl<T: Copy, const N: usize> List<T, N> {
    pub fn swap(&mut self, idx1: usize, idx2: usize)
        requires
            old(self).wf(),
            idx1 < old(self)@.len(),
            idx2 < old(self)@.len(),
        ensures
            final(self).wf(),
            final(self)@ == swapped(old(self)@, idx1 as int, idx2 as int),
    {
        let a = self.items[idx1];
        let b = self.items[idx2];
        self.items.set(idx1, b);
        self.items.set(idx2, a);
    }

    /// Writes `item` at the live index `index`.
    pub fn set(&mut self, index: usize, item: T)
        requires
            old(self).wf(),
            index < old(self)@.len(),
        ensures
            final(self).wf(),
            final(self)@ == old(self)@.update(index as int, item),
    {
        self.items.set(index, item);
    }

    /// The live items, in order.
    pub fn iter(&self) -> (r: Vec<T>)
        requires
            self.wf(),
        ensures
            r@ == self@,
    {
        let mut r: Vec<T> = Vec::new();
        for i in 0..self.length
            invariant
                self.wf(),
                r@ == self@.take(i as int),
        {
            r.push(self.items[i]);
            assert(r@ =~= self@.take(i + 1));
        }
        assert(r@ =~= self@);
        r
    }

    /// Selection step with given scores: among the items from `idx` on, finds the first with
    /// the highest score, swaps it to `idx` and returns it. Gives `None`, changing nothing,
    /// when `idx` is past the end or every score there is `i16::MIN`.
    pub fn partial_insertion_sort_scored(&mut self, idx: usize, scores: &Vec<i16>) -> (r: Option<T>)
        requires
            old(self).wf(),
            scores@.len() == old(self)@.len(),
        ensures
            final(self).wf(),
            ({
                let (m, b) = best_from(scores@, idx as int, old(self)@.len() as int);
                if idx >= old(self)@.len() || m == i16::MIN {
                    r is None && final(self)@ == old(self)@
                } else {
                    r == Some(old(self)@[b]) && final(self)@ == swapped(old(self)@, idx as int, b)
                }
            }),
    {
        if idx >= self.len() {
            return None;
        }
        let mut max = i16::MIN;
        let mut best_idx = idx;
        let mut i = idx;
        while i < self.length
            invariant
                self.wf(),
                scores@.len() == self@.len(),
                idx <= i <= self@.len(),
                (max as int, best_idx as int) == best_from(scores@, idx as int, i as int),
            decreases self.length - i,
        {
            let value = scores[i];
            if value > max {
                max = value;
                best_idx = i;
            }
            i += 1;
        }
        proof {
            lemma_best_from_range(scores@, idx as int, self@.len() as int);
        }
        if max == i16::MIN {
            return None;
        }
        self.swap(idx, best_idx);
        Some(*self.get(idx))
    }

    /// Selection step with scores from `value_func`, called once on each item from `idx`
    /// on: as `partial_insertion_sort_scored` with the scores it gave.
    pub fn partial_insertion_sort<F: Fn(&T) -> i16>(&mut self, idx: usize, value_func: F) -> (r: Option<T>)
        requires
            old(self).wf(),
            forall|x: &T| #[trigger] value_func.requires((x,)),
        ensures
            final(self).wf(),
            exists|scores: Seq<i16>|
                {
                    &&& scores.len() == old(self)@.len()
                    &&& forall|j: int|
                        idx <= j < old(self)@.len() ==> value_func.ensures(
                            (&old(self)@[j],),
                            #[trigger] scores[j],
                        )
                    &&& ({
                        let (m, b) = best_from(scores, idx as int, old(self)@.len() as int);
                        if idx >= old(self)@.len() || m == i16::MIN {
                            r is None && final(self)@ == old(self)@
                        } else {
                            r == Some(old(self)@[b]) && final(self)@ == swapped(
                                old(self)@,
                                idx as int,
                                b,
                            )
                        }
                    })
                },
    {
        let mut scores: Vec<i16> = Vec::new();
        let mut i: usize = 0;
        while i < self.length
            invariant
                self.wf(),
                i <= self@.len(),
                scores@.len() == i,
                forall|x: &T| #[trigger] value_func.requires((x,)),
                forall|j: int|
                    idx <= j < i ==> value_func.ensures((&self@[j],), #[trigger] scores@[j]),
            decreases self.length - i,
        {
            if i >= idx {
                let v = value_func(&self.items[i]);
                scores.push(v);
            } else {
                scores.push(0);
            }
            i += 1;
        }
        let ghost s = scores@;
        let r = self.partial_insertion_sort_scored(idx, &scores);
        assert(s.len() == old(self)@.len());
        r
    }
}

} // verus!
