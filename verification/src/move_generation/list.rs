use vstd::prelude::*;

verus! {

/// A list of at most `SIZE` items that stands for a fixed-capacity stack buffer: `items`
/// holds exactly the `length` live items.
pub struct List<T, const SIZE: usize> {
    pub items: Vec<T>,
    pub length: usize,
}

impl<T, const SIZE: usize> Default for List<T, SIZE> {
    fn default() -> (r: Self)
        ensures
            r.wf(),
            r@ == Seq::<T>::empty(),
    {
        Self::new()
    }
}

impl<T, const SIZE: usize> View for List<T, SIZE> {
    type V = Seq<T>;

    open spec fn view(&self) -> Seq<T> {
        self.items@
    }
}

impl<T, const SIZE: usize> List<T, SIZE> {
    /// The live items are exactly `items`, and they fit in the capacity.
    pub open spec fn wf(&self) -> bool {
        &&& self.items.len() == self.length
        &&& self.length <= SIZE
    }

    pub fn new() -> (r: List<T, SIZE>)
        ensures
            r.wf(),
            r@ == Seq::<T>::empty(),
    {
        Self { items: Vec::new(), length: 0 }
    }

    /// Drops the last item.
    #[inline]
    pub fn pop(&mut self)
        requires
            old(self).wf(),
            old(self).length != 0,
        ensures
            final(self).wf(),
            final(self)@ == old(self)@.drop_last(),
    {
        self.items.pop();
        self.length -= 1;
    }

    #[inline]
    pub fn push(&mut self, item: T)
        requires
            old(self).wf(),
            old(self).length < SIZE,
        ensures
            final(self).wf(),
            final(self)@ == old(self)@.push(item),
    {
        self.items.push(item);
        self.length += 1;
    }

    #[inline]
    pub fn clear(&mut self)
        ensures
            final(self).wf(),
            final(self)@ == Seq::<T>::empty(),
    {
        self.length = 0;
        self.items = Vec::new();
    }
}

impl<T: Copy, const SIZE: usize> List<T, SIZE> {
    #[inline]
    pub fn swap(&mut self, idx1: usize, idx2: usize)
        requires
            old(self).wf(),
            idx1 < old(self).length,
            idx2 < old(self).length,
        ensures
            final(self).wf(),
            final(self)@ == old(self)@.update(idx1 as int, old(self)@[idx2 as int]).update(
                idx2 as int,
                old(self)@[idx1 as int],
            ),
    {
        let a = self.items[idx1];
        let b = self.items[idx2];
        self.items.set(idx1, b);
        self.items.set(idx2, a);
    }
}

impl<T, const SIZE: usize> List<T, SIZE> {
    /// The item at a position, as `list[index]` reads it.
    pub fn get(&self, index: usize) -> (r: &T)
        requires
            self.wf(),
            index < self.length,
        ensures
            *r == self@[index as int],
    {
        &self.items[index]
    }

    /// Replaces the item at a position, as `list[index] = item` writes it.
    pub fn set(&mut self, index: usize, item: T)
        requires
            old(self).wf(),
            index < old(self).length,
        ensures
            final(self).wf(),
            final(self)@ == old(self)@.update(index as int, item),
    {
        self.items.set(index, item);
    }
}

} // verus!
