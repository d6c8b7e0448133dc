//! A container with the three ways of iterating over it: by shared borrow, by mutable
//! borrow, and by value.
use vstd::prelude::*;

verus! {

/// A container of slots.
pub struct MyContainer<T> {
    pub slots: Vec<T>,
}

impl<T> MyContainer<T> {
    /// Creates an empty container.
    pub fn new() -> (r: Self)
        ensures
            r.slots@ == Seq::<T>::empty(),
    {
        MyContainer { slots: Vec::new() }
    }

    /// Consumes the container into an iterator that hands out its slots, first to last.
    pub fn into_iter(self) -> (r: MyContainerIntoIter<T>)
        ensures
            r@ == self.slots@,
    {
        MyContainerIntoIter::new(self)
    }

    /// An iterator over shared references to the slots, first to last.
    pub fn iter(&self) -> (r: MyContainerIter<'_, T>)
        ensures
            r.wf(),
            r@ == self.slots@,
    {
        MyContainerIter::new(self.slots.as_slice())
    }

    /// An iterator over mutable references to the slots, first to last. What is written
    /// through them ends up in the container.
    pub fn iter_mut(&mut self) -> (r: MyContainerIterMut<'_, T>)
        ensures
            r@ == old(self).slots@,
            final(self).slots@ == final(r.target())@,
    {
        MyContainerIterMut::new(self.slots.as_mut_slice())
    }
}

/// The iterator that owns what is left of a container. The slots still to come are kept
/// last one first, so that each step takes one from the end.
pub struct MyContainerIntoIter<T> {
    rest: Vec<T>,
}

impl<T> MyContainerIntoIter<T> {
    /// The slots still to come, in the order they come.
    pub closed spec fn view(&self) -> Seq<T> {
        self.rest@.reverse()
    }

    fn new(container: MyContainer<T>) -> (r: Self)
        ensures
            r@ == container.slots@,
    {
        let mut slots = container.slots;
        let ghost all = slots@;
        let mut rest: Vec<T> = Vec::new();
        while slots.len() > 0
            invariant
                all == slots@ + rest@.reverse(),
            decreases slots.len(),
        {
            let x = slots.pop().unwrap();
            proof {
                assert(rest@.push(x).reverse() =~= seq![x] + rest@.reverse());
            }
            rest.push(x);
        }
        proof {
            assert(all =~= rest@.reverse());
        }
        MyContainerIntoIter { rest }
    }

    /// The next slot, or `None` when all have been handed out.
    pub fn next(&mut self) -> (r: Option<T>)
        ensures
            old(self)@.len() == 0 ==> r is None && final(self)@ == old(self)@,
            old(self)@.len() > 0 ==> r == Some(old(self)@[0]) && final(self)@ == old(self)@.drop_first(),
    {
        let r = self.rest.pop();
        proof {
            if old(self)@.len() > 0 {
                assert(old(self)@.drop_first() =~= self.rest@.reverse());
            }
        }
        r
    }

    /// How many slots are left, as a lower and an upper bound.
    pub fn size_hint(&self) -> (r: (usize, Option<usize>))
        ensures
            r.0 == self@.len(),
            r.1 == Some(self@.len() as usize),
    {
        (self.rest.len(), Some(self.rest.len()))
    }
}

/// The iterator over shared references to the slots of a container.
pub struct MyContainerIter<'a, T> {
    slice: &'a [T],
    pos: usize,
}

impl<'a, T> MyContainerIter<'a, T> {
    /// The slots still to come.
    pub closed spec fn view(&self) -> Seq<T> {
        self.slice@.skip(self.pos as int)
    }

    pub closed spec fn wf(&self) -> bool {
        self.pos <= self.slice@.len()
    }

    pub(crate) fn new(slice: &'a [T]) -> (r: Self)
        ensures
            r.wf(),
            r@ == slice@,
    {
        MyContainerIter { slice, pos: 0 }
    }

    /// A reference to the next slot, or `None` when all have been handed out.
    pub fn next(&mut self) -> (r: Option<&'a T>)
        requires
            old(self).wf(),
        ensures
            final(self).wf(),
            old(self)@.len() == 0 ==> r is None && final(self)@ == old(self)@,
            old(self)@.len() > 0 ==> r == Some(&old(self)@[0]) && final(self)@ == old(self)@.drop_first(),
    {
        if self.pos >= self.slice.len() {
            None
        } else {
            let item = &self.slice[self.pos];
            self.pos = self.pos + 1;
            proof {
                assert(self@ =~= old(self)@.drop_first());
            }
            Some(item)
        }
    }

    /// How many slots are left, as a lower and an upper bound.
    pub fn size_hint(&self) -> (r: (usize, Option<usize>))
        requires
            self.wf(),
        ensures
            r.0 == self@.len(),
            r.1 == Some(self@.len() as usize),
    {
        let len = self.slice.len();
        (len - self.pos, Some(len - self.pos))
    }
}

/// The iterator over mutable references to the slots of a container. It holds the part of
/// the slots not yet handed out, and shrinks it from the front.
pub struct MyContainerIterMut<'a, T> {
    slice: &'a mut [T],
}

impl<'a, T> MyContainerIterMut<'a, T> {
    /// The slots still to come.
    pub closed spec fn view(&self) -> Seq<T> {
        (*self.slice)@
    }

    /// The borrow of the slots still to come.
    pub closed spec fn target(&self) -> &'a mut [T] {
        self.slice
    }

    pub(crate) fn new(slice: &'a mut [T]) -> (r: Self)
        ensures
            r@ == old(slice)@,
            final(slice)@ == final(r.target())@,
    {
        MyContainerIterMut { slice }
    }

    /// A mutable reference to the next slot, or `None` when all have been handed out. What
    /// is written through it ends up in that slot.
    pub fn next(&mut self) -> (r: Option<&'a mut T>)
        ensures
            old(self)@.len() == 0 ==> r is None && final(self)@ == old(self)@
                && final(old(self).target())@ == final(final(self).target())@,
            old(self)@.len() > 0 ==> r is Some && *r->Some_0 == old(self)@[0]
                && final(self)@ == old(self)@.drop_first()
                && final(old(self).target())@ == seq![*final(r->Some_0)] + final(final(self).target())@,
    {
        let mut slice: &'a mut [T] = &mut [];
        core::mem::swap(&mut slice, &mut self.slice);
        if slice.len() == 0 {
            self.slice = slice;
            return None;
        }
        let (head, tail) = slice.split_at_mut(1);
        self.slice = tail;
        head.first_mut()
    }

    /// How many slots are left, as a lower and an upper bound.
    pub fn size_hint(&self) -> (r: (usize, Option<usize>))
        ensures
            r.0 == self@.len(),
            r.1 == Some(self@.len() as usize),
    {
        (self.slice.len(), Some(self.slice.len()))
    }
}

} // verus!
