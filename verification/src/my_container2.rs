//! The container of [`crate::my_container`], whose owning iterator keeps what is left in
//! order and takes from the front.
use vstd::prelude::*;

pub use crate::my_container::{MyContainerIter, MyContainerIterMut};

verus! {

/// A container of slots.
pub struct MyContainer<T> {
    pub slots: Vec<T>,
}

impl<T> MyContainer<T> {
    /// Creates an empty container.
    pub fn new() -> (r: Self)
        ensures
            r.slots@ == Seq::<T>::empty(),
    {
        MyContainer { slots: Vec::new() }
    }

    /// Consumes the container into an iterator that hands out its slots, first to last.
    pub fn into_iter(self) -> (r: MyContainerIntoIter<T>)
        ensures
            r@ == self.slots@,
    {
        MyContainerIntoIter::new(self.slots)
    }

    /// An iterator over shared references to the slots, first to last.
    pub fn iter(&self) -> (r: MyContainerIter<'_, T>)
        ensures
            r.wf(),
            r@ == self.slots@,
    {
        MyContainerIter::new(self.slots.as_slice())
    }

    /// An iterator over mutable references to the slots, first to last. What is written
    /// through them ends up in the container.
    pub fn iter_mut(&mut self) -> (r: MyContainerIterMut<'_, T>)
        ensures
            r@ == old(self).slots@,
            final(self).slots@ == final(r.target())@,
    {
        MyContainerIterMut::new(self.slots.as_mut_slice())
    }
}

/// The iterator that owns what is left of a container, in order.
pub struct MyContainerIntoIter<T> {
    vec: Vec<T>,
}

impl<T> MyContainerIntoIter<T> {
    /// The slots still to come, in the order they come.
    pub closed spec fn view(&self) -> Seq<T> {
        self.vec@
    }

    fn new(vec: Vec<T>) -> (r: Self)
        ensures
            r@ == vec@,
    {
        MyContainerIntoIter { vec }
    }

    /// The next slot, or `None` when all have been handed out.
    pub fn next(&mut self) -> (r: Option<T>)
        ensures
            old(self)@.len() == 0 ==> r is None && final(self)@ == old(self)@,
            old(self)@.len() > 0 ==> r == Some(old(self)@[0]) && final(self)@ == old(self)@.drop_first(),
    {
        if self.vec.len() == 0 {
            None
        } else {
            let first = self.vec.remove(0);
            proof {
                assert(self.vec@ =~= old(self)@.drop_first());
            }
            Some(first)
        }
    }

    /// How many slots are left, as a lower and an upper bound.
    pub fn size_hint(&self) -> (r: (usize, Option<usize>))
        ensures
            r.0 == self@.len(),
            r.1 == Some(self@.len() as usize),
    {
        let len = self.vec.len();
        (len, Some(len))
    }
}

} // verus!
