//! A double-ended linked list with front and back iteration.
use vstd::prelude::*;
use crate::double_linked_list_raw as nodes;

verus! {

/// A doubly linked list. Its nodes are kept by [`nodes::LinkedList`], which links
/// them in both directions.
pub struct LinkedList<T> {
    inner: nodes::LinkedList<T>,
}

impl<T> LinkedList<T> {
    /// The elements, front to back.
    pub closed spec fn view(&self) -> Seq<T> {
        self.inner@
    }

    pub closed spec fn wf(&self) -> bool {
        self.inner.wf()
    }

    /// Creates an empty list.
    pub fn new() -> (r: Self)
        ensures
            r.wf(),
            r@ == Seq::<T>::empty(),
    {
        LinkedList { inner: nodes::LinkedList::new() }
    }

    /// The number of elements.
    pub fn len(&self) -> (r: usize)
        requires
            self.wf(),
        ensures
            r == self@.len(),
    {
        self.inner.len()
    }

    /// Whether the list holds no element.
    pub fn is_empty(&self) -> (r: bool)
        requires
            self.wf(),
        ensures
            r == (self@.len() == 0),
    {
        self.inner.is_empty()
    }

    /// Appends `elem` at the back.
    pub fn push_back(&mut self, elem: T)
        requires
            old(self).wf(),
            old(self)@.len() < usize::MAX,
        ensures
            final(self).wf(),
            final(self)@ == old(self)@.push(elem),
    {
        self.inner.push_back(elem)
    }

    /// Puts `elem` at the front.
    pub fn push_front(&mut self, elem: T)
        requires
            old(self).wf(),
            old(self)@.len() < usize::MAX,
        ensures
            final(self).wf(),
            final(self)@ == seq![elem] + old(self)@,
    {
        self.inner.push_front(elem)
    }

    /// Removes and returns the front element, or `None` when the list is empty.
    pub fn pop_front(&mut self) -> (r: Option<T>)
        requires
            old(self).wf(),
        ensures
            final(self).wf(),
            old(self)@.len() == 0 ==> r is None && final(self)@ == old(self)@,
            old(self)@.len() > 0 ==> r == Some(old(self)@[0]) && final(self)@
                == old(self)@.drop_first(),
    {
        self.inner.pop_front()
    }

    /// Removes and returns the back element, or `None` when the list is empty.
    pub fn pop_back(&mut self) -> (r: Option<T>)
        requires
            old(self).wf(),
        ensures
            final(self).wf(),
            old(self)@.len() == 0 ==> r is None && final(self)@ == old(self)@,
            old(self)@.len() > 0 ==> r == Some(old(self)@.last()) && final(self)@
                == old(self)@.drop_last(),
    {
        self.inner.pop_back()
    }

    /// A reference to the front element, or `None` when the list is empty.
    pub fn peek_front(&self) -> (r: Option<&T>)
        requires
            self.wf(),
        ensures
            self@.len() == 0 ==> r is None,
            self@.len() > 0 ==> r == Some(&self@[0]),
    {
        self.inner.peek_front()
    }

    /// A reference to the back element, or `None` when the list is empty.
    pub fn peek_back(&self) -> (r: Option<&T>)
        requires
            self.wf(),
        ensures
            self@.len() == 0 ==> r is None,
            self@.len() > 0 ==> r == Some(&self@.last()),
    {
        self.inner.peek_back()
    }

    /// An iterator over shared references to the elements, from either end.
    pub fn iter(&self) -> (r: Iter<'_, T>)
        requires
            self.wf(),
        ensures
            r.wf(),
            r@ == self@,
    {
        Iter { inner: self.inner.iter() }
    }

    /// Consumes the list into an iterator that hands out its elements from either end.
    pub fn into_iter(self) -> (r: IntoIter<T>)
        requires
            self.wf(),
        ensures
            r.wf(),
            r@ == self@,
    {
        IntoIter { inner: self.inner.into_iter() }
    }
}

impl<T> Default for LinkedList<T> {
    fn default() -> (r: Self)
        ensures
            r.wf(),
            r@ == Seq::<T>::empty(),
    {
        Self::new()
    }
}

/// The elements of a [`LinkedList`], handed out by value from either end.
pub struct IntoIter<T> {
    inner: nodes::IntoIter<T>,
}

impl<T> IntoIter<T> {
    /// The elements not yet handed out, front to back.
    pub closed spec fn view(&self) -> Seq<T> {
        self.inner@
    }

    pub closed spec fn wf(&self) -> bool {
        self.inner.wf()
    }

    /// The next element from the front, or `None` when all have been handed out.
    pub fn next(&mut self) -> (r: Option<T>)
        requires
            old(self).wf(),
        ensures
            final(self).wf(),
            old(self)@.len() == 0 ==> r is None && final(self)@ == old(self)@,
            old(self)@.len() > 0 ==> r == Some(old(self)@[0]) && final(self)@
                == old(self)@.drop_first(),
    {
        self.inner.next()
    }

    /// The next element from the back, or `None` when all have been handed out.
    pub fn next_back(&mut self) -> (r: Option<T>)
        requires
            old(self).wf(),
        ensures
            final(self).wf(),
            old(self)@.len() == 0 ==> r is None && final(self)@ == old(self)@,
            old(self)@.len() > 0 ==> r == Some(old(self)@.last()) && final(self)@
                == old(self)@.drop_last(),
    {
        self.inner.next_back()
    }

    /// The number of elements not yet handed out.
    pub fn len(&self) -> (r: usize)
        requires
            self.wf(),
        ensures
            r == self@.len(),
    {
        self.inner.len()
    }
}

/// Shared references to the elements of a [`LinkedList`], from either end.
pub struct Iter<'a, T> {
    inner: nodes::Iter<'a, T>,
}

impl<'a, T> Iter<'a, T> {
    /// The elements not yet handed out, front to back.
    pub closed spec fn view(&self) -> Seq<T> {
        self.inner@
    }

    pub closed spec fn wf(&self) -> bool {
        self.inner.wf()
    }

    /// The next element from the front, or `None` when all have been handed out.
    pub fn next(&mut self) -> (r: Option<&'a T>)
        requires
            old(self).wf(),
        ensures
            final(self).wf(),
            old(self)@.len() == 0 ==> r is None && final(self)@ == old(self)@,
            old(self)@.len() > 0 ==> r == Some(&old(self)@[0]) && final(self)@
                == old(self)@.drop_first(),
    {
        self.inner.next()
    }

    /// The next element from the back, or `None` when all have been handed out.
    pub fn next_back(&mut self) -> (r: Option<&'a T>)
        requires
            old(self).wf(),
        ensures
            final(self).wf(),
            old(self)@.len() == 0 ==> r is None && final(self)@ == old(self)@,
            old(self)@.len() > 0 ==> r == Some(&old(self)@.last()) && final(self)@
                == old(self)@.drop_last(),
    {
        self.inner.next_back()
    }

    /// The number of elements not yet handed out.
    pub fn len(&self) -> (r: usize)
        requires
            self.wf(),
        ensures
            r == self@.len(),
    {
        self.inner.len()
    }
}

} // verus!
