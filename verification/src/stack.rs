//! A stack on top of a `Vec`.
use vstd::prelude::*;

verus! {

pub struct MyStack<T> {
    slots: Vec<T>,
}

impl<T> MyStack<T> {
    /// Elements from bottom to top.
    pub closed spec fn view(&self) -> Seq<T> {
        self.slots@
    }

    pub fn new() -> (s: Self)
        ensures
            s@ == Seq::<T>::empty(),
    {
        let mut slots: Vec<T> = Vec::new();
        slots.reserve(1000);
        MyStack { slots }
    }

    pub fn push(&mut self, value: T)
        ensures
            final(self)@ == old(self)@.push(value),
    {
        self.slots.push(value);
    }

    pub fn pop(&mut self) -> (r: Option<T>)
        ensures
            old(self)@.len() == 0 ==> r is None && final(self)@ == old(self)@,
            old(self)@.len() > 0 ==> r == Some(old(self)@.last()) && final(self)@ == old(self)@.drop_last(),
    {
        if self.slots.len() > 0 {
            self.slots.pop()
        } else {
            None
        }
    }

    pub fn len(&self) -> (r: usize)
        ensures
            r == self@.len(),
    {
        self.slots.len()
    }

    pub fn peek(&self) -> (r: Option<&T>)
        ensures
            self@.len() == 0 ==> r is None,
            self@.len() > 0 ==> r == Some(&self@.last()),
    {
        if self.slots.len() > 0 {
            Some(&self.slots[self.slots.len() - 1])
        } else {
            None
        }
    }
}

/// Popping right after a push hands the pushed value back and restores the stack.
pub proof fn law_pop_undoes_push<T>(before: Seq<T>, value: T)
    ensures
        before.push(value).len() > 0,
        before.push(value).last() == value,
        before.push(value).drop_last() == before,
{
    assert(before.push(value).drop_last() =~= before);
}

} // verus!
