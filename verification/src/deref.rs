//! Types that hand out what they hold through `Deref`: a box of one value, an email
//! address that is checked when it is made, and a stack that shows its elements as a
//! slice.
use std::ops::Deref;
use vstd::prelude::*;

use crate::text::chars_of;

verus! {

/// A box that owns one value.
pub struct MyBox<T>(pub T);

impl<T> MyBox<T> {
    /// Boxes `value`.
    pub fn new(value: T) -> (r: Self)
        ensures
            r.0 == value,
    {
        MyBox(value)
    }
}

impl<T> Deref for MyBox<T> {
    type Target = T;

    /// The value inside.
    fn deref(&self) -> (r: &T)
        ensures
            *r == self.0,
    {
        &self.0
    }
}

/// An email address: a text with an `@` in it.
pub struct Email(String);

impl Email {
    /// The address as text.
    pub closed spec fn view(&self) -> Seq<char> {
        self.0@
    }

    /// The address `s`, when it holds an `@`; else `not a valid email`.
    pub fn new(s: &str) -> (r: Result<Self, &'static str>)
        ensures
            s@.contains('@') ==> (r matches Ok(e) && e@ == s@),
            !s@.contains('@') ==> (r matches Err(m) && m@ == "not a valid email"@),
    {
        let chars = chars_of(s);
        let mut i: usize = 0;
        while i < chars.len()
            invariant
                chars@ == s@,
                i <= chars@.len(),
                forall|k: int| 0 <= k < i ==> chars@[k] != '@',
            decreases chars@.len() - i,
        {
            if chars[i] == '@' {
                assert(s@[i as int] == '@');
                return Ok(Email(String::from_str(s)));
            }
            i = i + 1;
        }
        Err("not a valid email")
    }
}

impl Deref for Email {
    type Target = str;

    /// The address as text.
    fn deref(&self) -> (r: &str)
        ensures
            r@ == self@,
    {
        self.0.as_str()
    }
}

/// A stack kept in a vector, whose elements can be read as a slice, bottom first.
pub struct Stack<T> {
    data: Vec<T>,
}

impl<T> Stack<T> {
    /// The elements, bottom first.
    pub closed spec fn view(&self) -> Seq<T> {
        self.data@
    }

    /// An empty stack.
    pub fn new() -> (r: Self)
        ensures
            r@ == Seq::<T>::empty(),
    {
        Stack { data: Vec::new() }
    }

    /// Puts `item` on top.
    pub fn push(&mut self, item: T)
        ensures
            final(self)@ == old(self)@.push(item),
    {
        self.data.push(item);
    }

    /// Takes the top element off, if any.
    pub fn pop(&mut self) -> (r: Option<T>)
        ensures
            old(self)@.len() == 0 ==> r is None && final(self)@ == old(self)@,
            old(self)@.len() > 0 ==> r == Some(old(self)@.last()) && final(self)@ == old(self)@.drop_last(),
    {
        self.data.pop()
    }
}

impl<T> Deref for Stack<T> {
    type Target = [T];

    /// The elements, bottom first.
    fn deref(&self) -> (r: &[T])
        ensures
            r@ == self@,
    {
        self.data.as_slice()
    }
}

} // verus!
