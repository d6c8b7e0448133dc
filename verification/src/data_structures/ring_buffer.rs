//! A ring buffer with fixed capacity.
use vstd::prelude::*;

verus! {

/// `(x + 1) % m` for `x < m`.
proof fn lemma_next_slot(x: int, m: int)
    requires
        0 <= x < m,
    ensures
        (x + 1) % m == if x + 1 < m { x + 1 } else { 0 },
{
    if x + 1 < m {
        vstd::arithmetic::div_mod::lemma_small_mod((x + 1) as nat, m as nat);
    } else {
        vstd::arithmetic::div_mod::lemma_mod_self_0(m);
    }
}

/// A ring buffer with fixed capacity.
pub struct RingBuffer<T> {
    buffer: Vec<Option<T>>,
    read: usize,
    write: usize,
    count: usize,
}

impl<T> RingBuffer<T> {
    /// Buffer index of the `i`-th oldest element.
    closed spec fn slot(&self, i: int) -> int {
        if self.read + i < self.buffer@.len() {
            self.read + i
        } else {
            self.read + i - self.buffer@.len()
        }
    }

    /// The elements, oldest first.
    pub closed spec fn view(&self) -> Seq<T> {
        Seq::new(self.count as nat, |i: int| self.buffer@[self.slot(i)]->Some_0)
    }

    /// The maximum number of elements.
    pub closed spec fn cap(&self) -> nat {
        self.buffer@.len()
    }

    pub closed spec fn wf(&self) -> bool {
        &&& self.buffer@.len() >= 1
        &&& self.read < self.buffer@.len()
        &&& self.count <= self.buffer@.len()
        &&& self.write == self.slot(self.count as int) || (self.count == self.buffer@.len() && self.write == self.read)
        &&& self.write < self.buffer@.len()
        &&& forall|i: int| 0 <= i < self.count ==> (#[trigger] self.buffer@[self.slot(i)]) is Some
    }

    /// A well-formed buffer never holds more elements than its capacity.
    pub proof fn lemma_len_le_cap(&self)
        requires
            self.wf(),
        ensures
            self@.len() <= self.cap(),
    {
    }

    /// Creates a new empty ring buffer with the given capacity.
    pub fn new(capacity: usize) -> (r: Self)
        requires
            capacity > 0,
        ensures
            r.wf(),
            r@ == Seq::<T>::empty(),
            r.cap() == capacity,
    {
        let mut buffer: Vec<Option<T>> = Vec::new();
        let mut i: usize = 0;
        while i < capacity
            invariant
                i <= capacity,
                buffer@.len() == i,
            decreases capacity - i,
        {
            buffer.push(None);
            i = i + 1;
        }
        let r = RingBuffer { buffer, read: 0, write: 0, count: 0 };
        assert(r@ =~= Seq::<T>::empty());
        r
    }

    /// The maximum number of elements the buffer can hold.
    pub fn capacity(&self) -> (r: usize)
        ensures
            r == self.cap(),
    {
        self.buffer.len()
    }

    /// The number of elements currently in the buffer.
    pub fn len(&self) -> (r: usize)
        ensures
            r == self@.len(),
            self.wf() ==> r <= self.cap(),
    {
        self.count
    }

    pub fn is_empty(&self) -> (r: bool)
        ensures
            r == (self@.len() == 0),
    {
        self.count == 0
    }

    pub fn is_full(&self) -> (r: bool)
        ensures
            r == (self@.len() == self.cap()),
    {
        self.count == self.capacity()
    }

    /// Adds an element; when the buffer is full the oldest element is overwritten and
    /// returned.
    pub fn push_overwrite(&mut self, value: T) -> (r: Option<T>)
        requires
            old(self).wf(),
        ensures
            final(self).wf(),
            final(self).cap() == old(self).cap(),
            old(self)@.len() == old(self).cap() ==> r == Some(old(self)@[0])
                && final(self)@ == old(self)@.drop_first().push(value),
            old(self)@.len() < old(self).cap() ==> r is None && final(self)@ == old(self)@.push(value),
    {
        let cap = self.buffer.len();
        let full = self.count == cap;
        let overwritten = if full {
            self.buffer[self.read].take()
        } else {
            None
        };
        let ghost mid = self.buffer@;
        self.buffer.set(self.write, Some(value));
        proof {
            lemma_next_slot(self.write as int, cap as int);
            lemma_next_slot(self.read as int, cap as int);
        }
        self.write = (self.write + 1) % cap;
        if full {
            self.read = (self.read + 1) % cap;
            proof {
                assert(self@ =~= old(self)@.drop_first().push(value)) by {
                    assert forall|i: int| 0 <= i < self@.len() implies #[trigger] self@[i] == old(self)@.drop_first().push(value)[i] by {
                        if i + 1 < old(self).count {
                            assert(self.slot(i) == old(self).slot(i + 1));
                        }
                    }
                }
                assert forall|i: int| 0 <= i < self.count implies (#[trigger] self.buffer@[self.slot(i)]) is Some by {
                    if i + 1 < old(self).count {
                        assert(self.slot(i) == old(self).slot(i + 1));
                    }
                }
            }
        } else {
            self.count = self.count + 1;
            proof {
                assert(self@ =~= old(self)@.push(value)) by {
                    assert forall|i: int| 0 <= i < self@.len() implies #[trigger] self@[i] == old(self)@.push(value)[i] by {
                        if i < old(self).count {
                            assert(self.slot(i) == old(self).slot(i));
                            assert(self.slot(i) != old(self).write);
                        }
                    }
                }
                assert forall|i: int| 0 <= i < self.count implies (#[trigger] self.buffer@[self.slot(i)]) is Some by {
                    if i < old(self).count {
                        assert(self.slot(i) == old(self).slot(i));
                    }
                }
            }
        }
        overwritten
    }

    /// Adds an element only if the buffer is not full; gives it back otherwise.
    pub fn push(&mut self, value: T) -> (r: Result<(), T>)
        requires
            old(self).wf(),
        ensures
            final(self).wf(),
            final(self).cap() == old(self).cap(),
            old(self)@.len() == old(self).cap() ==> r == Err::<(), T>(value) && final(self)@ == old(self)@,
            old(self)@.len() < old(self).cap() ==> r is Ok && final(self)@ == old(self)@.push(value),
    {
        if self.is_full() {
            Err(value)
        } else {
            let r = self.push_overwrite(value);
            Ok(())
        }
    }

    /// Removes and returns the oldest element, or `None` if the buffer is empty.
    pub fn pop(&mut self) -> (r: Option<T>)
        requires
            old(self).wf(),
        ensures
            final(self).wf(),
            final(self).cap() == old(self).cap(),
            old(self)@.len() == 0 ==> r is None && final(self)@ == old(self)@,
            old(self)@.len() > 0 ==> r == Some(old(self)@[0]) && final(self)@ == old(self)@.drop_first(),
    {
        if self.count == 0 {
            return None;
        }
        let cap = self.buffer.len();
        assert(self.slot(0) == self.read as int);
        let value = self.buffer[self.read].take();
        proof {
            lemma_next_slot(self.read as int, cap as int);
        }
        self.read = (self.read + 1) % cap;
        self.count = self.count - 1;
        proof {
            assert(self@ =~= old(self)@.drop_first()) by {
                assert forall|i: int| 0 <= i < self@.len() implies #[trigger] self@[i] == old(self)@.drop_first()[i] by {
                    assert(self.slot(i) == old(self).slot(i + 1));
                }
            }
            assert forall|i: int| 0 <= i < self.count implies (#[trigger] self.buffer@[self.slot(i)]) is Some by {
                assert(self.slot(i) == old(self).slot(i + 1));
            }
        }
        value
    }

    /// The oldest element, without removing it.
    pub fn peek(&self) -> (r: Option<&T>)
        requires
            self.wf(),
        ensures
            self@.len() == 0 ==> r is None,
            self@.len() > 0 ==> r == Some(&self@[0]),
    {
        if self.count == 0 {
            None
        } else {
            assert(self.slot(0) == self.read as int);
            self.buffer[self.read].as_ref()
        }
    }

    /// Mutable access to the oldest element.
    pub fn peek_mut(&mut self) -> (r: Option<&mut T>)
        requires
            old(self).wf(),
        ensures
            old(self)@.len() == 0 ==> r is None && *final(self) == *old(self),
            old(self)@.len() > 0 ==> (r matches Some(x) && *x == old(self)@[0]
                && final(self).front_replaced(*old(self), *final(x))),
    {
        if self.count == 0 {
            None
        } else {
            assert(self.slot(0) == self.read as int);
            self.buffer[self.read].as_mut()
        }
    }

    /// `self` is `prev` with its oldest element replaced by `v`.
    pub closed spec fn front_replaced(&self, prev: RingBuffer<T>, v: T) -> bool {
        &&& self.read == prev.read
        &&& self.write == prev.write
        &&& self.count == prev.count
        &&& self.buffer@ == prev.buffer@.update(prev.read as int, Some(v))
    }

    /// Replacing the oldest element keeps the buffer well formed and changes only the
    /// first element of its contents.
    pub proof fn lemma_front_replaced(&self, prev: RingBuffer<T>, v: T)
        requires
            prev.wf(),
            prev@.len() > 0,
            self.front_replaced(prev, v),
        ensures
            self.wf(),
            self.cap() == prev.cap(),
            self@ == prev@.update(0, v),
    {
        assert(prev.slot(0) == prev.read as int);
        assert(self@ =~= prev@.update(0, v)) by {
            assert forall|i: int| 0 <= i < self@.len() implies #[trigger] self@[i] == prev@.update(0, v)[i] by {
                assert(self.slot(i) == prev.slot(i));
                if i > 0 {
                    assert(prev.slot(i) != prev.read);
                }
            }
        }
        assert forall|i: int| 0 <= i < self.count implies (#[trigger] self.buffer@[self.slot(i)]) is Some by {
            assert(self.slot(i) == prev.slot(i));
        }
    }

    /// Removes all elements.
    pub fn clear(&mut self)
        requires
            old(self).wf(),
        ensures
            final(self).wf(),
            final(self).cap() == old(self).cap(),
            final(self)@.len() == 0,
    {
        while self.pop().is_some()
            invariant
                self.wf(),
                self.cap() == old(self).cap(),
            decreases self@.len(),
        {
        }
    }

    /// Consumes the buffer, handing out its elements oldest first.
    pub fn into_iter(self) -> (r: Vec<T>)
        requires
            self.wf(),
        ensures
            r@ == self@,
    {
        let ghost all = self@;
        let mut this = self;
        let mut vec: Vec<T> = Vec::with_capacity(this.len());
        while this.len() > 0
            invariant
                this.wf(),
                vec@ + this@ == all,
            decreases this@.len(),
        {
            let ghost before = this@;
            let v = this.pop().unwrap();
            vec.push(v);
            assert(vec@ + this@ =~= all);
        }
        assert(vec@ =~= all);
        vec
    }
}

} // verus!
