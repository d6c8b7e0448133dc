//! A doubly linked list whose nodes live in an arena and link to each other by index.
use vstd::prelude::*;

verus! {

struct Slot<T> {
    elem: Option<T>,
    prev: Option<usize>,
    next: Option<usize>,
}

/// A doubly linked list. Nodes are kept in `slots` and refer to their neighbours by
/// slot index; slots freed by a pop are reused by later pushes.
pub struct LinkedList<T> {
    slots: Vec<Slot<T>>,
    free: Vec<usize>,
    head: Option<usize>,
    tail: Option<usize>,
    len: usize,
    /// The slots of the nodes, front to back.
    order: Ghost<Seq<usize>>,
}

impl<T> LinkedList<T> {
    /// The elements, front to back.
    pub closed spec fn view(&self) -> Seq<T> {
        Seq::new(self.len as nat, |i: int| self.slots@[self.order@[i] as int].elem->Some_0)
    }

    spec fn end_of(&self) -> Option<usize> {
        if self.len == 0 {
            None
        } else {
            Some(self.order@[self.len - 1])
        }
    }

    spec fn start_of(&self) -> Option<usize> {
        if self.len == 0 {
            None
        } else {
            Some(self.order@[0])
        }
    }

    pub closed spec fn wf(&self) -> bool {
        &&& self.order@.len() == self.len
        &&& self.order@.no_duplicates()
        &&& self.free@.no_duplicates()
        &&& self.head == self.start_of()
        &&& self.tail == self.end_of()
        &&& forall|i: int| 0 <= i < self.len ==> (#[trigger] self.order@[i]) < self.slots@.len()
        &&& forall|i: int|
            0 <= i < self.len ==> (#[trigger] self.slots@[self.order@[i] as int]).elem is Some
        &&& forall|i: int|
            0 <= i < self.len ==> (#[trigger] self.slots@[self.order@[i] as int]).prev == if i == 0 {
                None
            } else {
                Some(self.order@[i - 1])
            }
        &&& forall|i: int|
            0 <= i < self.len ==> (#[trigger] self.slots@[self.order@[i] as int]).next == if i + 1
                == self.len {
                None
            } else {
                Some(self.order@[i + 1])
            }
        &&& forall|j: int|
            0 <= j < self.free@.len() ==> (#[trigger] self.free@[j]) < self.slots@.len()
                && !self.order@.contains(self.free@[j])
    }

    /// Creates an empty list.
    pub fn new() -> (r: Self)
        ensures
            r.wf(),
            r@ == Seq::<T>::empty(),
    {
        LinkedList {
            slots: Vec::new(),
            free: Vec::new(),
            head: None,
            tail: None,
            len: 0,
            order: Ghost(Seq::empty()),
        }
    }

    /// Appends `elem` at the back.
    pub fn push_back(&mut self, elem: T)
        requires
            old(self).wf(),
            old(self)@.len() < usize::MAX,
        ensures
            final(self).wf(),
            final(self)@ == old(self)@.push(elem),
    {
        let idx = self.claim_slot(elem);
        let ghost mid = *self;
        self.slots[idx].prev = self.tail;
        match self.tail {
            Some(t) => {
                self.slots[t].next = Some(idx);
            },
            None => {
                self.head = Some(idx);
            },
        }
        self.tail = Some(idx);
        self.len = self.len + 1;
        self.order = Ghost(self.order@.push(idx));
        proof {
            let n = mid.len as int;
            assert forall|i: int| 0 <= i < n implies self.slots@[self.order@[i] as int].elem
                == mid.slots@[mid.order@[i] as int].elem by {
                assert(self.order@[i] == mid.order@[i]);
            }
            assert forall|i: int| 0 <= i < self.len implies
                (#[trigger] self.slots@[self.order@[i] as int]).prev == if i == 0 {
                    None
                } else {
                    Some(self.order@[i - 1])
                } by {
                if i < n {
                    assert(self.order@[i] != idx);
                    assert(self.order@[i] == mid.order@[i]);
                    assert(mid.slots@[mid.order@[i] as int].prev == if i == 0 {
                        None
                    } else {
                        Some(mid.order@[i - 1])
                    });
                }
            }
            assert forall|i: int| 0 <= i < self.len implies
                (#[trigger] self.slots@[self.order@[i] as int]).next == if i + 1 == self.len {
                    None
                } else {
                    Some(self.order@[i + 1])
                } by {
                if i < n {
                    assert(self.order@[i] != idx);
                    assert(self.order@[i] == mid.order@[i]);
                    if i + 1 < n {
                        assert(mid.order@[i] != mid.order@[n - 1]);
                    }
                    assert(mid.slots@[mid.order@[i] as int].next == if i + 1 == n {
                        None
                    } else {
                        Some(mid.order@[i + 1])
                    });
                }
            }
            assert forall|j: int| 0 <= j < self.free@.len() implies (#[trigger] self.free@[j])
                < self.slots@.len() && !self.order@.contains(self.free@[j]) by {
                assert(mid.free@[j] != idx);
                if self.order@.contains(self.free@[j]) {
                    let k = choose|k: int| 0 <= k < self.order@.len() && self.order@[k] == self.free@[j];
                    if k < n {
                        assert(mid.order@.contains(mid.free@[j]));
                    }
                }
            }
            assert(self@ =~= old(self)@.push(elem));
        }
    }

    /// Puts `elem` at the front.
    pub fn push_front(&mut self, elem: T)
        requires
            old(self).wf(),
            old(self)@.len() < usize::MAX,
        ensures
            final(self).wf(),
            final(self)@ == seq![elem] + old(self)@,
    {
        let idx = self.claim_slot(elem);
        let ghost mid = *self;
        self.slots[idx].next = self.head;
        match self.head {
            Some(h) => {
                self.slots[h].prev = Some(idx);
            },
            None => {
                self.tail = Some(idx);
            },
        }
        self.head = Some(idx);
        self.len = self.len + 1;
        self.order = Ghost(seq![idx] + self.order@);
        proof {
            let n = mid.len as int;
            assert forall|i: int| 0 < i < self.len implies self.order@[i] == mid.order@[i - 1]
                && self.order@[i] != idx by {}
            assert forall|i: int| 0 < i < self.len implies self.slots@[self.order@[i] as int].elem
                == mid.slots@[mid.order@[i - 1] as int].elem by {}
            assert forall|i: int| 0 <= i < self.len implies
                (#[trigger] self.slots@[self.order@[i] as int]).prev == if i == 0 {
                    None
                } else {
                    Some(self.order@[i - 1])
                } by {
                if i > 0 {
                    if i > 1 {
                        assert(mid.order@[i - 1] != mid.order@[0]);
                    }
                    assert(mid.slots@[mid.order@[i - 1] as int].prev == if i - 1 == 0 {
                        None
                    } else {
                        Some(mid.order@[i - 2])
                    });
                }
            }
            assert forall|i: int| 0 <= i < self.len implies
                (#[trigger] self.slots@[self.order@[i] as int]).next == if i + 1 == self.len {
                    None
                } else {
                    Some(self.order@[i + 1])
                } by {
                if i > 0 {
                    assert(mid.slots@[mid.order@[i - 1] as int].next == if i == n {
                        None
                    } else {
                        Some(mid.order@[i])
                    });
                }
            }
            assert forall|j: int| 0 <= j < self.free@.len() implies (#[trigger] self.free@[j])
                < self.slots@.len() && !self.order@.contains(self.free@[j]) by {
                assert(mid.free@[j] != idx);
                if self.order@.contains(self.free@[j]) {
                    let k = choose|k: int| 0 <= k < self.order@.len() && self.order@[k] == self.free@[j];
                    if k > 0 {
                        assert(mid.order@[k - 1] == mid.free@[j]);
                        assert(mid.order@.contains(mid.free@[j]));
                    }
                }
            }
            assert(self@ =~= seq![elem] + old(self)@);
        }
    }

    /// Removes and returns the front element, or `None` when the list is empty.
    pub fn pop_front(&mut self) -> (r: Option<T>)
        requires
            old(self).wf(),
        ensures
            final(self).wf(),
            old(self)@.len() == 0 ==> r is None && final(self)@ == old(self)@,
            old(self)@.len() > 0 ==> r == Some(old(self)@[0]) && final(self)@
                == old(self)@.drop_first(),
    {
        match self.head {
            None => None,
            Some(h) => {
                let ghost mid = *self;
                let next = self.slots[h].next;
                let e = self.slots[h].elem.take();
                match next {
                    Some(n) => {
                        self.slots[n].prev = None;
                        self.head = Some(n);
                    },
                    None => {
                        self.head = None;
                        self.tail = None;
                    },
                }
                self.len = self.len - 1;
                self.order = Ghost(self.order@.drop_first());
                self.free.push(h);
                proof {
                    let n = mid.len as int;
                    assert(mid.slots@[mid.order@[0] as int].elem is Some);
                    assert forall|i: int| 0 <= i < self.len implies self.order@[i] == mid.order@[i + 1]
                        && self.order@[i] != h by {}
                    assert forall|i: int| 0 <= i < self.len implies
                        (#[trigger] self.slots@[self.order@[i] as int]).prev == if i == 0 {
                            None
                        } else {
                            Some(self.order@[i - 1])
                        } by {
                        if i > 0 {
                            assert(mid.order@[i + 1] != mid.order@[1]);
                            assert(mid.slots@[mid.order@[i + 1] as int].prev == Some(mid.order@[i]));
                        }
                    }
                    assert forall|i: int| 0 <= i < self.len implies
                        (#[trigger] self.slots@[self.order@[i] as int]).next == if i + 1 == self.len {
                            None
                        } else {
                            Some(self.order@[i + 1])
                        } by {
                        assert(mid.slots@[mid.order@[i + 1] as int].next == if i + 2 == n {
                            None
                        } else {
                            Some(mid.order@[i + 2])
                        });
                    }
                    assert forall|i: int| 0 <= i < self.len implies
                        (#[trigger] self.slots@[self.order@[i] as int]).elem is Some by {
                        assert(mid.slots@[mid.order@[i + 1] as int].elem is Some);
                    }
                    assert forall|j: int| 0 <= j < self.free@.len() implies (#[trigger] self.free@[j])
                        < self.slots@.len() && !self.order@.contains(self.free@[j]) by {
                        if j < mid.free@.len() {
                            assert(self.free@[j] == mid.free@[j]);
                            if self.order@.contains(self.free@[j]) {
                                let k = choose|k: int|
                                    0 <= k < self.order@.len() && self.order@[k] == self.free@[j];
                                assert(mid.order@[k + 1] == mid.free@[j]);
                                assert(mid.order@.contains(mid.free@[j]));
                            }
                        }
                    }
                    assert forall|a: int, b: int|
                        0 <= a < b < self.free@.len() implies self.free@[a] != self.free@[b] by {
                        if b == mid.free@.len() {
                            assert(mid.order@.contains(h));
                        }
                    }
                    assert(self@ =~= old(self)@.drop_first());
                }
                e
            },
        }
    }

    /// Removes and returns the back element, or `None` when the list is empty.
    pub fn pop_back(&mut self) -> (r: Option<T>)
        requires
            old(self).wf(),
        ensures
            final(self).wf(),
            old(self)@.len() == 0 ==> r is None && final(self)@ == old(self)@,
            old(self)@.len() > 0 ==> r == Some(old(self)@.last()) && final(self)@
                == old(self)@.drop_last(),
    {
        match self.tail {
            None => None,
            Some(t) => {
                let ghost mid = *self;
                let prev = self.slots[t].prev;
                let e = self.slots[t].elem.take();
                match prev {
                    Some(p) => {
                        self.slots[p].next = None;
                        self.tail = Some(p);
                    },
                    None => {
                        self.head = None;
                        self.tail = None;
                    },
                }
                self.len = self.len - 1;
                self.order = Ghost(self.order@.drop_last());
                self.free.push(t);
                proof {
                    let n = mid.len as int;
                    assert(mid.slots@[mid.order@[n - 1] as int].elem is Some);
                    assert forall|i: int| 0 <= i < self.len implies self.order@[i] == mid.order@[i]
                        && self.order@[i] != t by {}
                    assert forall|i: int| 0 <= i < self.len implies
                        (#[trigger] self.slots@[self.order@[i] as int]).prev == if i == 0 {
                            None
                        } else {
                            Some(self.order@[i - 1])
                        } by {
                        assert(mid.slots@[mid.order@[i] as int].prev == if i == 0 {
                            None
                        } else {
                            Some(mid.order@[i - 1])
                        });
                    }
                    assert forall|i: int| 0 <= i < self.len implies
                        (#[trigger] self.slots@[self.order@[i] as int]).next == if i + 1 == self.len {
                            None
                        } else {
                            Some(self.order@[i + 1])
                        } by {
                        if i + 1 < self.len {
                            assert(mid.order@[i] != mid.order@[n - 2]);
                            assert(mid.slots@[mid.order@[i] as int].next == Some(mid.order@[i + 1]));
                        }
                    }
                    assert forall|i: int| 0 <= i < self.len implies
                        (#[trigger] self.slots@[self.order@[i] as int]).elem is Some by {
                        assert(mid.slots@[mid.order@[i] as int].elem is Some);
                    }
                    assert forall|j: int| 0 <= j < self.free@.len() implies (#[trigger] self.free@[j])
                        < self.slots@.len() && !self.order@.contains(self.free@[j]) by {
                        if j < mid.free@.len() {
                            assert(self.free@[j] == mid.free@[j]);
                            if self.order@.contains(self.free@[j]) {
                                let k = choose|k: int|
                                    0 <= k < self.order@.len() && self.order@[k] == self.free@[j];
                                assert(mid.order@[k] == mid.free@[j]);
                                assert(mid.order@.contains(mid.free@[j]));
                            }
                        }
                    }
                    assert forall|a: int, b: int|
                        0 <= a < b < self.free@.len() implies self.free@[a] != self.free@[b] by {
                        if b == mid.free@.len() {
                            assert(mid.order@.contains(t));
                        }
                    }
                    assert(self@ =~= old(self)@.drop_last());
                }
                e
            },
        }
    }

    /// A reference to the front element, or `None` when the list is empty.
    pub fn peek_front(&self) -> (r: Option<&T>)
        requires
            self.wf(),
        ensures
            self@.len() == 0 ==> r is None,
            self@.len() > 0 ==> r == Some(&self@[0]),
    {
        match self.head {
            None => None,
            Some(h) => self.slots[h].elem.as_ref(),
        }
    }

    /// A reference to the back element, or `None` when the list is empty.
    pub fn peek_back(&self) -> (r: Option<&T>)
        requires
            self.wf(),
        ensures
            self@.len() == 0 ==> r is None,
            self@.len() > 0 ==> r == Some(&self@.last()),
    {
        match self.tail {
            None => None,
            Some(t) => self.slots[t].elem.as_ref(),
        }
    }

    /// A mutable reference to the front element, or `None` when the list is empty.
    pub fn peek_front_mut(&mut self) -> (r: Option<&mut T>)
        requires
            old(self).wf(),
        ensures
            final(self).wf(),
            old(self)@.len() == 0 ==> r is None && final(self)@ == old(self)@,
            old(self)@.len() > 0 ==> r is Some && *r->Some_0 == old(self)@[0] && final(self)@
                == old(self)@.update(0, *final(r->Some_0)),
    {
        match self.head {
            None => None,
            Some(h) => self.slots[h].elem.as_mut(),
        }
    }

    /// A mutable reference to the back element, or `None` when the list is empty.
    pub fn peek_back_mut(&mut self) -> (r: Option<&mut T>)
        requires
            old(self).wf(),
        ensures
            final(self).wf(),
            old(self)@.len() == 0 ==> r is None && final(self)@ == old(self)@,
            old(self)@.len() > 0 ==> r is Some && *r->Some_0 == old(self)@.last() && final(self)@
                == old(self)@.update(old(self)@.len() - 1, *final(r->Some_0)),
    {
        match self.tail {
            None => None,
            Some(t) => self.slots[t].elem.as_mut(),
        }
    }

    /// An iterator over shared references to the elements, front to back.
    pub fn iter(&self) -> (r: Iter<'_, T>)
        requires
            self.wf(),
        ensures
            r.wf(),
            r@ == self@,
    {
        proof {
            assert(self@.subrange(0, self.len as int) =~= self@);
        }
        Iter { list: self, front: self.head, back: self.tail, remaining: self.len, pos: Ghost(0) }
    }

    /// An iterator that hands out mutable references to the elements, front to back.
    pub fn iter_mut(&mut self) -> (r: IterMut<'_, T>)
        requires
            old(self).wf(),
        ensures
            r.wf(),
            r.items() == old(self)@,
            r.position() == 0,
            *final(self) == *final(r.target()),
    {
        let front = self.head;
        IterMut { list: self, cur: front, pos: Ghost(0) }
    }

    /// Consumes the list into an iterator that hands out its elements.
    pub fn into_iter(self) -> (r: IntoIter<T>)
        requires
            self.wf(),
        ensures
            r.wf(),
            r@ == self@,
    {
        IntoIter(self)
    }

    /// The number of elements.
    pub fn len(&self) -> (r: usize)
        requires
            self.wf(),
        ensures
            r == self@.len(),
    {
        self.len
    }

    /// Whether the list holds no element.
    pub fn is_empty(&self) -> (r: bool)
        requires
            self.wf(),
        ensures
            r == (self@.len() == 0),
    {
        self.len == 0
    }

    /// Stores `elem` in a slot that holds no node of the list, and returns its index.
    fn claim_slot(&mut self, elem: T) -> (idx: usize)
        requires
            old(self).wf(),
        ensures
            final(self).wf(),
            final(self).order@ == old(self).order@,
            final(self).len == old(self).len,
            final(self).head == old(self).head,
            final(self).tail == old(self).tail,
            idx < final(self).slots@.len(),
            !final(self).order@.contains(idx),
            forall|j: int| 0 <= j < final(self).free@.len() ==> final(self).free@[j] != idx,
            final(self).slots@[idx as int].elem == Some(elem),
            final(self).slots@[idx as int].next is None,
            final(self).slots@[idx as int].prev is None,
            final(self).slots@.len() >= old(self).slots@.len(),
            forall|i: int|
                0 <= i < old(self).slots@.len() && i != idx ==> final(self).slots@[i]
                    == old(self).slots@[i],
            final(self)@ == old(self)@,
    {
        let slot = Slot { elem: Some(elem), prev: None, next: None };
        match self.free.pop() {
            Some(idx) => {
                proof {
                    assert(old(self).free@[old(self).free@.len() - 1] == idx);
                    assert forall|j: int| 0 <= j < self.free@.len() implies self.free@[j] != idx by {
                        assert(old(self).free@[j] == self.free@[j]);
                    }
                }
                self.slots.set(idx, slot);
                proof {
                    assert forall|j: int| 0 <= j < self.free@.len() implies
                        (#[trigger] self.free@[j]) < self.slots@.len()
                        && !self.order@.contains(self.free@[j]) by {
                        assert(self.free@[j] == old(self).free@[j]);
                    }
                    assert(self@ =~= old(self)@);
                }
                idx
            },
            None => {
                let idx = self.slots.len();
                self.slots.push(slot);
                proof {
                    assert forall|i: int| 0 <= i < self.len implies (#[trigger] self.order@[i])
                        != idx by {
                        assert(self.order@[i] < old(self).slots@.len());
                    }
                    assert(self@ =~= old(self)@);
                }
                idx
            },
        }
    }
}

/// Shared references to the elements of a [`LinkedList`], from either end.
pub struct Iter<'a, T> {
    list: &'a LinkedList<T>,
    front: Option<usize>,
    back: Option<usize>,
    remaining: usize,
    pos: Ghost<int>,
}

impl<'a, T> Iter<'a, T> {
    /// The elements not yet handed out, front to back.
    pub closed spec fn view(&self) -> Seq<T> {
        self.list@.subrange(self.pos@, self.pos@ + self.remaining)
    }

    pub closed spec fn wf(&self) -> bool {
        &&& self.list.wf()
        &&& 0 <= self.pos@
        &&& self.pos@ + self.remaining <= self.list.len
        &&& self.remaining > 0 ==> self.front == Some(self.list.order@[self.pos@])
            && self.back == Some(self.list.order@[self.pos@ + self.remaining - 1])
    }

    /// The next element from the front, or `None` when all have been handed out.
    pub fn next(&mut self) -> (r: Option<&'a T>)
        requires
            old(self).wf(),
        ensures
            final(self).wf(),
            old(self)@.len() == 0 ==> r is None && final(self)@ == old(self)@,
            old(self)@.len() > 0 ==> r == Some(&old(self)@[0]) && final(self)@
                == old(self)@.drop_first(),
    {
        if self.remaining == 0 {
            return None;
        }
        let f = match self.front {
            Some(f) => f,
            None => {
                return None;
            },
        };
        let list: &'a LinkedList<T> = self.list;
        proof {
            assert(list.slots@[list.order@[self.pos@] as int].elem is Some);
        }
        self.front = list.slots[f].next;
        self.remaining = self.remaining - 1;
        self.pos = Ghost(self.pos@ + 1);
        proof {
            assert(self@ =~= old(self)@.drop_first());
        }
        list.slots[f].elem.as_ref()
    }

    /// The next element from the back, or `None` when all have been handed out.
    pub fn next_back(&mut self) -> (r: Option<&'a T>)
        requires
            old(self).wf(),
        ensures
            final(self).wf(),
            old(self)@.len() == 0 ==> r is None && final(self)@ == old(self)@,
            old(self)@.len() > 0 ==> r == Some(&old(self)@.last()) && final(self)@
                == old(self)@.drop_last(),
    {
        if self.remaining == 0 {
            return None;
        }
        let b = match self.back {
            Some(b) => b,
            None => {
                return None;
            },
        };
        let list: &'a LinkedList<T> = self.list;
        proof {
            assert(list.slots@[list.order@[self.pos@ + self.remaining - 1] as int].elem is Some);
        }
        self.back = list.slots[b].prev;
        self.remaining = self.remaining - 1;
        proof {
            assert(self@ =~= old(self)@.drop_last());
        }
        list.slots[b].elem.as_ref()
    }

    /// The number of elements not yet handed out.
    pub fn len(&self) -> (r: usize)
        requires
            self.wf(),
        ensures
            r == self@.len(),
    {
        self.remaining
    }
}

/// Mutable access to the elements of a [`LinkedList`], one at a time, front to back.
pub struct IterMut<'a, T> {
    list: &'a mut LinkedList<T>,
    cur: Option<usize>,
    pos: Ghost<int>,
}

impl<'a, T> IterMut<'a, T> {
    /// The borrow of the list that this iterator holds.
    pub closed spec fn target(&self) -> &'a mut LinkedList<T> {
        self.list
    }

    /// The elements of the list, as they stand now.
    pub closed spec fn items(&self) -> Seq<T> {
        (*self.list)@
    }

    /// How many elements have been handed out.
    pub closed spec fn position(&self) -> int {
        self.pos@
    }

    pub closed spec fn wf(&self) -> bool {
        &&& (*self.list).wf()
        &&& 0 <= self.pos@ <= self.list.len
        &&& self.cur == if self.pos@ < self.list.len {
            Some(self.list.order@[self.pos@])
        } else {
            None
        }
    }

    /// A mutable reference to the next element, or `None` when all have been handed out.
    pub fn next(&mut self) -> (r: Option<&mut T>)
        requires
            old(self).wf(),
        ensures
            final(self).wf(),
            old(self).position() == old(self).items().len() ==> r is None && final(self).items()
                == old(self).items() && final(self).position() == old(self).position(),
            old(self).position() < old(self).items().len() ==> r is Some && *r->Some_0
                == old(self).items()[old(self).position()] && final(self).items()
                == old(self).items().update(old(self).position(), *final(r->Some_0))
                && final(self).position() == old(self).position() + 1,
            *final(final(self).target()) == *final(old(self).target()),
    {
        match self.cur {
            None => None,
            Some(c) => {
                self.cur = self.list.slots[c].next;
                self.pos = Ghost(self.pos@ + 1);
                self.list.slots[c].elem.as_mut()
            },
        }
    }
}

/// The elements of a [`LinkedList`], handed out by value from either end.
pub struct IntoIter<T>(LinkedList<T>);

impl<T> IntoIter<T> {
    /// The elements not yet handed out, front to back.
    pub closed spec fn view(&self) -> Seq<T> {
        self.0@
    }

    pub closed spec fn wf(&self) -> bool {
        self.0.wf()
    }

    /// The next element from the front, or `None` when all have been handed out.
    pub fn next(&mut self) -> (r: Option<T>)
        requires
            old(self).wf(),
        ensures
            final(self).wf(),
            old(self)@.len() == 0 ==> r is None && final(self)@ == old(self)@,
            old(self)@.len() > 0 ==> r == Some(old(self)@[0]) && final(self)@
                == old(self)@.drop_first(),
    {
        self.0.pop_front()
    }

    /// The next element from the back, or `None` when all have been handed out.
    pub fn next_back(&mut self) -> (r: Option<T>)
        requires
            old(self).wf(),
        ensures
            final(self).wf(),
            old(self)@.len() == 0 ==> r is None && final(self)@ == old(self)@,
            old(self)@.len() > 0 ==> r == Some(old(self)@.last()) && final(self)@
                == old(self)@.drop_last(),
    {
        self.0.pop_back()
    }

    /// The number of elements not yet handed out.
    pub fn len(&self) -> (r: usize)
        requires
            self.wf(),
        ensures
            r == self@.len(),
    {
        self.0.len()
    }
}

} // verus!
