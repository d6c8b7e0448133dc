//! A singly linked list of boxed nodes, with a separate tail chain for `push_back`.
use vstd::prelude::*;

verus! {

struct Node<T> {
    elem: T,
    next: Option<Box<Node<T>>>,
}

/// The elements reachable from `link`, first node first.
spec fn seq_of<T>(link: Option<Box<Node<T>>>) -> Seq<T>
    decreases link,
{
    match link {
        None => Seq::empty(),
        Some(node) => seq![node.elem] + seq_of(node.next),
    }
}

/// Appends a mutable reference to every element reachable from `link`, in order.
fn collect_mut<'a, T>(link: &'a mut Option<Box<Node<T>>>, out: &mut Vec<&'a mut T>)
    ensures
        final(out)@.len() == old(out)@.len() + seq_of(*old(link)).len(),
        forall|i: int| 0 <= i < old(out)@.len() ==> final(out)@[i] == old(out)@[i],
        forall|i: int|
            0 <= i < seq_of(*old(link)).len() ==> *final(out)@[old(out)@.len() + i] == seq_of(
                *old(link),
            )[i],
        seq_of(*final(link)) == Seq::new(
            seq_of(*old(link)).len(),
            |i: int| *final(final(out)@[old(out)@.len() + i]),
        ),
    decreases *old(link),
{
    match link {
        None => {},
        Some(node) => {
            out.push(&mut node.elem);
            collect_mut(&mut node.next, out);
        },
    }
}

/// A singly linked list. `push_front`, `pop_front` and `peek` act on the chain that
/// starts at `head`; `push_back` acts on a second chain that starts at `tail`: it
/// links the new node after the first node of that chain, in place of whatever
/// followed it. `size` is the number of pushes less the number of elements popped.
pub struct LinkedList<T> {
    head: Option<Box<Node<T>>>,
    tail: Option<Box<Node<T>>>,
    size: usize,
}

impl<T> LinkedList<T> {
    /// The elements, head first.
    pub closed spec fn view(&self) -> Seq<T> {
        seq_of(self.head)
    }

    /// The chain that starts at `tail`.
    pub closed spec fn back(&self) -> Seq<T> {
        seq_of(self.tail)
    }

    /// The value that `size` reports.
    pub closed spec fn count(&self) -> nat {
        self.size as nat
    }

    pub closed spec fn wf(&self) -> bool {
        self.size >= seq_of(self.head).len()
    }

    /// Creates an empty list.
    pub fn new() -> (r: Self)
        ensures
            r.wf(),
            r@ == Seq::<T>::empty(),
            r.back() == Seq::<T>::empty(),
            r.count() == 0,
    {
        LinkedList { head: None, tail: None, size: 0 }
    }

    /// Links a new node holding `elem` after the first node of the tail chain, or
    /// starts the tail chain with it when there is none.
    pub fn push_back(&mut self, elem: T)
        requires
            old(self).wf(),
            old(self).count() < usize::MAX,
        ensures
            final(self).wf(),
            final(self)@ == old(self)@,
            final(self).back() == if old(self).back().len() == 0 {
                seq![elem]
            } else {
                seq![old(self).back()[0], elem]
            },
            final(self).count() == old(self).count() + 1,
    {
        let new_node = Box::new(Node { elem, next: None });
        match &mut self.tail {
            Some(tail) => {
                tail.next = Some(new_node);
            },
            None => {
                self.tail = Some(new_node);
            },
        }
        self.size = self.size + 1;
        proof {
            reveal_with_fuel(seq_of, 3);
            assert(seq_of(self.tail) =~= if old(self).back().len() == 0 {
                seq![elem]
            } else {
                seq![old(self).back()[0], elem]
            });
        }
    }

    /// Puts `elem` in front of the list.
    pub fn push_front(&mut self, elem: T)
        requires
            old(self).wf(),
            old(self).count() < usize::MAX,
        ensures
            final(self).wf(),
            final(self)@ == seq![elem] + old(self)@,
            final(self).back() == old(self).back(),
            final(self).count() == old(self).count() + 1,
    {
        let next = self.head.take();
        self.head = Some(Box::new(Node { elem, next }));
        self.size = self.size + 1;
    }

    /// Removes and returns the front element, or `None` when the list is empty.
    pub fn pop_front(&mut self) -> (r: Option<T>)
        requires
            old(self).wf(),
        ensures
            final(self).wf(),
            final(self).back() == old(self).back(),
            old(self)@.len() == 0 ==> r is None && final(self)@ == old(self)@
                && final(self).count() == old(self).count(),
            old(self)@.len() > 0 ==> r == Some(old(self)@[0]) && final(self)@ == old(self)@.drop_first()
                && final(self).count() == old(self).count() - 1,
    {
        match self.head.take() {
            None => None,
            Some(node) => {
                let node = *node;
                self.head = node.next;
                self.size = self.size - 1;
                proof {
                    assert(seq_of(self.head) =~= old(self)@.drop_first());
                }
                Some(node.elem)
            },
        }
    }

    /// A reference to the front element, or `None` when the list is empty.
    pub fn peek(&self) -> (r: Option<&T>)
        requires
            self.wf(),
        ensures
            self@.len() == 0 ==> r is None,
            self@.len() > 0 ==> r == Some(&self@[0]),
    {
        match &self.head {
            None => None,
            Some(node) => Some(&node.elem),
        }
    }

    /// A mutable reference to the front element, or `None` when the list is empty.
    pub fn peek_mut(&mut self) -> (r: Option<&mut T>)
        requires
            old(self).wf(),
        ensures
            old(self)@.len() == 0 ==> r is None && final(self)@ == old(self)@,
            old(self)@.len() > 0 ==> r is Some && *r->Some_0 == old(self)@[0]
                && final(self)@ == old(self)@.update(0, *final(r->Some_0)),
            final(self).wf(),
            final(self).back() == old(self).back(),
            final(self).count() == old(self).count(),
    {
        match &mut self.head {
            None => None,
            Some(node) => Some(&mut node.elem),
        }
    }

    /// The number of pushes so far, less the elements popped.
    pub fn size(&self) -> (r: usize)
        ensures
            r == self.count(),
    {
        self.size
    }

    /// Shared references to the elements, head first.
    pub fn iter(&self) -> (r: Vec<&T>)
        requires
            self.wf(),
        ensures
            r@.len() == self@.len(),
            forall|i: int| 0 <= i < r@.len() ==> *r@[i] == self@[i],
    {
        let mut out: Vec<&T> = Vec::new();
        let mut cur = &self.head;
        loop
            invariant
                out@.len() + seq_of(*cur).len() == self@.len(),
                seq_of(*cur) == self@.skip(out@.len() as int),
                forall|i: int| 0 <= i < out@.len() ==> *out@[i] == self@[i],
            ensures
                out@.len() == self@.len(),
                forall|i: int| 0 <= i < out@.len() ==> *out@[i] == self@[i],
            decreases seq_of(*cur).len(),
        {
            let node = match cur {
                None => {
                    break;
                },
                Some(node) => node,
            };
            proof {
                assert(seq_of(*cur) == seq![node.elem] + seq_of(node.next));
                assert(self@[out@.len() as int] == seq_of(*cur)[0]);
            }
            let ghost before = seq_of(*cur);
            out.push(&node.elem);
            cur = &node.next;
            proof {
                assert(seq_of(*cur) =~= before.drop_first());
                assert(seq_of(*cur) =~= self@.skip(out@.len() as int));
            }
        }
        out
    }

    /// Consumes the list, handing out the elements of the head chain, head first.
    pub fn into_iter(self) -> (r: Vec<T>)
        requires
            self.wf(),
        ensures
            r@ == self@,
    {
        let ghost all = self@;
        let mut list = self;
        let mut out: Vec<T> = Vec::new();
        loop
            invariant
                list.wf(),
                out@ + list@ == all,
            ensures
                out@ == all,
            decreases list@.len(),
        {
            let x = match list.pop_front() {
                None => {
                    proof {
                        assert(out@ =~= all);
                    }
                    break;
                },
                Some(x) => x,
            };
            proof {
                assert(out@.push(x) + list@ =~= all);
            }
            out.push(x);
        }
        out
    }

    /// Mutable references to the elements, head first.
    pub fn iter_mut(&mut self) -> (r: Vec<&mut T>)
        requires
            old(self).wf(),
        ensures
            r@.len() == old(self)@.len(),
            forall|i: int| 0 <= i < r@.len() ==> *r@[i] == old(self)@[i],
            final(self)@ == Seq::new(r@.len(), |i: int| *final(r@[i])),
            final(self).wf(),
            final(self).back() == old(self).back(),
            final(self).count() == old(self).count(),
    {
        let mut out: Vec<&mut T> = Vec::new();
        collect_mut(&mut self.head, &mut out);
        out
    }
}

} // verus!
