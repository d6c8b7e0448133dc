//! A pool of pre-built objects that are lent out by slot and always come back.
use vstd::prelude::*;

verus! {

/// A pool of `capacity` objects, built up front. `acquire` takes the most recently freed
/// slot, moves its object out to a closure together with a [`PoolGuard`] for the slot and
/// the pool itself, and when the closure returns puts the object back and frees the slot.
/// While the closure runs the slot is held, so an `acquire` inside it takes another slot.
pub struct Pool<T> {
    storage: Vec<Option<T>>,
    free: Vec<usize>,
}

/// The handle of an acquired slot; it exists only while `acquire` lends the slot out.
pub struct PoolGuard<T> {
    index: usize,
    owner: core::marker::PhantomData<T>,
}

impl<T> PoolGuard<T> {
    /// The slot this guard holds.
    pub closed spec fn slot(&self) -> nat {
        self.index as nat
    }

    /// The slot this guard holds.
    pub fn index(&self) -> (r: usize)
        ensures
            r == self.slot(),
    {
        self.index
    }
}

impl<T> Pool<T> {
    /// The objects by slot; a slot whose object is lent out holds `None`.
    pub closed spec fn contents(&self) -> Seq<Option<T>> {
        self.storage@
    }

    /// The free slots; the last one is taken next.
    pub closed spec fn free_slots(&self) -> Seq<usize> {
        self.free@
    }

    /// No slot is free twice, and a free slot is a slot of the pool that holds its object.
    #[verifier::type_invariant]
    closed spec fn wf(&self) -> bool {
        &&& self.free@.no_duplicates()
        &&& forall|k: int|
            0 <= k < self.free@.len() ==> #[trigger] self.free@[k] < self.storage@.len()
                && self.storage@[self.free@[k] as int] is Some
    }

    /// Pre-builds `capacity` objects, each made by a call of `init`. All slots are free;
    /// slot 0 is taken first.
    pub fn new<F: Fn() -> T>(capacity: usize, init: F) -> (r: Self)
        requires
            init.requires(()),
        ensures
            r.contents().len() == capacity,
            forall|i: int| 0 <= i < capacity ==> (#[trigger] r.contents()[i]) is Some
                && init.ensures((), r.contents()[i]->Some_0),
            r.free_slots() == Seq::new(capacity as nat, |k: int| (capacity - 1 - k) as usize),
    {
        let mut storage: Vec<Option<T>> = Vec::new();
        while storage.len() < capacity
            invariant
                storage@.len() <= capacity,
                init.requires(()),
                forall|i: int| 0 <= i < storage@.len() ==> (#[trigger] storage@[i]) is Some
                    && init.ensures((), storage@[i]->Some_0),
            decreases capacity - storage@.len(),
        {
            let item = init();
            storage.push(Some(item));
        }
        let mut free: Vec<usize> = Vec::new();
        let mut k: usize = capacity;
        while k > 0
            invariant
                k <= capacity,
                free@ == Seq::new((capacity - k) as nat, |j: int| (capacity - 1 - j) as usize),
            decreases k,
        {
            k = k - 1;
            free.push(k);
            proof {
                assert(free@ =~= Seq::new((capacity - k) as nat, |j: int| (capacity - 1 - j) as usize));
            }
        }
        Pool { storage, free }
    }

    /// Takes the most recently freed slot and hands its guard, its object and the pool to
    /// `f`; when `f` returns, puts the object back into the slot and frees the slot again,
    /// on top. Returns what `f` returned, or `None`, without calling `f`, when every slot
    /// is held.
    pub fn acquire<R, F: FnOnce(&PoolGuard<T>, &mut T, &mut Pool<T>) -> R>(&mut self, f: F) -> (r: Option<R>)
        requires
            old(self).free_slots().len() > 0 ==> forall|g: &PoolGuard<T>, x: &mut T, p: &mut Pool<T>|
                {
                    &&& g.slot() == old(self).free_slots().last()
                    &&& old(self).contents()[g.slot() as int] == Some(*x)
                    &&& p.free_slots() == old(self).free_slots().drop_last()
                    &&& p.contents() == old(self).contents().update(g.slot() as int, None)
                } ==> #[trigger] f.requires((g, x, p)),
        ensures
            old(self).free_slots().len() == 0 ==> {
                &&& r is None
                &&& final(self).contents() == old(self).contents()
                &&& final(self).free_slots() == old(self).free_slots()
            },
            old(self).free_slots().len() > 0 ==> exists|g: PoolGuard<T>, x: &mut T, p: &mut Pool<T>, out: R|
                {
                    &&& g.slot() == old(self).free_slots().last()
                    &&& old(self).contents()[g.slot() as int] == Some(*x)
                    &&& p.free_slots() == old(self).free_slots().drop_last()
                    &&& p.contents() == old(self).contents().update(g.slot() as int, None)
                    &&& call_ensures(f, (&g, x, p), out)
                    &&& r == Some(out)
                    &&& if g.slot() < final(p).contents().len() && final(p).contents()[g.slot() as int] is None {
                        &&& final(self).contents() == final(p).contents().update(g.slot() as int, Some(*final(x)))
                        &&& final(self).free_slots() == final(p).free_slots().push(g.slot() as usize)
                    } else {
                        &&& final(self).contents() == final(p).contents()
                        &&& final(self).free_slots() == final(p).free_slots()
                    }
                },
    {
        proof {
            use_type_invariant(&*self);
        }
        let mut free: Vec<usize> = Vec::new();
        std::mem::swap(&mut free, &mut self.free);
        let slot = match free.pop() {
            None => {
                self.free = free;
                return None;
            },
            Some(s) => s,
        };
        proof {
            assert(old(self).free@.last() == slot);
            assert(!free@.contains(slot)) by {
                if free@.contains(slot) {
                    let k = choose|k: int| 0 <= k < free@.len() && free@[k] == slot;
                    assert(old(self).free@[k] == slot);
                }
            }
            assert forall|k: int| 0 <= k < free@.len() implies old(self).free@[k] == #[trigger] free@[k] by {}
        }
        let mut storage: Vec<Option<T>> = Vec::new();
        std::mem::swap(&mut storage, &mut self.storage);
        let mut cell: Option<T> = None;
        std::mem::swap(&mut cell, &mut storage[slot]);
        let mut obj = cell.unwrap();
        self.storage = storage;
        self.free = free;
        let guard = PoolGuard { index: slot, owner: core::marker::PhantomData };
        let out = f(&guard, &mut obj, self);
        proof {
            use_type_invariant(&*self);
        }
        if slot < self.storage.len() && self.storage[slot].is_none() {
            let mut free: Vec<usize> = Vec::new();
            std::mem::swap(&mut free, &mut self.free);
            let mut storage: Vec<Option<T>> = Vec::new();
            std::mem::swap(&mut storage, &mut self.storage);
            storage.set(slot, Some(obj));
            self.storage = storage;
            proof {
                assert(!free@.contains(slot)) by {
                    if free@.contains(slot) {
                        let k = choose|k: int| 0 <= k < free@.len() && free@[k] == slot;
                    }
                }
            }
            free.push(slot);
            self.free = free;
        }
        Some(out)
    }

    /// The number of slots.
    pub fn capacity(&self) -> (r: usize)
        ensures
            r == self.contents().len(),
    {
        self.storage.len()
    }

    /// The number of free slots; never more than the number of slots.
    pub fn available(&self) -> (r: usize)
        ensures
            r == self.free_slots().len(),
            r <= self.contents().len(),
    {
        proof {
            use_type_invariant(self);
            crate::data_structures::graph_search::lemma_distinct_below(self.free@, self.storage@.len());
        }
        self.free.len()
    }

    /// The number of slots held.
    pub fn in_use(&self) -> (r: usize)
        ensures
            r == self.contents().len() - self.free_slots().len(),
    {
        let free = self.available();
        self.capacity() - free
    }
}

} // verus!
