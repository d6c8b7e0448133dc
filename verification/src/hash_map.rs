//! A hash map with separate chaining in a vector of buckets.
//!
//! `insert` starts by calling `resize`, and `resize` replaces the buckets with a vector
//! that it reserves room in but never fills. The bucket index that `insert` computes next
//! divides by the number of buckets, zero, so no entry is ever stored; `insert` carries
//! that as its precondition, and every other operation sees an empty map.
use vstd::prelude::*;
use std::collections::hash_map::DefaultHasher;
use std::fmt::Debug;
use std::hash::{Hash, Hasher};

verus! {

/// Feeds `key` to `state` through `Hash::hash`.
#[verifier::external_body]
fn feed_key<K: Hash>(key: &K, state: &mut DefaultHasher) {
    key.hash(state);
}

/// The number of buckets of a new map.
pub const DEFAULT_CAPACITY: usize = 31;

/// A hash map from `K` to `V`.
pub struct HashMap<K, V> {
    size: usize,
    buckets: Vec<Vec<(K, V)>>,
}

impl<K: Eq + Hash + Debug, V> HashMap<K, V> {
    /// The number of buckets.
    pub closed spec fn bucket_count(&self) -> nat {
        self.buckets@.len()
    }

    /// Every bucket is empty and no entry is counted.
    pub closed spec fn wf(&self) -> bool {
        &&& self.size == 0
        &&& forall|b: int| 0 <= b < self.buckets@.len() ==> (#[trigger] self.buckets@[b])@.len() == 0
    }

    /// The number of buckets `resize` leaves: it reserves room for more but adds none.
    pub open spec fn bucket_count_after_resize(&self) -> nat {
        0
    }

    /// A map with `DEFAULT_CAPACITY + 1` empty buckets.
    pub fn new() -> (r: Self)
        ensures
            r.wf(),
            r.bucket_count() == DEFAULT_CAPACITY + 1,
    {
        Self::with_capacity(DEFAULT_CAPACITY)
    }

    /// A map with `capacity + 1` empty buckets.
    pub fn with_capacity(capacity: usize) -> (r: Self)
        requires
            capacity < usize::MAX,
        ensures
            r.wf(),
            r.bucket_count() == capacity + 1,
    {
        let mut buckets: Vec<Vec<(K, V)>> = Vec::with_capacity(capacity);
        let mut i: usize = 0;
        while i <= capacity
            invariant
                i <= capacity + 1,
                capacity < usize::MAX,
                buckets@.len() == i,
                forall|b: int| 0 <= b < buckets@.len() ==> (#[trigger] buckets@[b])@.len() == 0,
            decreases capacity + 1 - i,
        {
            buckets.push(Vec::new());
            i = i + 1;
        }
        HashMap { size: 0, buckets }
    }

    /// Moves every entry into a fresh vector reserved for `2 * bucket_count() + 1`
    /// buckets. That vector gets no bucket, so the map is left with none.
    pub fn resize(&mut self)
        requires
            old(self).wf(),
            2 * old(self).bucket_count() + 1 <= usize::MAX,
        ensures
            final(self).wf(),
            final(self).bucket_count() == old(self).bucket_count_after_resize(),
    {
        let new_size = self.buckets.len() * 2 + 1;
        let mut new_buckets: Vec<Vec<(K, V)>> = Vec::with_capacity(new_size);
        while self.buckets.len() > 0
            invariant
                self.size == 0,
                new_buckets@.len() == 0,
                forall|b: int| 0 <= b < self.buckets@.len() ==> (#[trigger] self.buckets@[b])@.len() == 0,
            decreases self.buckets@.len(),
        {
            let ghost last = self.buckets@.len() - 1;
            proof {
                assert(self.buckets@[last]@.len() == 0);
            }
            let mut entries = self.buckets.pop().unwrap();
            while entries.len() > 0
                invariant
                    new_buckets@.len() == 0,
                    entries@.len() == 0,
                decreases entries@.len(),
            {
                let (k, v) = entries.pop().unwrap();
                let slot = Self::slot_of(&k, new_size);
                new_buckets[slot].push((k, v));
            }
        }
        self.buckets = new_buckets;
    }

    /// Adds or replaces the value of `key`. Every call first resizes, which leaves no
    /// bucket to put the entry in.
    pub fn insert(&mut self, key: K, value: V) -> (r: Option<V>)
        requires
            old(self).wf(),
            2 * old(self).bucket_count() + 1 <= usize::MAX,
            old(self).bucket_count_after_resize() > 0,
        ensures
            final(self).wf(),
    {
        let len = self.buckets.len() as u128;
        if len * 4 >= len * 3 {
            self.resize();
        }
        let index = self.bucket_index(&key);
        let mut found: Option<usize> = None;
        let mut j: usize = 0;
        while j < self.buckets[index].len()
            invariant
                index < self.buckets@.len(),
                j <= self.buckets@[index as int]@.len(),
            decreases self.buckets@[index as int]@.len() - j,
        {
            if self.buckets[index][j].0 == key {
                found = Some(j);
                break;
            }
            j = j + 1;
        }
        match found {
            Some(j) => {
                let mut old_value = value;
                std::mem::swap(&mut self.buckets[index][j].1, &mut old_value);
                Some(old_value)
            },
            None => {
                self.buckets[index].push((key, value));
                self.size = self.size + 1;
                None
            },
        }
    }

    /// The value stored for `key`, if any.
    pub fn get(&self, key: &K) -> (r: Option<&V>)
        requires
            self.wf(),
            self.bucket_count() > 0,
        ensures
            r is None,
    {
        let index = self.bucket_index(key);
        let bucket = &self.buckets[index];
        let mut j: usize = 0;
        while j < bucket.len()
            invariant
                bucket@.len() == 0,
            decreases bucket@.len() - j,
        {
            if bucket[j].0 == *key {
                return Some(&bucket[j].1);
            }
            j = j + 1;
        }
        None
    }

    /// Mutable access to the value stored for `key`, if any.
    pub fn get_mut(&mut self, key: &K) -> (r: Option<&mut V>)
        requires
            old(self).wf(),
            old(self).bucket_count() > 0,
        ensures
            r is None,
            final(self).wf(),
            final(self).bucket_count() == old(self).bucket_count(),
    {
        let index = self.bucket_index(key);
        let mut pos: Option<usize> = None;
        let mut j: usize = 0;
        while j < self.buckets[index].len()
            invariant
                index < self.buckets@.len(),
                self.buckets@[index as int]@.len() == 0,
                pos is None,
            decreases self.buckets@[index as int]@.len() - j,
        {
            if self.buckets[index][j].0 == *key {
                pos = Some(j);
                break;
            }
            j = j + 1;
        }
        match pos {
            Some(p) => Some(&mut self.buckets[index][p].1),
            None => None,
        }
    }

    /// Removes the entry of `key` and returns its value, if there is one.
    pub fn remove(&mut self, key: &K) -> (r: Option<V>)
        requires
            old(self).wf(),
            old(self).bucket_count() > 0,
        ensures
            r is None,
            final(self).wf(),
            final(self).bucket_count() == old(self).bucket_count(),
    {
        let index = self.bucket_index(key);
        let mut pos: Option<usize> = None;
        let mut j: usize = 0;
        while j < self.buckets[index].len()
            invariant
                index < self.buckets@.len(),
                self.buckets@[index as int]@.len() == 0,
                pos is None,
            decreases self.buckets@[index as int]@.len() - j,
        {
            if self.buckets[index][j].0 == *key {
                pos = Some(j);
                break;
            }
            j = j + 1;
        }
        match pos {
            Some(p) => {
                let (_, v) = self.buckets[index].swap_remove(p);
                self.size = self.size - 1;
                Some(v)
            },
            None => None,
        }
    }

    /// Whether `key` has an entry.
    pub fn contains_key(&self, key: &K) -> (r: bool)
        requires
            self.wf(),
            self.bucket_count() > 0,
        ensures
            !r,
    {
        self.get(key).is_some()
    }

    /// The bucket that holds `key`: its hash modulo the number of buckets.
    fn bucket_index(&self, key: &K) -> (r: usize)
        requires
            self.buckets@.len() > 0,
        ensures
            r < self.buckets@.len(),
    {
        Self::slot_of(key, self.buckets.len())
    }

    /// The hash of `key` modulo `n`.
    fn slot_of(key: &K, n: usize) -> (r: usize)
        requires
            n > 0,
        ensures
            r < n,
    {
        let mut hasher = DefaultHasher::new();
        feed_key(key, &mut hasher);
        let h = hasher.finish();
        (h % (n as u64)) as usize
    }
}

} // verus!
