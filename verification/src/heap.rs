//! A binary min-heap of `i64` stored in a `Vec`, and a max-heap built on it by
//! storing bitwise-complemented keys.
use vstd::multiset::Multiset;
use vstd::prelude::*;

verus! {

broadcast use vstd::seq_lib::group_to_multiset_ensures;

pub open spec fn parent(i: int) -> int {
    (i - 1) / 2
}

/// Position `j` is no smaller than its parent.
pub open spec fn ordered_at(s: Seq<i64>, j: int) -> bool {
    s[parent(j)] <= s[j]
}

/// Every element is no smaller than its parent.
pub open spec fn is_heap(s: Seq<i64>) -> bool {
    forall|j: int| 1 <= j < s.len() ==> #[trigger] ordered_at(s, j)
}

/// `x` is an element of `m` and no element of `m` is smaller.
pub open spec fn is_least(x: i64, m: Multiset<i64>) -> bool {
    &&& m.contains(x)
    &&& forall|y: i64| #[trigger] m.contains(y) ==> x <= y
}

proof fn lemma_root_is_least(s: Seq<i64>, i: int)
    requires
        is_heap(s),
        0 <= i < s.len(),
    ensures
        s[0] <= s[i],
    decreases i,
{
    if i > 0 {
        assert(ordered_at(s, i));
        lemma_root_is_least(s, parent(i));
    }
}

proof fn lemma_heap_least(s: Seq<i64>)
    requires
        is_heap(s),
        s.len() > 0,
    ensures
        is_least(s[0], s.to_multiset()),
{
    assert(s.contains(s[0]));
    assert forall|y: i64| #[trigger] s.to_multiset().contains(y) implies s[0] <= y by {
        assert(s.contains(y));
        let i = choose|i: int| 0 <= i < s.len() && s[i] == y;
        lemma_root_is_least(s, i);
    }
}

fn swap(data: &mut Vec<i64>, i: usize, j: usize)
    requires
        i < old(data)@.len(),
        j < old(data)@.len(),
    ensures
        final(data)@ == old(data)@.update(i as int, old(data)@[j as int]).update(j as int, old(data)@[i as int]),
        final(data)@.to_multiset() == old(data)@.to_multiset(),
{
    let a = data[i];
    let b = data[j];
    let ghost s = data@;
    data.set(i, b);
    data.set(j, a);
    proof {
        let s1 = s.update(i as int, b);
        assert(s1.to_multiset() == s.to_multiset().insert(b).remove(s[i as int]));
        assert(s1.update(j as int, a).to_multiset() == s1.to_multiset().insert(a).remove(s1[j as int]));
        assert(s.to_multiset().insert(b).remove(a).insert(a).remove(b) =~= s.to_multiset()) by {
            broadcast use vstd::multiset::group_multiset_axioms;
            assert(s.to_multiset().contains(a) && s.to_multiset().contains(b)) by {
                assert(s[i as int] == a && s[j as int] == b);
            }
        }
        if i == j {
            assert(data@ =~= s);
        }
    }
}

/// Restores heap order by moving the element at `idx` upward.
fn sift_up(data: &mut Vec<i64>, idx: usize)
    requires
        idx < old(data)@.len(),
        forall|j: int| 1 <= j < old(data)@.len() && j != idx ==> #[trigger] ordered_at(old(data)@, j),
        idx > 0 ==> forall|j: int| 1 <= j < old(data)@.len() && parent(j) == idx
            ==> old(data)@[parent(idx as int)] <= #[trigger] old(data)@[j],
    ensures
        is_heap(final(data)@),
        final(data)@.to_multiset() == old(data)@.to_multiset(),
{
    let mut idx = idx;
    while idx > 0
        invariant
            idx < data@.len(),
            data@.len() == old(data)@.len(),
            data@.to_multiset() == old(data)@.to_multiset(),
            forall|j: int| 1 <= j < data@.len() && j != idx ==> #[trigger] ordered_at(data@, j),
            idx > 0 ==> forall|j: int| 1 <= j < data@.len() && parent(j) == idx
                ==> data@[parent(idx as int)] <= #[trigger] data@[j],
        decreases idx,
    {
        let parent_idx = (idx - 1) / 2;
        if data[idx] >= data[parent_idx] {
            assert(ordered_at(data@, idx as int));
            return;
        }
        let ghost before = data@;
        swap(data, idx, parent_idx);
        proof {
            assert forall|j: int| 1 <= j < data@.len() && j != parent_idx implies #[trigger] ordered_at(data@, j) by {
                assert(ordered_at(before, parent_idx as int) || parent_idx == 0);
                if parent(j) == idx {
                } else if parent(j) == parent_idx && j != idx {
                    assert(ordered_at(before, j));
                } else if j != idx {
                    assert(ordered_at(before, j));
                }
            }
            if parent_idx > 0 {
                assert(ordered_at(before, parent_idx as int));
                assert forall|j: int| 1 <= j < data@.len() && parent(j) == parent_idx
                    implies data@[parent(parent_idx as int)] <= #[trigger] data@[j] by {
                    if j != idx {
                        assert(ordered_at(before, j));
                    }
                }
            }
        }
        idx = parent_idx;
    }
    assert forall|j: int| 1 <= j < data@.len() implies #[trigger] ordered_at(data@, j) by {
        assert(j != 0);
    }
}

/// Restores heap order below `idx` by moving the element at `idx` downward. Positions
/// whose parent lies before `lo` are not looked at.
fn sift_down(data: &mut Vec<i64>, start: usize, len: usize, Ghost(lo): Ghost<int>)
    requires
        len == old(data)@.len(),
        0 <= lo <= start < len,
        forall|j: int| 1 <= j < len && parent(j) >= lo && parent(j) != start ==> #[trigger] ordered_at(old(data)@, j),
        start > 0 && parent(start as int) >= lo ==> forall|j: int| 1 <= j < len && parent(j) == start
            ==> old(data)@[parent(start as int)] <= #[trigger] old(data)@[j],
    ensures
        final(data)@.len() == len,
        forall|j: int| 1 <= j < len && parent(j) >= lo ==> #[trigger] ordered_at(final(data)@, j),
        final(data)@.to_multiset() == old(data)@.to_multiset(),
        forall|k: int| 0 <= k < start ==> final(data)@[k] == old(data)@[k],
{
    let mut idx = start;
    loop
        invariant
            data@.len() == len,
            lo <= start <= idx < len,
            data@.to_multiset() == old(data)@.to_multiset(),
            forall|k: int| 0 <= k < start ==> data@[k] == old(data)@[k],
            forall|j: int| 1 <= j < len && parent(j) >= lo && parent(j) != idx ==> #[trigger] ordered_at(data@, j),
            idx > 0 && parent(idx as int) >= lo ==> forall|j: int| 1 <= j < len && parent(j) == idx
                ==> data@[parent(idx as int)] <= #[trigger] data@[j],
        decreases len - idx,
    {
        // no child when 2 * idx + 1 >= len
        if idx >= len / 2 {
            assert forall|j: int| 1 <= j < len && parent(j) >= lo implies #[trigger] ordered_at(data@, j) by {
                assert(parent(j) != idx);
            }
            return;
        }
        let left = 2 * idx + 1;
        let right = left + 1;
        let mut smallest = idx;
        if data[left] < data[smallest] {
            smallest = left;
        }
        if right < len && data[right] < data[smallest] {
            smallest = right;
        }
        if smallest == idx {
            assert forall|j: int| 1 <= j < len && parent(j) >= lo implies #[trigger] ordered_at(data@, j) by {
                if parent(j) == idx {
                    assert(j == left || j == right);
                }
            }
            return;
        }
        let ghost before = data@;
        swap(data, idx, smallest);
        proof {
            assert forall|j: int| 1 <= j < len && parent(j) >= lo && parent(j) != smallest
                implies #[trigger] ordered_at(data@, j) by {
                if parent(j) == idx {
                    assert(j == left || j == right);
                } else if j == idx {
                    assert(before[parent(idx as int)] <= before[smallest as int]);
                } else {
                    assert(ordered_at(before, j));
                }
            }
            assert forall|j: int| 1 <= j < len && parent(j) == smallest
                implies data@[parent(smallest as int)] <= #[trigger] data@[j] by {
                assert(ordered_at(before, j));
            }
        }
        idx = smallest;
    }
}

pub struct MinHeap {
    data: Vec<i64>,
}

impl MinHeap {
    /// The elements of the heap.
    pub closed spec fn view(&self) -> Multiset<i64> {
        self.data@.to_multiset()
    }

    pub closed spec fn wf(&self) -> bool {
        is_heap(self.data@)
    }

    /// Creates a new empty heap.
    pub fn new() -> (h: Self)
        ensures
            h.wf(),
            h@ =~= Multiset::<i64>::empty(),
    {
        MinHeap { data: Vec::new() }
    }

    /// Creates a heap from a vector, heapifying it in O(n) time.
    pub fn from_vec(data: Vec<i64>) -> (h: Self)
        ensures
            h.wf(),
            h@ == data@.to_multiset(),
    {
        let mut data = data;
        let ghost original = data@;
        let n = data.len();
        let mut i = n / 2;
        while i > 0
            invariant
                i <= n / 2,
                data@.len() == n,
                data@.to_multiset() == original.to_multiset(),
                forall|j: int| 1 <= j < n && parent(j) >= i ==> #[trigger] ordered_at(data@, j),
            decreases i,
        {
            i = i - 1;
            sift_down(&mut data, i, n, Ghost(i as int));
        }
        MinHeap { data }
    }

    /// Number of elements.
    pub fn len(&self) -> (r: usize)
        ensures
            r == self@.len(),
    {
        self.data.len()
    }

    pub fn is_empty(&self) -> (r: bool)
        ensures
            r == (self@.len() == 0),
    {
        self.data.len() == 0
    }

    /// The smallest element, or `None` if empty.
    pub fn peek(&self) -> (r: Option<&i64>)
        requires
            self.wf(),
        ensures
            self@.len() == 0 <==> r is None,
            r matches Some(x) ==> is_least(*x, self@),
    {
        if self.data.len() == 0 {
            None
        } else {
            proof {
                lemma_heap_least(self.data@);
            }
            Some(&self.data[0])
        }
    }

    /// Inserts a new element.
    pub fn push(&mut self, value: i64)
        requires
            old(self).wf(),
        ensures
            final(self).wf(),
            final(self)@ == old(self)@.insert(value),
    {
        self.data.push(value);
        let len = self.data.len();
        proof {
            assert forall|j: int| 1 <= j < self.data@.len() && j != len - 1 implies #[trigger] ordered_at(self.data@, j) by {
                assert(ordered_at(old(self).data@, j));
            }
        }
        sift_up(&mut self.data, len - 1);
    }

    /// Removes and returns the smallest element, or `None` if empty.
    pub fn pop(&mut self) -> (r: Option<i64>)
        requires
            old(self).wf(),
        ensures
            final(self).wf(),
            old(self)@.len() == 0 <==> r is None,
            r is None ==> final(self)@ == old(self)@,
            r matches Some(x) ==> is_least(x, old(self)@) && final(self)@ == old(self)@.remove(x),
    {
        if self.data.len() == 0 {
            return None;
        }
        proof {
            lemma_heap_least(self.data@);
        }
        let ghost s = self.data@;
        let last = self.data.pop().unwrap();
        proof {
            assert(s =~= self.data@.push(last));
        }
        if self.data.len() == 0 {
            proof {
                assert(s =~= seq![last]);
                assert(self.data@ =~= Seq::<i64>::empty());
                assert(s.to_multiset().remove(last) =~= Multiset::empty()) by {
                    broadcast use vstd::multiset::group_multiset_axioms;
                    assert(s =~= Seq::<i64>::empty().push(last));
                }
            }
            return Some(last);
        }
        let min = self.data[0];
        let ghost t = self.data@;
        self.data.set(0, last);
        let len = self.data.len();
        proof {
            assert(min == s[0]);
            assert(self.data@.to_multiset() == t.to_multiset().insert(last).remove(min));
            assert(s.to_multiset() == t.to_multiset().insert(last));
            assert forall|j: int| 1 <= j < len && parent(j) != 0 implies #[trigger] ordered_at(self.data@, j) by {
                assert(ordered_at(s, j));
            }
        }
        sift_down(&mut self.data, 0, len, Ghost(0));
        Some(min)
    }
}

proof fn lemma_drain(ms: Seq<Multiset<i64>>, xs: Seq<i64>)
    requires
        ms.len() == xs.len() + 1,
        forall|k: int| 0 <= k < xs.len() ==> is_least(#[trigger] xs[k], ms[k]) && ms[k + 1] == ms[k].remove(xs[k]),
        ms.last().len() == 0,
    ensures
        forall|i: int, j: int| 0 <= i <= j < xs.len() ==> xs[i] <= xs[j],
        xs.to_multiset() == ms[0],
    decreases xs.len(),
{
    broadcast use vstd::multiset::group_multiset_axioms;
    if xs.len() == 0 {
        assert(ms[0] =~= Multiset::empty());
        assert(xs.to_multiset() =~= Multiset::empty());
    } else {
        let rest = xs.drop_first();
        let later = ms.drop_first();
        assert forall|k: int| 0 <= k < rest.len() implies is_least(#[trigger] rest[k], later[k])
            && later[k + 1] == later[k].remove(rest[k]) by {
            assert(rest[k] == xs[k + 1]);
        }
        lemma_drain(later, rest);
        assert(xs =~= seq![xs[0]] + rest);
        vstd::seq_lib::lemma_multiset_commutative(seq![xs[0]], rest);
        assert(seq![xs[0]].to_multiset() =~= Multiset::singleton(xs[0])) by {
            assert(seq![xs[0]] =~= Seq::<i64>::empty().push(xs[0]));
        }
        assert(xs.to_multiset() =~= ms[0]);
        assert forall|i: int, j: int| 0 <= i <= j < xs.len() implies xs[i] <= xs[j] by {
            if i == 0 && j > 0 {
                assert(rest.to_multiset().contains(rest[j - 1]));
                assert(ms[1].contains(xs[j]));
                assert(ms[0].contains(xs[j]));
            } else if i > 0 {
                assert(xs[i] == rest[i - 1] && xs[j] == rest[j - 1]);
            }
        }
    }
}

/// Popping a heap until it is empty gives its elements in non-decreasing order, each as
/// often as the heap held it: `heaps[k]` is the heap before the `k`-th pop and `xs[k]` what
/// that pop returned.
pub proof fn law_pops_give_sorted_contents(heaps: Seq<MinHeap>, xs: Seq<i64>)
    requires
        heaps.len() == xs.len() + 1,
        forall|k: int| 0 <= k < xs.len() ==> is_least(#[trigger] xs[k], heaps[k]@)
            && heaps[k + 1]@ == heaps[k]@.remove(xs[k]),
        heaps.last()@.len() == 0,
    ensures
        forall|i: int, j: int| 0 <= i <= j < xs.len() ==> xs[i] <= xs[j],
        xs.to_multiset() == heaps[0]@,
{
    let ms = Seq::new(heaps.len(), |k: int| heaps[k]@);
    assert forall|k: int| 0 <= k < xs.len() implies is_least(#[trigger] xs[k], ms[k]) && ms[k + 1]
        == ms[k].remove(xs[k]) by {
        assert(is_least(xs[k], heaps[k]@));
    }
    lemma_drain(ms, xs);
}

// ---------- MaxHeap: a min-heap of bitwise-complemented keys ----------
/// `!x` is `-x - 1`: it reverses the order of `i64` and maps it onto itself.
proof fn lemma_complement(x: i64)
    by (bit_vector)
    ensures
        !x == -x - 1,
{
}

pub struct MaxHeap(MinHeap);

impl MaxHeap {
    /// How many times `v` is in the heap.
    pub closed spec fn count(&self, v: i64) -> nat {
        self.0@.count((-v - 1) as i64)
    }

    pub closed spec fn size(&self) -> nat {
        self.0@.len()
    }

    pub closed spec fn wf(&self) -> bool {
        self.0.wf()
    }

    pub fn new() -> (h: Self)
        ensures
            h.wf(),
            h.size() == 0,
            forall|v: i64| h.count(v) == 0,
    {
        MaxHeap(MinHeap::new())
    }

    pub fn push(&mut self, value: i64)
        requires
            old(self).wf(),
        ensures
            final(self).wf(),
            final(self).size() == old(self).size() + 1,
            forall|v: i64| #[trigger] final(self).count(v) == old(self).count(v) + (if v == value { 1nat } else { 0nat }),
    {
        broadcast use vstd::multiset::group_multiset_axioms;
        proof {
            lemma_complement(value);
        }
        self.0.push(!value);
    }

    pub fn pop(&mut self) -> (r: Option<i64>)
        requires
            old(self).wf(),
        ensures
            final(self).wf(),
            old(self).size() == 0 <==> r is None,
            r is None ==> final(self).size() == 0,
            r matches Some(x) ==> {
                &&& old(self).count(x) > 0
                &&& forall|v: i64| #[trigger] old(self).count(v) > 0 ==> v <= x
                &&& final(self).size() == old(self).size() - 1
                &&& forall|v: i64| #[trigger] final(self).count(v) == old(self).count(v) - (if v == x { 1int } else { 0int })
            },
    {
        broadcast use vstd::multiset::group_multiset_axioms;
        match self.0.pop() {
            Some(rev) => {
                proof {
                    lemma_complement(rev);
                    assert forall|v: i64| #[trigger] old(self).count(v) > 0 implies v <= -rev - 1 by {
                        assert(old(self).0@.contains((-v - 1) as i64));
                    }
                }
                Some(!rev)
            },
            None => None,
        }
    }

    pub fn peek(&self) -> (r: Option<i64>)
        requires
            self.wf(),
        ensures
            self.size() == 0 <==> r is None,
            r matches Some(x) ==> self.count(x) > 0 && forall|v: i64| #[trigger] self.count(v) > 0 ==> v <= x,
    {
        broadcast use vstd::multiset::group_multiset_axioms;
        match self.0.peek() {
            Some(rev) => {
                proof {
                    lemma_complement(*rev);
                    assert forall|v: i64| #[trigger] self.count(v) > 0 implies v <= -*rev - 1 by {
                        assert(self.0@.contains((-v - 1) as i64));
                    }
                }
                Some(!*rev)
            },
            None => None,
        }
    }

    pub fn len(&self) -> (r: usize)
        ensures
            r == self.size(),
    {
        self.0.len()
    }

    pub fn is_empty(&self) -> (r: bool)
        ensures
            r == (self.size() == 0),
    {
        self.0.is_empty()
    }
}

} // verus!
