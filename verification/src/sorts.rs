//! Sorting algorithms on vectors of integers. Each leaves its input sorted in
//! non-decreasing order and holding the same elements as before.
use vstd::multiset::Multiset;
use vstd::prelude::*;

verus! {

broadcast use vstd::seq_lib::group_to_multiset_ensures;

/// `s[lo..hi)` is in non-decreasing order.
pub open spec fn sorted_between(s: Seq<i32>, lo: int, hi: int) -> bool {
    forall|i: int, j: int| lo <= i <= j < hi ==> s[i] <= s[j]
}

pub open spec fn sorted(s: Seq<i32>) -> bool {
    sorted_between(s, 0, s.len() as int)
}

/// `s` holds the same elements as `t`, counted with multiplicity.
pub open spec fn permutation_of(s: Seq<i32>, t: Seq<i32>) -> bool {
    s.to_multiset() == t.to_multiset()
}

proof fn lemma_swap_multiset(s: Seq<i32>, i: int, j: int)
    requires
        0 <= i < s.len(),
        0 <= j < s.len(),
    ensures
        s.update(i, s[j]).update(j, s[i]).to_multiset() == s.to_multiset(),
{
    broadcast use vstd::multiset::group_multiset_axioms;
    let a = s[i];
    let b = s[j];
    let s1 = s.update(i, b);
    assert(s1.to_multiset() == s.to_multiset().insert(b).remove(a));
    assert(s1.update(j, a).to_multiset() == s1.to_multiset().insert(a).remove(s1[j]));
    if i == j {
        assert(s.update(i, s[j]).update(j, s[i]) =~= s);
    } else {
        assert(s.to_multiset().contains(a) && s.to_multiset().contains(b)) by {
            assert(s.contains(a) && s.contains(b));
        }
        assert(s.to_multiset().insert(b).remove(a).insert(a).remove(b) =~= s.to_multiset());
    }
}

fn swap(arr: &mut Vec<i32>, i: usize, j: usize)
    requires
        i < old(arr)@.len(),
        j < old(arr)@.len(),
    ensures
        final(arr)@ == old(arr)@.update(i as int, old(arr)@[j as int]).update(j as int, old(arr)@[i as int]),
        final(arr)@.to_multiset() == old(arr)@.to_multiset(),
{
    proof {
        lemma_swap_multiset(arr@, i as int, j as int);
    }
    let a = arr[i];
    let b = arr[j];
    arr.set(i, b);
    arr.set(j, a);
}

// -----------------------------------------------------------------------------
// 1. Bubble Sort
// -----------------------------------------------------------------------------
pub fn bubble_sort(arr: &mut Vec<i32>)
    ensures
        sorted(final(arr)@),
        permutation_of(final(arr)@, old(arr)@),
{
    let n = arr.len();
    if n <= 1 {
        return;
    }
    let mut i: usize = 0;
    while i < n
        invariant
            n == arr@.len(),
            n >= 2,
            i <= n,
            permutation_of(arr@, old(arr)@),
            sorted_between(arr@, n - i, n as int),
            forall|a: int, b: int| 0 <= a < n - i <= b < n ==> arr@[a] <= arr@[b],
        decreases n - i,
    {
        let mut swapped = false;
        let mut j: usize = 0;
        if i == n - 1 {
            assert(sorted(arr@));
            return;
        }
        while j < n - 1 - i
            invariant
                n == arr@.len(),
                i < n - 1,
                j <= n - 1 - i,
                permutation_of(arr@, old(arr)@),
                sorted_between(arr@, n - i, n as int),
                forall|a: int, b: int| 0 <= a < n - i <= b < n ==> arr@[a] <= arr@[b],
                forall|a: int| 0 <= a <= j ==> arr@[a] <= arr@[j as int],
                !swapped ==> sorted_between(arr@, 0, j + 1),
            decreases n - 1 - i - j,
        {
            if arr[j] > arr[j + 1] {
                swap(arr, j, j + 1);
                swapped = true;
            }
            j = j + 1;
        }
        if !swapped {
            assert(sorted(arr@));
            return;
        }
        i = i + 1;
    }
}

// -----------------------------------------------------------------------------
// 2. Selection Sort
// -----------------------------------------------------------------------------
pub fn selection_sort(arr: &mut Vec<i32>)
    ensures
        sorted(final(arr)@),
        permutation_of(final(arr)@, old(arr)@),
{
    let n = arr.len();
    if n <= 1 {
        return;
    }
    let mut i: usize = 0;
    while i < n
        invariant
            n == arr@.len(),
            i <= n,
            permutation_of(arr@, old(arr)@),
            sorted_between(arr@, 0, i as int),
            forall|a: int, b: int| 0 <= a < i <= b < n ==> arr@[a] <= arr@[b],
        decreases n - i,
    {
        let mut min_idx = i;
        let mut j = i + 1;
        while j < n
            invariant
                n == arr@.len(),
                i < n,
                i < j <= n,
                i <= min_idx < n,
                forall|b: int| i <= b < j ==> arr@[min_idx as int] <= arr@[b],
            decreases n - j,
        {
            if arr[j] < arr[min_idx] {
                min_idx = j;
            }
            j = j + 1;
        }
        if min_idx != i {
            swap(arr, i, min_idx);
        }
        i = i + 1;
    }
}

// -----------------------------------------------------------------------------
// 3. Insertion Sort
// -----------------------------------------------------------------------------
pub fn insertion_sort(arr: &mut Vec<i32>)
    ensures
        sorted(final(arr)@),
        permutation_of(final(arr)@, old(arr)@),
{
    let n = arr.len();
    let mut i: usize = 1;
    if n == 0 {
        return;
    }
    while i < n
        invariant
            n == arr@.len(),
            1 <= i <= n,
            permutation_of(arr@, old(arr)@),
            sorted_between(arr@, 0, i as int),
        decreases n - i,
    {
        let mut j = i;
        while j > 0 && arr[j] < arr[j - 1]
            invariant
                n == arr@.len(),
                0 <= j <= i < n,
                permutation_of(arr@, old(arr)@),
                sorted_between(arr@, 0, j as int),
                sorted_between(arr@, j as int, i + 1),
                0 < j < i ==> arr@[j - 1] <= arr@[j + 1],
            decreases j,
        {
            swap(arr, j, j - 1);
            j = j - 1;
        }
        i = i + 1;
    }
}

// -----------------------------------------------------------------------------
// 4. Merge Sort
// -----------------------------------------------------------------------------
fn copy_range(arr: &Vec<i32>, lo: usize, hi: usize) -> (r: Vec<i32>)
    requires
        lo <= hi <= arr@.len(),
    ensures
        r@ == arr@.subrange(lo as int, hi as int),
{
    let mut r: Vec<i32> = Vec::new();
    let mut k = lo;
    while k < hi
        invariant
            lo <= k <= hi <= arr@.len(),
            r@ == arr@.subrange(lo as int, k as int),
        decreases hi - k,
    {
        r.push(arr[k]);
        k = k + 1;
        assert(r@ =~= arr@.subrange(lo as int, k as int));
    }
    r
}

pub fn merge_sort(arr: &mut Vec<i32>)
    ensures
        final(arr)@.len() == old(arr)@.len(),
        sorted(final(arr)@),
        permutation_of(final(arr)@, old(arr)@),
    decreases old(arr)@.len(),
{
    let n = arr.len();
    if n <= 1 {
        return;
    }
    let mid = n / 2;
    let mut left = copy_range(arr, 0, mid);
    let mut right = copy_range(arr, mid, n);
    proof {
        assert(arr@ =~= left@ + right@);
        vstd::seq_lib::lemma_multiset_commutative(left@, right@);
    }
    let ghost l0 = left@;
    let ghost r0 = right@;
    merge_sort(&mut left);
    merge_sort(&mut right);
    merge(arr, &left, &right);
    proof {
        vstd::seq_lib::lemma_multiset_commutative(left@, right@);
    }
}

/// Merges two sorted runs into `target`, taking from the left run on ties.
fn merge(target: &mut Vec<i32>, left: &Vec<i32>, right: &Vec<i32>)
    requires
        old(target)@.len() == left@.len() + right@.len(),
        sorted(left@),
        sorted(right@),
    ensures
        final(target)@.len() == old(target)@.len(),
        sorted(final(target)@),
        final(target)@.to_multiset() == (left@ + right@).to_multiset(),
{
    merge_into(target, 0, left, right);
    assert(final(target)@.subrange(0, final(target)@.len() as int) =~= final(target)@);
}

/// Merges two sorted runs into `target[start .. start + left.len() + right.len())`.
fn merge_into(target: &mut Vec<i32>, start: usize, left: &Vec<i32>, right: &Vec<i32>)
    requires
        start + left@.len() + right@.len() <= old(target)@.len(),
        sorted(left@),
        sorted(right@),
    ensures
        final(target)@.len() == old(target)@.len(),
        sorted_between(final(target)@, start as int, start + left@.len() + right@.len()),
        final(target)@.subrange(start as int, start + left@.len() + right@.len()).to_multiset()
            == (left@ + right@).to_multiset(),
        forall|k: int| 0 <= k < start || start + left@.len() + right@.len() <= k < final(target)@.len()
            ==> final(target)@[k] == old(target)@[k],
{
    broadcast use vstd::seq_lib::lemma_multiset_commutative;
    broadcast use vstd::multiset::group_multiset_axioms;
    let tl = target.len();
    let ghost end = start + left@.len() + right@.len();
    let mut i: usize = 0;
    let mut j: usize = 0;
    let mut k: usize = start;
    assert(target@.subrange(start as int, k as int) =~= Seq::<i32>::empty());
    assert(left@.subrange(0, 0) =~= Seq::<i32>::empty());
    assert(right@.subrange(0, 0) =~= Seq::<i32>::empty());
    while i < left.len() || j < right.len()
        invariant
            i <= left@.len(),
            j <= right@.len(),
            k == start + i + j,
            end == start + left@.len() + right@.len(),
            end <= tl,
            tl == target@.len(),
            target@.len() == old(target)@.len(),
            sorted(left@),
            sorted(right@),
            sorted_between(target@, start as int, k as int),
            target@.subrange(start as int, k as int).to_multiset()
                == left@.subrange(0, i as int).to_multiset().add(right@.subrange(0, j as int).to_multiset()),
            k > start && i < left@.len() ==> target@[k - 1] <= left@[i as int],
            k > start && j < right@.len() ==> target@[k - 1] <= right@[j as int],
            forall|q: int| 0 <= q < start || end <= q < target@.len() ==> target@[q] == old(target)@[q],
        decreases left@.len() + right@.len() - i - j,
    {
        let ghost before = target@;
        let take_left = i < left.len() && (j >= right.len() || left[i] <= right[j]);
        let v = if take_left { left[i] } else { right[j] };
        target.set(k, v);
        proof {
            assert(target@.subrange(start as int, k + 1) =~= before.subrange(start as int, k as int).push(v));
            if take_left {
                assert(left@.subrange(0, i + 1) =~= left@.subrange(0, i as int).push(v));
                assert(left@.subrange(0, i as int).to_multiset().insert(v).add(right@.subrange(0, j as int).to_multiset())
                    =~= left@.subrange(0, i as int).to_multiset().add(right@.subrange(0, j as int).to_multiset()).insert(v));
            } else {
                assert(right@.subrange(0, j + 1) =~= right@.subrange(0, j as int).push(v));
                assert(left@.subrange(0, i as int).to_multiset().add(right@.subrange(0, j as int).to_multiset().insert(v))
                    =~= left@.subrange(0, i as int).to_multiset().add(right@.subrange(0, j as int).to_multiset()).insert(v));
            }
        }
        if take_left {
            i = i + 1;
        } else {
            j = j + 1;
        }
        k = k + 1;
    }
    assert(left@.subrange(0, i as int) =~= left@);
    assert(right@.subrange(0, j as int) =~= right@);
}

// -----------------------------------------------------------------------------
// 5. Quick Sort
// -----------------------------------------------------------------------------
pub fn quick_sort(arr: &mut Vec<i32>)
    ensures
        sorted(final(arr)@),
        permutation_of(final(arr)@, old(arr)@),
{
    let n = arr.len();
    quick_sort_range(arr, 0, n);
    assert(arr@.subrange(0, n as int) =~= arr@);
    assert(old(arr)@.subrange(0, n as int) =~= old(arr)@);
}

/// Sorts `arr[lo..hi)` in place.
fn quick_sort_range(arr: &mut Vec<i32>, lo: usize, hi: usize)
    requires
        lo <= hi <= old(arr)@.len(),
    ensures
        final(arr)@.len() == old(arr)@.len(),
        sorted_between(final(arr)@, lo as int, hi as int),
        final(arr)@.subrange(lo as int, hi as int).to_multiset() == old(arr)@.subrange(lo as int, hi as int).to_multiset(),
        forall|k: int| 0 <= k < lo || hi <= k < final(arr)@.len() ==> final(arr)@[k] == old(arr)@[k],
    decreases hi - lo,
{
    if hi - lo <= 1 {
        return;
    }
    let pivot = partition(arr, lo, hi);
    let ghost mid = arr@;
    quick_sort_range(arr, lo, pivot);
    let ghost after_left = arr@;
    quick_sort_range(arr, pivot + 1, hi);
    proof {
        lemma_range_bounds(mid, after_left, lo as int, pivot as int, mid[pivot as int], true);
        lemma_range_bounds(after_left, arr@, pivot + 1, hi as int, mid[pivot as int], false);
        assert(after_left.subrange(lo as int, pivot as int) == arr@.subrange(lo as int, pivot as int));
        assert(forall|a: int| lo <= a < pivot ==> after_left[a] == arr@[a]);
        assert(sorted_between(arr@, lo as int, hi as int));
        lemma_split_multiset(mid, lo as int, pivot as int, hi as int);
        lemma_split_multiset(after_left, lo as int, pivot as int, hi as int);
        lemma_split_multiset(arr@, lo as int, pivot as int, hi as int);
        assert(after_left.subrange(pivot + 1, hi as int) =~= mid.subrange(pivot + 1, hi as int));
        assert(arr@.subrange(lo as int, pivot as int) =~= after_left.subrange(lo as int, pivot as int));
    }
}

/// Splits the multiset of a range at an element.
proof fn lemma_split_multiset(s: Seq<i32>, lo: int, p: int, hi: int)
    requires
        0 <= lo <= p < hi <= s.len(),
    ensures
        s.subrange(lo, hi).to_multiset() == s.subrange(lo, p).to_multiset().insert(s[p]).add(
            s.subrange(p + 1, hi).to_multiset(),
        ),
{
    broadcast use vstd::seq_lib::lemma_multiset_commutative;
    broadcast use vstd::multiset::group_multiset_axioms;
    assert(s.subrange(lo, hi) =~= s.subrange(lo, p).push(s[p]) + s.subrange(p + 1, hi));
}

/// A range whose multiset is unchanged keeps any bound that all its elements met.
proof fn lemma_range_bounds(before: Seq<i32>, after: Seq<i32>, lo: int, hi: int, bound: i32, below: bool)
    requires
        0 <= lo <= hi <= before.len(),
        before.len() == after.len(),
        after.subrange(lo, hi).to_multiset() == before.subrange(lo, hi).to_multiset(),
        below ==> forall|k: int| lo <= k < hi ==> before[k] <= bound,
        !below ==> forall|k: int| lo <= k < hi ==> bound <= before[k],
    ensures
        below ==> forall|k: int| lo <= k < hi ==> after[k] <= bound,
        !below ==> forall|k: int| lo <= k < hi ==> bound <= after[k],
{
    assert forall|k: int| lo <= k < hi implies (below ==> after[k] <= bound) && (!below ==> bound <= after[k]) by {
        let x = after[k];
        assert(after.subrange(lo, hi)[k - lo] == x);
        assert(after.subrange(lo, hi).contains(x));
        assert(before.subrange(lo, hi).to_multiset().contains(x));
        assert(before.subrange(lo, hi).contains(x));
        let m = choose|m: int| 0 <= m < hi - lo && before.subrange(lo, hi)[m] == x;
        assert(before[lo + m] == x);
    }
}

/// Median-of-three pivot, then Lomuto partition of `arr[lo..hi)`. Returns the final
/// pivot position: smaller-or-equal elements before it, larger ones after it.
fn partition(arr: &mut Vec<i32>, lo: usize, hi: usize) -> (p: usize)
    requires
        lo + 2 <= hi <= old(arr)@.len(),
    ensures
        lo <= p < hi,
        final(arr)@.len() == old(arr)@.len(),
        forall|k: int| lo <= k < p ==> final(arr)@[k] <= final(arr)@[p as int],
        forall|k: int| p < k < hi ==> final(arr)@[p as int] < final(arr)@[k],
        final(arr)@.subrange(lo as int, hi as int).to_multiset() == old(arr)@.subrange(lo as int, hi as int).to_multiset(),
        forall|k: int| 0 <= k < lo || hi <= k < final(arr)@.len() ==> final(arr)@[k] == old(arr)@[k],
{
    let last = hi - 1;
    let mid = lo + (hi - lo) / 2;
    if arr[mid] < arr[lo] {
        swap_in_range(arr, lo, mid, lo, hi);
    }
    if arr[last] < arr[lo] {
        swap_in_range(arr, lo, last, lo, hi);
    }
    if arr[mid] < arr[last] {
        swap_in_range(arr, mid, last, lo, hi);
    }
    let ghost start = arr@;
    let mut i = lo;
    let mut j = lo;
    while j < last
        invariant
            lo <= i <= j <= last,
            last == hi - 1,
            hi <= arr@.len(),
            arr@.len() == old(arr)@.len(),
            arr@[last as int] == start[last as int],
            forall|k: int| lo <= k < i ==> arr@[k] <= arr@[last as int],
            forall|k: int| i <= k < j ==> arr@[last as int] < arr@[k],
            arr@.subrange(lo as int, hi as int).to_multiset() == old(arr)@.subrange(lo as int, hi as int).to_multiset(),
            forall|k: int| 0 <= k < lo || hi <= k < arr@.len() ==> arr@[k] == old(arr)@[k],
        decreases last - j,
    {
        if arr[j] <= arr[last] {
            swap_in_range(arr, i, j, lo, hi);
            i = i + 1;
        }
        j = j + 1;
    }
    swap_in_range(arr, i, last, lo, hi);
    i
}

fn swap_in_range(arr: &mut Vec<i32>, i: usize, j: usize, lo: usize, hi: usize)
    requires
        lo <= i < hi,
        lo <= j < hi,
        hi <= old(arr)@.len(),
    ensures
        final(arr)@ == old(arr)@.update(i as int, old(arr)@[j as int]).update(j as int, old(arr)@[i as int]),
        final(arr)@.subrange(lo as int, hi as int).to_multiset() == old(arr)@.subrange(lo as int, hi as int).to_multiset(),
        final(arr)@.to_multiset() == old(arr)@.to_multiset(),
{
    let ghost s = arr@;
    swap(arr, i, j);
    proof {
        let r = s.subrange(lo as int, hi as int);
        lemma_swap_multiset(r, i - lo, j - lo);
        assert(arr@.subrange(lo as int, hi as int) =~= r.update(i - lo, r[j - lo]).update(j - lo, r[i - lo]));
    }
}

// -----------------------------------------------------------------------------
// 6. Heap Sort
// -----------------------------------------------------------------------------
spec fn heap_parent(i: int) -> int {
    (i - 1) / 2
}

/// Position `j` is no larger than its parent.
spec fn below_parent(s: Seq<i32>, j: int) -> bool {
    s[j] <= s[heap_parent(j)]
}

/// In `s[0..n)`, positions whose parent is at `lo` or later are no larger than it.
spec fn max_heap_from(s: Seq<i32>, n: int, lo: int) -> bool {
    forall|j: int| 1 <= j < n && heap_parent(j) >= lo ==> #[trigger] below_parent(s, j)
}

proof fn lemma_max_heap_root(s: Seq<i32>, n: int, i: int)
    requires
        max_heap_from(s, n, 0),
        0 <= i < n <= s.len(),
    ensures
        s[i] <= s[0],
    decreases i,
{
    if i > 0 {
        assert(below_parent(s, i));
        lemma_max_heap_root(s, n, heap_parent(i));
    }
}

pub fn heap_sort(arr: &mut Vec<i32>)
    ensures
        sorted(final(arr)@),
        permutation_of(final(arr)@, old(arr)@),
{
    let n = arr.len();
    if n <= 1 {
        return;
    }
    build_max_heap(arr);
    let mut end = n - 1;
    while end > 0
        invariant
            n == arr@.len(),
            end < n,
            permutation_of(arr@, old(arr)@),
            max_heap_from(arr@, end + 1, 0),
            sorted_between(arr@, end + 1, n as int),
            forall|a: int, b: int| 0 <= a <= end < b < n ==> arr@[a] <= arr@[b],
        decreases end,
    {
        let ghost before = arr@;
        swap_in_range(arr, 0, end, 0, end + 1);
        let ghost swapped = arr@;
        proof {
            lemma_after_root_swap(before, swapped, n as int, end as int);
        }
        heapify(arr, end, 0, Ghost(0));
        proof {
            lemma_after_reheap(before, swapped, arr@, n as int, end as int);
        }
        end = end - 1;
    }
}

fn build_max_heap(arr: &mut Vec<i32>)
    ensures
        final(arr)@.len() == old(arr)@.len(),
        permutation_of(final(arr)@, old(arr)@),
        max_heap_from(final(arr)@, final(arr)@.len() as int, 0),
{
    let n = arr.len();
    let mut i = n / 2;
    while i > 0
        invariant
            n == arr@.len(),
            i <= n / 2,
            permutation_of(arr@, old(arr)@),
            max_heap_from(arr@, n as int, i as int),
        decreases i,
    {
        i = i - 1;
        heapify(arr, n, i, Ghost(i as int));
    }
}

proof fn lemma_after_root_swap(before: Seq<i32>, swapped: Seq<i32>, n: int, end: int)
    requires
        0 < end < n == before.len(),
        max_heap_from(before, end + 1, 0),
        swapped == before.update(0, before[end]).update(end, before[0]),
    ensures
        forall|a: int| 0 <= a < end ==> swapped[a] <= swapped[end],
        forall|j: int| 1 <= j < end && heap_parent(j) != 0 ==> #[trigger] below_parent(swapped, j),
{
    assert forall|a: int| 0 <= a <= end implies #[trigger] before[a] <= before[0] by {
        lemma_max_heap_root(before, end + 1, a);
    }
    assert forall|a: int| 0 <= a < end implies swapped[a] <= swapped[end] by {
        if a == 0 {
        } else {
            assert(before[a] <= before[0]);
        }
    }
    assert forall|j: int| 1 <= j < end && heap_parent(j) != 0
        implies #[trigger] below_parent(swapped, j) by {
        assert(below_parent(before, j));
    }
}

proof fn lemma_after_reheap(before: Seq<i32>, swapped: Seq<i32>, after: Seq<i32>, n: int, end: int)
    requires
        0 < end < n == before.len(),
        swapped == before.update(0, before[end]).update(end, before[0]),
        forall|a: int| 0 <= a < end ==> swapped[a] <= swapped[end],
        sorted_between(before, end + 1, n),
        forall|a: int, b: int| 0 <= a <= end < b < n ==> before[a] <= before[b],
        after.len() == n,
        forall|k: int| end <= k < n ==> after[k] == swapped[k],
        after.subrange(0, end).to_multiset() == swapped.subrange(0, end).to_multiset(),
    ensures
        sorted_between(after, end, n),
        forall|a: int, b: int| 0 <= a <= end - 1 < b < n ==> after[a] <= after[b],
{
    lemma_range_bounds(swapped, after, 0, end, swapped[end], true);
    assert forall|a: int, b: int| 0 <= a <= end - 1 < b < n implies after[a] <= after[b] by {
        if b != end {
            assert(swapped[b] == before[b]);
            assert(before[0] <= before[b]);
        }
    }
    assert forall|a: int, b: int| end <= a <= b < n implies after[a] <= after[b] by {
        if a == end && b > end {
            assert(before[0] <= before[b]);
        }
    }
}

/// Restores max-heap order in `arr[0..n)` below `i`; positions whose parent lies
/// before `lo` are not looked at. Positions from `n` on are not touched.
fn heapify(arr: &mut Vec<i32>, n: usize, i: usize, Ghost(lo): Ghost<int>)
    requires
        n <= old(arr)@.len(),
        0 <= lo <= i,
        i < n || n == 0,
        forall|j: int| 1 <= j < n && heap_parent(j) >= lo && heap_parent(j) != i
            ==> #[trigger] below_parent(old(arr)@, j),
        i > 0 && heap_parent(i as int) >= lo ==> forall|j: int| 1 <= j < n && heap_parent(j) == i
            ==> #[trigger] old(arr)@[j] <= old(arr)@[heap_parent(i as int)],
    ensures
        final(arr)@.len() == old(arr)@.len(),
        max_heap_from(final(arr)@, n as int, lo),
        permutation_of(final(arr)@, old(arr)@),
        forall|k: int| 0 <= k < i || n <= k < final(arr)@.len() ==> final(arr)@[k] == old(arr)@[k],
        final(arr)@.subrange(0, n as int).to_multiset() == old(arr)@.subrange(0, n as int).to_multiset(),
    decreases n - i,
{
    if n == 0 {
        return;
    }
    let mut largest = i;
    let left = if i < n / 2 { 2 * i + 1 } else { n };
    let right = if left < n { left + 1 } else { n };
    if left < n && arr[left] > arr[largest] {
        largest = left;
    }
    if right < n && arr[right] > arr[largest] {
        largest = right;
    }
    if largest != i {
        let ghost before = arr@;
        swap_in_range(arr, i, largest, 0, n);
        proof {
            assert forall|j: int| 1 <= j < n && heap_parent(j) >= lo && heap_parent(j) != largest
                implies #[trigger] below_parent(arr@, j) by {
                if heap_parent(j) == i {
                } else if j == i {
                    assert(before[largest as int] <= before[heap_parent(i as int)]);
                } else {
                    assert(below_parent(before, j));
                }
            }
            assert forall|j: int| 1 <= j < n && heap_parent(j) == largest
                implies #[trigger] arr@[j] <= arr@[heap_parent(largest as int)] by {
                assert(below_parent(before, j));
            }
        }
        heapify(arr, n, largest, Ghost(lo));
    } else {
        assert forall|j: int| 1 <= j < n && heap_parent(j) >= lo implies #[trigger] below_parent(arr@, j) by {
            if heap_parent(j) == i {
                assert(j == left || j == right);
            }
        }
    }
}

// -----------------------------------------------------------------------------
// 7. Counting Sort
// -----------------------------------------------------------------------------
/// How many times `v` occurs in `s`.
pub open spec fn occ(s: Seq<usize>, v: int) -> nat
    decreases s.len(),
{
    if s.len() == 0 {
        0
    } else {
        occ(s.drop_last(), v) + if s.last() as int == v { 1nat } else { 0nat }
    }
}

/// How many elements of `s` are smaller than `v`.
spec fn below(s: Seq<usize>, v: int) -> nat
    decreases s.len(),
{
    if s.len() == 0 {
        0
    } else {
        below(s.drop_last(), v) + if (s.last() as int) < v { 1nat } else { 0nat }
    }
}

proof fn lemma_below_step(s: Seq<usize>, v: int)
    ensures
        below(s, v + 1) == below(s, v) + occ(s, v),
    decreases s.len(),
{
    if s.len() > 0 {
        lemma_below_step(s.drop_last(), v);
    }
}

proof fn lemma_below_monotone(s: Seq<usize>, a: int, b: int)
    requires
        a <= b,
    ensures
        below(s, a) <= below(s, b),
    decreases s.len(),
{
    if s.len() > 0 {
        lemma_below_monotone(s.drop_last(), a, b);
    }
}

/// `below` and `occ` count no more elements than there are.
proof fn lemma_counts_bounded(s: Seq<usize>, v: int)
    ensures
        below(s, v) <= s.len(),
        below(s, v) + occ(s, v) <= s.len(),
    decreases s.len(),
{
    if s.len() > 0 {
        lemma_counts_bounded(s.drop_last(), v);
    }
}

/// With every element in `[lo, hi]`, none is below `lo` and all are below `hi + 1`.
proof fn lemma_below_ends(s: Seq<usize>, lo: int, hi: int)
    requires
        forall|k: int| 0 <= k < s.len() ==> lo <= #[trigger] s[k] <= hi,
    ensures
        below(s, lo) == 0,
        below(s, hi + 1) == s.len(),
        forall|v: int| v < lo || hi < v ==> occ(s, v) == 0,
    decreases s.len(),
{
    if s.len() > 0 {
        let t = s.drop_last();
        assert forall|k: int| 0 <= k < t.len() implies lo <= #[trigger] t[k] <= hi by {
            assert(t[k] == s[k]);
        }
        lemma_below_ends(t, lo, hi);
        assert(lo <= s[s.len() - 1] <= hi);
        assert forall|v: int| v < lo || hi < v implies occ(s, v) == 0 by {
            assert(occ(t, v) == 0);
        }
    }
}

proof fn lemma_occ_take_step(s: Seq<usize>, k: int, v: int)
    requires
        0 <= k < s.len(),
    ensures
        occ(s.take(k + 1), v) == occ(s.take(k), v) + if s[k] as int == v { 1nat } else { 0nat },
{
    assert(s.take(k + 1).drop_last() =~= s.take(k));
}

proof fn lemma_occ_take_bounded(s: Seq<usize>, k: int, v: int)
    requires
        0 <= k <= s.len(),
    ensures
        occ(s.take(k), v) <= occ(s, v),
    decreases s.len() - k,
{
    if k < s.len() {
        lemma_occ_take_step(s, k, v);
        lemma_occ_take_bounded(s, k + 1, v);
    } else {
        assert(s.take(k) =~= s);
    }
}

/// The multiset of `s` counts `v` as often as `occ` does.
proof fn lemma_occ_multiset(s: Seq<usize>, v: usize)
    ensures
        s.to_multiset().count(v) == occ(s, v as int),
    decreases s.len(),
{
    broadcast use vstd::seq_lib::to_multiset_build;
    broadcast use vstd::multiset::group_multiset_axioms;
    if s.len() > 0 {
        lemma_occ_multiset(s.drop_last(), v);
        assert(s =~= s.drop_last().push(s.last()));
    } else {
        assert(s.to_multiset() =~= Multiset::empty());
    }
}

/// If `v` occurs in `s` exactly at the positions `[a, b)`, the first `k` elements hold
/// it as often as `[a, b)` and `[0, k)` overlap.
proof fn lemma_occ_range(s: Seq<usize>, v: int, a: int, b: int, k: int)
    requires
        0 <= a <= b <= s.len(),
        0 <= k <= s.len(),
        forall|p: int| 0 <= p < s.len() ==> (s[p] as int == v <==> a <= p < b),
    ensures
        occ(s.take(k), v) == (if k < a { a } else if k > b { b } else { k }) - a,
    decreases k,
{
    if k > 0 {
        lemma_occ_range(s, v, a, b, k - 1);
        lemma_occ_take_step(s, k - 1, v);
    } else {
        assert(s.take(0).len() == 0);
    }
}

/// Position `p` lies in the stretch that sorting gives to value `lo + i`: after every
/// smaller element and before every larger one.
spec fn in_stretch(s: Seq<usize>, lo: int, i: int, p: int) -> bool {
    below(s, lo + i) <= p < below(s, lo + i + 1)
}

/// A position below `below(s, lo + j)` and at or above `below(s, lo)` lies in the
/// stretch of some value `lo + i` with `i < j`.
proof fn lemma_cover(s: Seq<usize>, lo: int, j: int, p: int)
    requires
        j >= 1,
        below(s, lo) <= p < below(s, lo + j),
    ensures
        exists|i: int| 0 <= i < j && #[trigger] in_stretch(s, lo, i, p),
    decreases j,
{
    if below(s, lo + j - 1) <= p {
        assert(in_stretch(s, lo, j - 1, p));
    } else {
        lemma_cover(s, lo, j - 1, p);
        let i = choose|i: int| 0 <= i < j - 1 && #[trigger] in_stretch(s, lo, i, p);
        assert(in_stretch(s, lo, i, p));
    }
}

/// The smallest and the largest element of a non-empty slice.
fn min_max(arr: &[usize]) -> (r: (usize, usize))
    requires
        arr@.len() > 0,
    ensures
        forall|q: int| 0 <= q < arr@.len() ==> r.0 <= #[trigger] arr@[q] <= r.1,
        exists|q: int| 0 <= q < arr@.len() && arr@[q] == r.0,
        exists|q: int| 0 <= q < arr@.len() && arr@[q] == r.1,
{
    let n = arr.len();
    let mut mx = arr[0];
    let mut mn = arr[0];
    let mut k: usize = 1;
    while k < n
        invariant
            n == arr@.len(),
            1 <= k <= n,
            forall|q: int| 0 <= q < k ==> mn <= #[trigger] arr@[q] <= mx,
            exists|q: int| 0 <= q < n && arr@[q] == mx,
            exists|q: int| 0 <= q < n && arr@[q] == mn,
        decreases n - k,
    {
        if arr[k] > mx {
            mx = arr[k];
        }
        if arr[k] < mn {
            mn = arr[k];
        }
        k = k + 1;
    }
    (mn, mx)
}

/// `count[i]` becomes the number of elements `<= mn + i`.
fn count_up_to(arr: &[usize], mn: usize, mx: usize) -> (count: Vec<usize>)
    requires
        mn <= mx,
        mx - mn < usize::MAX,
        forall|q: int| 0 <= q < arr@.len() ==> mn <= #[trigger] arr@[q] <= mx,
    ensures
        count@.len() == mx - mn + 1,
        forall|j: int| 0 <= j < count@.len() ==> #[trigger] count@[j] == below(arr@, mn + j + 1),
{
    let ghost s = arr@;
    let n = arr.len();
    let range = mx - mn + 1;
    let mut count: Vec<usize> = vec![0; range];
    let mut k: usize = 0;
    while k < n
        invariant
            n == s.len(),
            s == arr@,
            k <= n,
            count@.len() == range,
            range == mx - mn + 1,
            forall|q: int| 0 <= q < n ==> mn <= #[trigger] s[q] <= mx,
            forall|i: int| 0 <= i < range ==> #[trigger] count@[i] == occ(s.take(k as int), mn + i),
        decreases n - k,
    {
        let idx = arr[k] - mn;
        proof {
            lemma_counts_bounded(s.take(k as int), mn + idx);
        }
        count.set(idx, count[idx] + 1);
        proof {
            assert forall|i: int| 0 <= i < range implies #[trigger] count@[i] == occ(
                s.take(k + 1),
                mn + i,
            ) by {
                lemma_occ_take_step(s, k as int, mn + i);
            }
        }
        k = k + 1;
    }
    proof {
        assert(s.take(n as int) =~= s);
        lemma_below_ends(s, mn as int, mx as int);
        lemma_below_step(s, mn as int);
    }
    let mut i: usize = 1;
    while i < range
        invariant
            s == arr@,
            n == s.len(),
            1 <= i <= range,
            count@.len() == range,
            forall|j: int| 0 <= j < i ==> #[trigger] count@[j] == below(s, mn + j + 1),
            forall|j: int| i <= j < range ==> #[trigger] count@[j] == occ(s, mn + j),
        decreases range - i,
    {
        proof {
            lemma_below_step(s, mn + i);
            lemma_counts_bounded(s, mn + i);
            assert(count@[i - 1] == below(s, mn + i));
        }
        count.set(i, count[i] + count[i - 1]);
        i = i + 1;
    }
    count
}

/// Places each element, scanning from the back, at the last free position of its
/// value's stretch.
fn place(arr: &[usize], count: &mut Vec<usize>, mn: usize, mx: usize) -> (output: Vec<usize>)
    requires
        mn <= mx,
        mx - mn < usize::MAX,
        forall|q: int| 0 <= q < arr@.len() ==> mn <= #[trigger] arr@[q] <= mx,
        old(count)@.len() == mx - mn + 1,
        forall|j: int| 0 <= j < old(count)@.len() ==> #[trigger] old(count)@[j] == below(arr@, mn + j + 1),
    ensures
        output@.len() == arr@.len(),
        forall|j: int, p: int|
            #![trigger in_stretch(arr@, mn as int, j, p)]
            0 <= j < mx - mn + 1 && in_stretch(arr@, mn as int, j, p) ==> output@[p] == mn + j,
{
    let ghost s = arr@;
    let n = arr.len();
    let range = mx - mn + 1;
    proof {
        assert(s.take(n as int) =~= s);
        assert forall|j: int| 0 <= j < range implies #[trigger] count@[j] == below(s, mn + j) + occ(
            s.take(n as int),
            mn + j,
        ) by {
            lemma_below_step(s, mn + j);
        }
    }
    let mut output: Vec<usize> = vec![0; n];
    let mut k: usize = n;
    while k > 0
        invariant
            s == arr@,
            n == s.len(),
            k <= n,
            output@.len() == n,
            count@.len() == range,
            range == mx - mn + 1,
            forall|q: int| 0 <= q < n ==> mn <= #[trigger] s[q] <= mx,
            forall|j: int| 0 <= j < range ==> #[trigger] count@[j] == below(s, mn + j) + occ(
                s.take(k as int),
                mn + j,
            ),
            forall|j: int, p: int|
                #![trigger count@[j], output@[p]]
                0 <= j < range && count@[j] <= p < below(s, mn + j) + occ(s, mn + j) ==> output@[p]
                    == mn + j,
        decreases k,
    {
        let x = arr[k - 1];
        let idx = x - mn;
        let ghost before = output@;
        let ghost cnt = count@;
        proof {
            lemma_occ_take_step(s, k - 1, x as int);
            lemma_occ_take_bounded(s, k as int, x as int);
            lemma_counts_bounded(s, x as int);
            assert(mn + idx == x);
            assert(count@[idx as int] == below(s, mn + idx) + occ(s.take(k as int), mn + idx));
        }
        let slot = count[idx] - 1;
        count.set(idx, slot);
        output.set(slot, x);
        proof {
            assert forall|j: int| 0 <= j < range implies #[trigger] count@[j] == below(s, mn + j) + occ(
                s.take(k - 1),
                mn + j,
            ) by {
                lemma_occ_take_step(s, k - 1, mn + j);
            }
            assert forall|j: int, p: int|
                #![trigger count@[j], output@[p]]
                0 <= j < range && count@[j] <= p < below(s, mn + j) + occ(s, mn + j) implies output@[p]
                    == mn + j by {
                lemma_occ_take_step(s, k - 1, mn + j);
                lemma_counts_bounded(s, mn + j);
                if p != slot {
                    assert(cnt[j] <= p);
                    assert(before[p] == mn + j);
                } else if j != idx {
                    lemma_occ_take_bounded(s, k - 1, x as int);
                    if j < idx {
                        lemma_below_step(s, mn + j);
                        lemma_below_monotone(s, mn + j + 1, x as int);
                    } else {
                        lemma_below_step(s, x as int);
                        lemma_below_monotone(s, x + 1, mn + j);
                    }
                }
            }
        }
        k = k - 1;
    }
    proof {
        assert forall|j: int, p: int|
            #![trigger in_stretch(arr@, mn as int, j, p)]
            0 <= j < range && in_stretch(arr@, mn as int, j, p) implies output@[p] == mn + j by {
            assert(s.take(0).len() == 0);
            assert(count@[j] == below(s, mn + j));
            lemma_below_step(s, mn + j);
        }
    }
    output
}

/// Each position of a counting-sort output lies in the stretch of the value it holds.
proof fn lemma_stretch_of(s: Seq<usize>, out: Seq<usize>, mn: int, mx: int, p: int) -> (j: int)
    requires
        mn <= mx,
        out.len() == s.len(),
        0 <= p < s.len(),
        forall|q: int| 0 <= q < s.len() ==> mn <= #[trigger] s[q] <= mx,
        forall|j: int, p: int|
            #![trigger in_stretch(s, mn, j, p)]
            0 <= j < mx - mn + 1 && in_stretch(s, mn, j, p) ==> out[p] == mn + j,
    ensures
        0 <= j < mx - mn + 1,
        in_stretch(s, mn, j, p),
        out[p] == mn + j,
{
    lemma_below_ends(s, mn, mx);
    lemma_cover(s, mn, mx - mn + 1, p);
    let j = choose|j: int| 0 <= j < mx - mn + 1 && #[trigger] in_stretch(s, mn, j, p);
    j
}

/// Sorts by counting how often each value between the smallest and the largest occurs,
/// then placing each element after all smaller ones, scanning from the back.
pub fn counting_sort(arr: &[usize]) -> (r: Vec<usize>)
    requires
        forall|i: int, j: int| 0 <= i < arr@.len() && 0 <= j < arr@.len() ==> arr@[i] - arr@[j] < usize::MAX,
    ensures
        r@.len() == arr@.len(),
        forall|i: int, j: int| 0 <= i <= j < r@.len() ==> r@[i] <= r@[j],
        r@.to_multiset() == arr@.to_multiset(),
{
    if arr.len() == 0 {
        proof {
            assert(arr@ =~= Seq::<usize>::empty());
        }
        return Vec::new();
    }
    let (mn, mx) = min_max(arr);
    proof {
        let a = choose|q: int| 0 <= q < arr@.len() && arr@[q] == mx;
        let b = choose|q: int| 0 <= q < arr@.len() && arr@[q] == mn;
        assert(arr@[a] - arr@[b] < usize::MAX);
    }
    let mut count = count_up_to(arr, mn, mx);
    let output = place(arr, &mut count, mn, mx);
    proof {
        let s = arr@;
        let n = s.len() as int;
        let lo = mn as int;
        let hi = mx as int;
        lemma_below_ends(s, lo, hi);
        assert forall|a: int, b: int| 0 <= a <= b < n implies output@[a] <= output@[b] by {
            let ja = lemma_stretch_of(s, output@, lo, hi, a);
            let jb = lemma_stretch_of(s, output@, lo, hi, b);
            if jb < ja {
                lemma_below_monotone(s, lo + jb + 1, lo + ja);
            }
        }
        assert forall|v: usize| output@.to_multiset().count(v) == s.to_multiset().count(v) by {
            lemma_occ_multiset(output@, v);
            lemma_occ_multiset(s, v);
            if mn <= v <= mx {
                let j = v - lo;
                lemma_below_step(s, v as int);
                lemma_counts_bounded(s, v as int);
                assert forall|p: int| 0 <= p < n implies (output@[p] as int == v <==> below(s, v as int)
                    <= p < below(s, v + 1)) by {
                    let jp = lemma_stretch_of(s, output@, lo, hi, p);
                    if jp < j {
                        lemma_below_monotone(s, lo + jp + 1, v as int);
                    } else if jp > j {
                        lemma_below_monotone(s, v + 1, lo + jp);
                    }
                }
                lemma_occ_range(output@, v as int, below(s, v as int) as int, below(s, v + 1) as int, n);
            } else {
                assert forall|p: int| 0 <= p < n implies (output@[p] as int == v <==> 0 <= p < 0) by {
                    let jp = lemma_stretch_of(s, output@, lo, hi, p);
                }
                lemma_occ_range(output@, v as int, 0, 0, n);
            }
            assert(output@.take(n) =~= output@);
        }
        assert(output@.to_multiset() =~= s.to_multiset());
    }
    output
}

// -----------------------------------------------------------------------------
// 8. Radix Sort (LSD)
// -----------------------------------------------------------------------------
/// The decimal digit of `x` that weighs `e`.
spec fn digit(x: u32, e: int) -> int {
    (x as int / e) % 10
}

/// `s` is in non-decreasing order of the remainder modulo `m`.
spec fn sorted_mod(s: Seq<u32>, m: int) -> bool {
    forall|i: int, j: int| 0 <= i <= j < s.len() ==> (s[i] as int) % m <= (s[j] as int) % m
}

/// The elements of `s` whose digit of weight `e` is `d`, in their order in `s`.
spec fn with_digit(s: Seq<u32>, e: int, d: int) -> Seq<u32>
    decreases s.len(),
{
    if s.len() == 0 {
        Seq::empty()
    } else {
        with_digit(s.drop_last(), e, d) + if digit(s.last(), e) == d {
            seq![s.last()]
        } else {
            Seq::<u32>::empty()
        }
    }
}

/// The elements of `s` with digits `0 .. d` (weight `e`): those with digit 0 first,
/// then those with digit 1, and so on, each group in its order in `s`.
spec fn by_digit(s: Seq<u32>, e: int, d: int) -> Seq<u32>
    decreases d,
{
    if d <= 0 {
        Seq::empty()
    } else {
        by_digit(s, e, d - 1) + with_digit(s, e, d - 1)
    }
}

/// How many elements of `s` have a digit below `d`.
spec fn digit_below(s: Seq<u32>, e: int, d: int) -> nat {
    by_digit(s, e, d).len()
}

/// Where the pass puts `s[q]`: after every element with a smaller digit and after the
/// earlier elements with the same digit.
spec fn target(s: Seq<u32>, e: int, q: int) -> int {
    (digit_below(s, e, digit(s[q], e)) + with_digit(s.take(q), e, digit(s[q], e)).len()) as int
}

proof fn lemma_digit_range(x: u32, e: int)
    requires
        e > 0,
    ensures
        0 <= digit(x, e) < 10,
{
}

proof fn lemma_with_digit_take_step(s: Seq<u32>, e: int, d: int, q: int)
    requires
        0 <= q < s.len(),
    ensures
        with_digit(s.take(q + 1), e, d) == with_digit(s.take(q), e, d) + if digit(s[q], e) == d {
            seq![s[q]]
        } else {
            Seq::<u32>::empty()
        },
{
    assert(s.take(q + 1).drop_last() =~= s.take(q));
}

proof fn lemma_with_digit_take_len(s: Seq<u32>, e: int, d: int, q: int)
    requires
        0 <= q <= s.len(),
    ensures
        with_digit(s.take(q), e, d).len() <= with_digit(s, e, d).len(),
    decreases s.len() - q,
{
    if q < s.len() {
        lemma_with_digit_take_step(s, e, d, q);
        lemma_with_digit_take_len(s, e, d, q + 1);
    } else {
        assert(s.take(q) =~= s);
    }
}

/// The group of digit `d` holds `s[q]` at the position given by the earlier members.
proof fn lemma_with_digit_index(s: Seq<u32>, e: int, q: int)
    requires
        0 <= q < s.len(),
    ensures
        with_digit(s.take(q), e, digit(s[q], e)).len() < with_digit(s, e, digit(s[q], e)).len(),
        with_digit(s, e, digit(s[q], e))[with_digit(s.take(q), e, digit(s[q], e)).len() as int] == s[q],
    decreases s.len(),
{
    let d = digit(s[q], e);
    if q == s.len() - 1 {
        assert(s.drop_last() =~= s.take(q));
    } else {
        let t = s.drop_last();
        assert(t[q] == s[q]);
        assert(t.take(q) =~= s.take(q));
        lemma_with_digit_index(t, e, q);
    }
}

/// Each position of the group of digit `d` is reached from some element of `s`.
proof fn lemma_with_digit_hit(s: Seq<u32>, e: int, d: int, i: int, m: int)
    requires
        0 <= m <= s.len(),
        0 <= i < with_digit(s.take(m), e, d).len(),
    ensures
        exists|q: int| 0 <= q < m && digit(s[q], e) == d && #[trigger] with_digit(s.take(q), e, d).len() == i,
    decreases m,
{
    lemma_with_digit_take_step(s, e, d, m - 1);
    if with_digit(s.take(m - 1), e, d).len() <= i {
        assert(digit(s[m - 1], e) == d && with_digit(s.take(m - 1), e, d).len() == i);
    } else {
        lemma_with_digit_hit(s, e, d, i, m - 1);
    }
}

/// The groups laid out one after another: the group of digit `d` starts where the
/// smaller digits end.
proof fn lemma_by_digit_index(s: Seq<u32>, e: int, d: int, k: int, p: int)
    requires
        0 <= k < d,
        digit_below(s, e, k) <= p < digit_below(s, e, k + 1),
    ensures
        digit_below(s, e, k + 1) <= digit_below(s, e, d),
        by_digit(s, e, d)[p] == with_digit(s, e, k)[p - digit_below(s, e, k)],
    decreases d,
{
    if k < d - 1 {
        lemma_by_digit_index(s, e, d - 1, k, p);
    }
}

proof fn lemma_digit_below_monotone(s: Seq<u32>, e: int, a: int, b: int)
    requires
        0 <= a <= b,
    ensures
        digit_below(s, e, a) <= digit_below(s, e, b),
    decreases b,
{
    if a < b {
        lemma_digit_below_monotone(s, e, a, b - 1);
    }
}

/// Every position of `by_digit(s, e, 10)` lies in the group of one digit.
proof fn lemma_digit_group_of(s: Seq<u32>, e: int, p: int, d: int) -> (k: int)
    requires
        0 <= p < digit_below(s, e, d),
        d >= 1,
    ensures
        0 <= k < d,
        digit_below(s, e, k) <= p < digit_below(s, e, k + 1),
    decreases d,
{
    if digit_below(s, e, d - 1) <= p {
        d - 1
    } else {
        lemma_digit_group_of(s, e, p, d - 1)
    }
}

proof fn lemma_by_digit_empty(s: Seq<u32>, e: int, d: int)
    requires
        s.len() == 0,
    ensures
        by_digit(s, e, d) =~= Seq::<u32>::empty(),
    decreases d,
{
    if d > 0 {
        lemma_by_digit_empty(s, e, d - 1);
    }
}

/// Appending `x` adds it to the groups exactly when its digit is below `d`.
proof fn lemma_by_digit_push(t: Seq<u32>, x: u32, e: int, d: int)
    ensures
        by_digit(t.push(x), e, d).to_multiset() == if digit(x, e) < d {
            by_digit(t, e, d).to_multiset().insert(x)
        } else {
            by_digit(t, e, d).to_multiset()
        },
    decreases d,
{
    broadcast use vstd::seq_lib::lemma_multiset_commutative;
    broadcast use vstd::multiset::group_multiset_axioms;
    broadcast use vstd::seq_lib::to_multiset_build;
    if d > 0 {
        lemma_by_digit_push(t, x, e, d - 1);
        let s = t.push(x);
        assert(s.drop_last() =~= t);
        if digit(x, e) == d - 1 {
            assert(with_digit(s, e, d - 1) =~= with_digit(t, e, d - 1).push(x));
        } else {
            assert(with_digit(s, e, d - 1) =~= with_digit(t, e, d - 1));
        }
    }
}

/// Every element of a digit group comes from `s`, no later than the last element.
proof fn lemma_with_digit_from(s: Seq<u32>, e: int, d: int, i: int)
    requires
        0 <= i < with_digit(s, e, d).len(),
    ensures
        exists|q: int| 0 <= q < s.len() && s[q] == #[trigger] with_digit(s, e, d)[i] && digit(s[q], e) == d,
    decreases s.len(),
{
    let t = s.drop_last();
    if i < with_digit(t, e, d).len() {
        lemma_with_digit_from(t, e, d, i);
        let q = choose|q: int| 0 <= q < t.len() && t[q] == #[trigger] with_digit(t, e, d)[i] && digit(t[q], e) == d;
        assert(s[q] == t[q]);
    } else {
        assert(with_digit(s, e, d)[i] == s.last());
    }
}

/// A digit group of a sequence sorted modulo `e` is sorted modulo `e` too.
proof fn lemma_with_digit_sorted(s: Seq<u32>, e: int, d: int)
    requires
        e > 0,
        sorted_mod(s, e),
    ensures
        sorted_mod(with_digit(s, e, d), e),
    decreases s.len(),
{
    if s.len() > 0 {
        let t = s.drop_last();
        assert(sorted_mod(t, e));
        lemma_with_digit_sorted(t, e, d);
        let w = with_digit(s, e, d);
        let wt = with_digit(t, e, d);
        assert forall|i: int, j: int| 0 <= i <= j < w.len() implies (w[i] as int) % e <= (w[j] as int) % e by {
            if j >= wt.len() {
                if i < wt.len() {
                    lemma_with_digit_from(t, e, d, i);
                    let q = choose|q: int| 0 <= q < t.len() && t[q] == #[trigger] wt[i] && digit(t[q], e) == d;
                    assert(s[q] == t[q]);
                    assert(w[j] == s[s.len() - 1]);
                }
            }
        }
    }
}

/// Ordering the groups by digit turns order modulo `e` into order modulo `10 * e`.
proof fn lemma_by_digit_sorted(s: Seq<u32>, e: int)
    requires
        e > 0,
        sorted_mod(s, e),
    ensures
        sorted_mod(by_digit(s, e, 10), e * 10),
{
    let b = by_digit(s, e, 10);
    assert forall|i: int, j: int| 0 <= i <= j < b.len() implies (b[i] as int) % (e * 10) <= (b[j] as int) % (e * 10) by {
        let ki = lemma_digit_group_of(s, e, i, 10);
        let kj = lemma_digit_group_of(s, e, j, 10);
        lemma_by_digit_index(s, e, 10, ki, i);
        lemma_by_digit_index(s, e, 10, kj, j);
        let wi = with_digit(s, e, ki);
        let wj = with_digit(s, e, kj);
        let ii = i - digit_below(s, e, ki);
        let jj = j - digit_below(s, e, kj);
        lemma_with_digit_from(s, e, ki, ii);
        lemma_with_digit_from(s, e, kj, jj);
        vstd::arithmetic::div_mod::lemma_mod_breakdown(b[i] as int, e, 10);
        vstd::arithmetic::div_mod::lemma_mod_breakdown(b[j] as int, e, 10);
        let qi = choose|q: int| 0 <= q < s.len() && s[q] == #[trigger] wi[ii] && digit(s[q], e) == ki;
        let qj = choose|q: int| 0 <= q < s.len() && s[q] == #[trigger] wj[jj] && digit(s[q], e) == kj;
        if ki == kj {
            lemma_with_digit_sorted(s, e, ki);
        } else if kj < ki {
            lemma_digit_below_monotone(s, e, kj + 1, ki);
        } else {
            let xi = b[i] as int;
            let xj = b[j] as int;
            assert(xi % e < e && xj % e >= 0);
            assert(e * ki + xi % e < e * kj + xj % e) by (nonlinear_arith)
                requires
                    ki < kj,
                    0 <= xi % e < e,
                    0 <= xj % e,
                    e > 0,
            ;
        }
    }
}

/// One pass of radix sort on the digit of weight `exp`: counts the digits, turns the
/// counts into end positions, and places the elements from the back into `buffer`.
fn radix_pass(arr: &[u32], buffer: &mut Vec<u32>, exp: u32)
    requires
        exp > 0,
        old(buffer)@.len() == arr@.len(),
    ensures
        final(buffer)@ == by_digit(arr@, exp as int, 10),
{
    let ghost s = arr@;
    let ghost e = exp as int;
    let n = arr.len();
    let mut count: Vec<usize> = vec![0; 10];
    let mut k: usize = 0;
    while k < n
        invariant
            s == arr@,
            n == s.len(),
            k <= n,
            e == exp as int,
            exp > 0,
            count@.len() == 10,
            forall|d: int| 0 <= d < 10 ==> #[trigger] count@[d] == with_digit(s.take(k as int), e, d).len(),
        decreases n - k,
    {
        let digit_k = ((arr[k] / exp) % 10) as usize;
        proof {
            assert(digit_k == digit(s[k as int], e));
            lemma_with_digit_take_len(s.take(k + 1), e, digit_k as int, k as int);
            lemma_with_digit_take_step(s, e, digit_k as int, k as int);
            assert(with_digit(s.take(k as int), e, digit_k as int).len() <= k) by {
                lemma_with_digit_len_bound(s.take(k as int), e, digit_k as int);
            }
        }
        count.set(digit_k, count[digit_k] + 1);
        proof {
            assert forall|d: int| 0 <= d < 10 implies #[trigger] count@[d] == with_digit(s.take(k + 1), e, d).len() by {
                lemma_with_digit_take_step(s, e, d, k as int);
            }
        }
        k = k + 1;
    }
    proof {
        assert(s.take(n as int) =~= s);
        lemma_by_digit_all(s, e);
    }
    proof {
        assert(by_digit(s, e, 0) =~= Seq::<u32>::empty());
        assert(digit_below(s, e, 1) == with_digit(s, e, 0).len());
    }
    let mut i: usize = 1;
    while i < 10
        invariant
            s == arr@,
            n == s.len(),
            1 <= i <= 10,
            e == exp as int,
            count@.len() == 10,
            digit_below(s, e, 10) <= n,
            forall|d: int| 0 <= d < i ==> #[trigger] count@[d] == digit_below(s, e, d + 1),
            forall|d: int| i <= d < 10 ==> #[trigger] count@[d] == with_digit(s, e, d).len(),
        decreases 10 - i,
    {
        proof {
            lemma_digit_below_monotone(s, e, i + 1, 10);
        }
        count.set(i, count[i] + count[i - 1]);
        i = i + 1;
    }
    let mut k: usize = n;
    proof {
        lemma_by_digit_all(s, e);
        assert(s.take(n as int) =~= s);
    }
    while k > 0
        invariant
            s == arr@,
            n == s.len(),
            k <= n,
            e == exp as int,
            exp > 0,
            count@.len() == 10,
            buffer@.len() == n,
            digit_below(s, e, 10) == n,
            forall|d: int| 0 <= d < 10 ==> #[trigger] count@[d] == digit_below(s, e, d) + with_digit(
                s.take(k as int),
                e,
                d,
            ).len(),
            forall|q: int| k <= q < n ==> #[trigger] buffer@[target(s, e, q)] == s[q],
        decreases k,
    {
        let x = arr[k - 1];
        let d = ((x / exp) % 10) as usize;
        let ghost before = buffer@;
        proof {
            assert(d == digit(s[k - 1], e));
            lemma_with_digit_take_step(s, e, d as int, k - 1);
            lemma_with_digit_take_len(s, e, d as int, k as int);
            lemma_digit_below_monotone(s, e, d + 1, 10);
        }
        let slot = count[d] - 1;
        count.set(d, slot);
        buffer.set(slot, x);
        proof {
            assert(slot == target(s, e, k - 1));
            assert forall|dd: int| 0 <= dd < 10 implies #[trigger] count@[dd] == digit_below(s, e, dd) + with_digit(
                s.take(k - 1),
                e,
                dd,
            ).len() by {
                lemma_with_digit_take_step(s, e, dd, k - 1);
            }
            assert forall|q: int| k - 1 <= q < n implies #[trigger] buffer@[target(s, e, q)] == s[q] by {
                if q >= k {
                    let dq = digit(s[q], e);
                    lemma_digit_range(s[q], e);
                    lemma_with_digit_index(s, e, q);
                    lemma_with_digit_index(s, e, k - 1);
                    lemma_digit_below_monotone(s, e, dq + 1, 10);
                    if dq == d {
                        lemma_with_digit_prefix_grows(s, e, dq, k - 1, q);
                    } else if dq < d {
                        lemma_digit_below_monotone(s, e, dq + 1, d as int);
                    } else {
                        lemma_digit_below_monotone(s, e, d + 1, dq);
                    }
                    assert(target(s, e, q) != slot);
                    assert(before[target(s, e, q)] == s[q]);
                }
            }
        }
        k = k - 1;
    }
    proof {
        let b = by_digit(s, e, 10);
        assert forall|p: int| 0 <= p < n implies buffer@[p] == b[p] by {
            let dk = lemma_digit_group_of(s, e, p, 10);
            lemma_by_digit_index(s, e, 10, dk, p);
            let i = p - digit_below(s, e, dk);
            assert(s.take(n as int) =~= s);
            lemma_with_digit_hit(s, e, dk, i, n as int);
            let q = choose|q: int| 0 <= q < n && digit(s[q], e) == dk && #[trigger] with_digit(s.take(q), e, dk).len() == i;
            lemma_with_digit_index(s, e, q);
            assert(target(s, e, q) == p);
            assert(buffer@[target(s, e, q)] == s[q]);
        }
        assert(buffer@ =~= b);
    }
}

proof fn lemma_with_digit_len_bound(s: Seq<u32>, e: int, d: int)
    ensures
        with_digit(s, e, d).len() <= s.len(),
    decreases s.len(),
{
    if s.len() > 0 {
        lemma_with_digit_len_bound(s.drop_last(), e, d);
    }
}

/// All elements have a digit below 10, so the ten groups hold all of `s`.
proof fn lemma_by_digit_all(s: Seq<u32>, e: int)
    requires
        e > 0,
    ensures
        digit_below(s, e, 10) == s.len(),
        by_digit(s, e, 10).to_multiset() == s.to_multiset(),
    decreases s.len(),
{
    broadcast use vstd::seq_lib::to_multiset_build;
    broadcast use vstd::seq_lib::to_multiset_len;
    if s.len() == 0 {
        lemma_by_digit_empty(s, e, 10);
        assert(s =~= Seq::<u32>::empty());
    } else {
        let t = s.drop_last();
        let x = s.last();
        lemma_by_digit_all(t, e);
        lemma_digit_range(x, e);
        lemma_by_digit_push(t, x, e, 10);
        assert(s =~= t.push(x));
    }
    assert(by_digit(s, e, 10).to_multiset().len() == by_digit(s, e, 10).len());
    assert(s.to_multiset().len() == s.len());
}

/// Later elements with the same digit come later in its group.
proof fn lemma_with_digit_prefix_grows(s: Seq<u32>, e: int, d: int, a: int, b: int)
    requires
        0 <= a < b <= s.len(),
        digit(s[a], e) == d,
    ensures
        with_digit(s.take(a), e, d).len() < with_digit(s.take(b), e, d).len(),
    decreases b - a,
{
    lemma_with_digit_take_step(s, e, d, a);
    if b > a + 1 {
        lemma_with_digit_take_grows(s, e, d, a + 1, b);
    }
}

proof fn lemma_with_digit_take_grows(s: Seq<u32>, e: int, d: int, a: int, b: int)
    requires
        0 <= a <= b <= s.len(),
    ensures
        with_digit(s.take(a), e, d).len() <= with_digit(s.take(b), e, d).len(),
    decreases b - a,
{
    if a < b {
        lemma_with_digit_take_step(s, e, d, b - 1);
        lemma_with_digit_take_grows(s, e, d, a, b - 1);
    }
}

/// Least-significant-digit radix sort: one stable pass per decimal digit of the
/// largest element.
pub fn radix_sort(arr: &mut [u32])
    requires
        forall|i: int| 0 <= i < old(arr)@.len() ==> old(arr)@[i] < 1_000_000_000,
    ensures
        final(arr)@.len() == old(arr)@.len(),
        forall|i: int, j: int| 0 <= i <= j < final(arr)@.len() ==> final(arr)@[i] <= final(arr)@[j],
        final(arr)@.to_multiset() == old(arr)@.to_multiset(),
{
    let n = arr.len();
    if n <= 1 {
        return;
    }
    let mut max: u32 = 0;
    let mut k: usize = 0;
    while k < n
        invariant
            n == arr@.len(),
            k <= n,
            arr@ == old(arr)@,
            max < 1_000_000_000,
            forall|q: int| 0 <= q < k ==> #[trigger] arr@[q] <= max,
            forall|i: int| 0 <= i < n ==> #[trigger] old(arr)@[i] < 1_000_000_000,
        decreases n - k,
    {
        if arr[k] > max {
            max = arr[k];
        }
        k = k + 1;
    }
    let mut exp: u32 = 1;
    let mut buffer: Vec<u32> = vec![0; n];
    while max / exp > 0
        invariant
            n == arr@.len(),
            buffer@.len() == n,
            max < 1_000_000_000,
            exp == 1 || exp == 10 || exp == 100 || exp == 1_000 || exp == 10_000 || exp == 100_000
                || exp == 1_000_000 || exp == 10_000_000 || exp == 100_000_000 || exp == 1_000_000_000,
            forall|q: int| 0 <= q < n ==> #[trigger] arr@[q] <= max,
            sorted_mod(arr@, exp as int),
            arr@.to_multiset() == old(arr)@.to_multiset(),
        decreases 1_000_000_000 - exp,
    {
        let ghost s = arr@;
        radix_pass(arr, &mut buffer, exp);
        proof {
            lemma_by_digit_all(s, exp as int);
            assert(exp <= max) by (nonlinear_arith)
                requires
                    max / exp > 0,
                    exp > 0,
            ;
        }
        let mut q: usize = 0;
        while q < n
            invariant
                n == arr@.len(),
                buffer@.len() == n,
                q <= n,
                forall|p: int| 0 <= p < q ==> arr@[p] == buffer@[p],
            decreases n - q,
        {
            arr[q] = buffer[q];
            q = q + 1;
        }
        proof {
            assert(arr@ =~= buffer@);
            lemma_by_digit_all(s, exp as int);
            lemma_by_digit_sorted(s, exp as int);
            assert forall|p: int| 0 <= p < n implies #[trigger] arr@[p] <= max by {
                assert(arr@.to_multiset().count(arr@[p]) > 0);
                assert(s.to_multiset().count(arr@[p]) > 0);
                assert(s.contains(arr@[p]));
            }
        }
        exp = exp * 10;
    }
    proof {
        assert(max < exp) by (nonlinear_arith)
            requires
                max / exp == 0,
                exp > 0,
        ;
        assert forall|i: int, j: int| 0 <= i <= j < n implies arr@[i] <= arr@[j] by {
            assert(arr@[i] <= max && arr@[j] <= max);
            vstd::arithmetic::div_mod::lemma_small_mod(arr@[i] as nat, exp as nat);
            vstd::arithmetic::div_mod::lemma_small_mod(arr@[j] as nat, exp as nat);
        }
    }
}

// -----------------------------------------------------------------------------
// 9. Tim Sort (simplified: sorted runs of MIN_RUN, then pairwise merges)
// -----------------------------------------------------------------------------
/// The length of the runs that insertion sort prepares before merging.
pub const MIN_RUN: usize = 32;

/// The block of width `w` numbered `b`, that is `s[b*w .. min(b*w + w, len))`, is sorted.
spec fn block_sorted(s: Seq<i32>, w: int, b: int) -> bool {
    sorted_between(s, b * w, if b * w + w < s.len() { b * w + w } else { s.len() as int })
}

/// Every block of width `w` that starts inside `s` is sorted.
spec fn blocks_sorted(s: Seq<i32>, w: int) -> bool {
    forall|b: int| 0 <= b && b * w < s.len() ==> #[trigger] block_sorted(s, w, b)
}

/// Replacing a range by a rearrangement of itself keeps the multiset of the whole.
proof fn lemma_range_keeps_multiset(before: Seq<i32>, after: Seq<i32>, lo: int, hi: int)
    requires
        0 <= lo <= hi <= before.len(),
        after.len() == before.len(),
        after.subrange(lo, hi).to_multiset() == before.subrange(lo, hi).to_multiset(),
        forall|k: int| 0 <= k < lo || hi <= k < before.len() ==> after[k] == before[k],
    ensures
        after.to_multiset() == before.to_multiset(),
{
    broadcast use vstd::seq_lib::lemma_multiset_commutative;
    let n = before.len() as int;
    assert(before =~= before.subrange(0, lo) + before.subrange(lo, hi) + before.subrange(hi, n));
    assert(after =~= after.subrange(0, lo) + after.subrange(lo, hi) + after.subrange(hi, n));
    assert(after.subrange(0, lo) =~= before.subrange(0, lo));
    assert(after.subrange(hi, n) =~= before.subrange(hi, n));
}

/// A sorted range whose elements did not change stays sorted.
proof fn lemma_sorted_unchanged(before: Seq<i32>, after: Seq<i32>, lo: int, hi: int)
    requires
        sorted_between(before, lo, hi),
        forall|k: int| lo <= k < hi ==> after[k] == before[k],
    ensures
        sorted_between(after, lo, hi),
{
}

/// Insertion sort of `arr[start..end)`.
fn insertion_sort_range(arr: &mut Vec<i32>, start: usize, end: usize)
    requires
        start < end <= old(arr)@.len(),
    ensures
        final(arr)@.len() == old(arr)@.len(),
        sorted_between(final(arr)@, start as int, end as int),
        final(arr)@.to_multiset() == old(arr)@.to_multiset(),
        forall|k: int| 0 <= k < start || end <= k < final(arr)@.len() ==> final(arr)@[k] == old(arr)@[k],
{
    let n = arr.len();
    let mut i: usize = start + 1;
    while i < end
        invariant
            n == arr@.len(),
            start < i <= end <= n,
            arr@.to_multiset() == old(arr)@.to_multiset(),
            sorted_between(arr@, start as int, i as int),
            forall|k: int| 0 <= k < start || end <= k < n ==> arr@[k] == old(arr)@[k],
        decreases end - i,
    {
        let mut j = i;
        while j > start && arr[j] < arr[j - 1]
            invariant
                n == arr@.len(),
                start <= j <= i < end <= n,
                arr@.to_multiset() == old(arr)@.to_multiset(),
                sorted_between(arr@, start as int, j as int),
                sorted_between(arr@, j as int, i + 1),
                start < j < i ==> arr@[j - 1] <= arr@[j + 1],
                forall|k: int| 0 <= k < start || end <= k < n ==> arr@[k] == old(arr)@[k],
            decreases j,
        {
            swap(arr, j, j - 1);
            j = j - 1;
        }
        i = i + 1;
    }
}

/// Merges the sorted runs `arr[left..mid)` and `arr[mid..right)` into `arr[left..right)`.
fn merge_runs(arr: &mut Vec<i32>, left: usize, mid: usize, right: usize)
    requires
        left <= mid <= right <= old(arr)@.len(),
        sorted_between(old(arr)@, left as int, mid as int),
        sorted_between(old(arr)@, mid as int, right as int),
    ensures
        final(arr)@.len() == old(arr)@.len(),
        sorted_between(final(arr)@, left as int, right as int),
        final(arr)@.to_multiset() == old(arr)@.to_multiset(),
        forall|k: int| 0 <= k < left || right <= k < final(arr)@.len() ==> final(arr)@[k] == old(arr)@[k],
{
    let left_part = copy_range(arr, left, mid);
    let right_part = copy_range(arr, mid, right);
    proof {
        broadcast use vstd::seq_lib::lemma_multiset_commutative;
        assert(old(arr)@.subrange(left as int, right as int) =~= left_part@ + right_part@);
    }
    merge_into(arr, left, &left_part, &right_part);
    proof {
        lemma_range_keeps_multiset(old(arr)@, arr@, left as int, right as int);
    }
}

/// Sorts runs of `MIN_RUN` elements by insertion, then merges neighbouring runs,
/// doubling their width until one run covers the whole vector.
pub fn tim_sort(arr: &mut Vec<i32>)
    ensures
        sorted(final(arr)@),
        permutation_of(final(arr)@, old(arr)@),
{
    let n = arr.len();
    if n <= 1 {
        return;
    }
    let mut i: usize = 0;
    let ghost mut runs: int = 0;
    while i < n
        invariant
            n == arr@.len(),
            i <= n,
            i == n || i == MIN_RUN * runs,
            i == n ==> n <= MIN_RUN * runs,
            runs >= 0,
            arr@.to_multiset() == old(arr)@.to_multiset(),
            forall|b: int| 0 <= b < runs ==> #[trigger] block_sorted(arr@, MIN_RUN as int, b),
            forall|k: int| i <= k < n ==> arr@[k] == old(arr)@[k],
        decreases n - i,
    {
        let end = if n - i < MIN_RUN { n } else { i + MIN_RUN };
        let ghost before = arr@;
        insertion_sort_range(arr, i, end);
        proof {
            assert forall|b: int| 0 <= b < runs + 1 implies #[trigger] block_sorted(
                arr@,
                MIN_RUN as int,
                b,
            ) by {
                if b < runs {
                    assert(block_sorted(before, MIN_RUN as int, b));
                    assert(b * 32 + 32 <= i) by (nonlinear_arith)
                        requires
                            b < runs,
                            i == 32 * runs,
                    ;
                    lemma_sorted_unchanged(before, arr@, b * 32, b * 32 + 32);
                }
            }
        }
        i = end;
        proof {
            runs = runs + 1;
        }
    }
    assert(blocks_sorted(arr@, MIN_RUN as int)) by {
        assert forall|b: int| 0 <= b && b * (MIN_RUN as int) < arr@.len() implies #[trigger] block_sorted(
            arr@,
            MIN_RUN as int,
            b,
        ) by {
            assert(b < runs) by (nonlinear_arith)
                requires
                    b * 32 < n,
                    n <= 32 * runs,
            ;
        }
    }
    let mut size: usize = MIN_RUN;
    while size < n
        invariant
            n == arr@.len(),
            n >= 2,
            size >= 1,
            arr@.to_multiset() == old(arr)@.to_multiset(),
            blocks_sorted(arr@, size as int),
        decreases n - size,
    {
        merge_pass(arr, size);
        if size <= n / 2 {
            size = size * 2;
        } else {
            proof {
                assert(block_sorted(arr@, 2 * size, 0));
                assert(0 * (2 * size) == 0);
                assert forall|b: int| 0 <= b && b * (n as int) < arr@.len() implies #[trigger] block_sorted(
                    arr@,
                    n as int,
                    b,
                ) by {
                    assert(b == 0) by (nonlinear_arith)
                        requires
                            0 <= b,
                            b * n < n,
                    ;
                }
            }
            size = n;
        }
    }
    proof {
        assert(block_sorted(arr@, size as int, 0));
        assert(0 * (size as int) == 0);
    }
}

/// Merges each pair of neighbouring sorted blocks of width `w` into a sorted block of
/// width `2 * w`.
fn merge_pass(arr: &mut Vec<i32>, w: usize)
    requires
        1 <= w < old(arr)@.len(),
        blocks_sorted(old(arr)@, w as int),
    ensures
        final(arr)@.len() == old(arr)@.len(),
        final(arr)@.to_multiset() == old(arr)@.to_multiset(),
        blocks_sorted(final(arr)@, 2 * w),
{
    let n = arr.len();
    let mut left: usize = 0;
    let ghost mut c: int = 0;
    loop
        invariant
            n == arr@.len(),
            1 <= w < n,
            left < n,
            c >= 0,
            left == c * (2 * w),
            arr@.to_multiset() == old(arr)@.to_multiset(),
            forall|b: int| 0 <= b < c ==> #[trigger] block_sorted(arr@, 2 * w, b),
            forall|b: int| 2 * c <= b && b * w < n ==> #[trigger] block_sorted(arr@, w as int, b),
        ensures
            n == arr@.len(),
            arr@.to_multiset() == old(arr)@.to_multiset(),
            blocks_sorted(arr@, 2 * w),
        decreases n - left,
    {
        if n - left <= w {
            proof {
                assert(left == (2 * c) * w) by (nonlinear_arith)
                    requires
                        left == c * (2 * w),
                ;
                assert(block_sorted(arr@, w as int, 2 * c));
                assert(block_sorted(arr@, 2 * w, c));
                assert forall|b: int| 0 <= b && b * (2 * w) < arr@.len() implies #[trigger] block_sorted(
                    arr@,
                    2 * w,
                    b,
                ) by {
                    assert(b <= c) by (nonlinear_arith)
                        requires
                            b * (2 * w) < n,
                            left == c * (2 * w),
                            n <= left + w,
                            w >= 1,
                    ;
                }
            }
            break;
        }
        let mid = left + w;
        let right = if n - mid <= w { n } else { mid + w };
        assert(right == n || right == left + 2 * w);
        let ghost before = arr@;
        proof {
            assert(left == (2 * c) * w && mid == (2 * c + 1) * w) by (nonlinear_arith)
                requires
                    left == c * (2 * w),
                    mid == left + w,
            ;
            assert(block_sorted(arr@, w as int, 2 * c));
            assert(block_sorted(arr@, w as int, 2 * c + 1));
        }
        merge_runs(arr, left, mid, right);
        proof {
            assert forall|b: int| 0 <= b < c + 1 implies #[trigger] block_sorted(arr@, 2 * w, b) by {
                if b < c {
                    assert(block_sorted(before, 2 * w, b));
                    assert(b * (2 * w) + 2 * w <= left) by (nonlinear_arith)
                        requires
                            b < c,
                            left == c * (2 * w),
                            w >= 1,
                    ;
                    lemma_sorted_unchanged(before, arr@, b * (2 * w), b * (2 * w) + 2 * w);
                } else {
                    assert(b * (2 * w) == left);
                }
            }
            assert forall|b: int| 2 * (c + 1) <= b && b * w < n implies #[trigger] block_sorted(
                arr@,
                w as int,
                b,
            ) by {
                assert(block_sorted(before, w as int, b));
                assert(b * w >= right) by (nonlinear_arith)
                    requires
                        2 * (c + 1) <= b,
                        left == c * (2 * w),
                        right <= left + 2 * w,
                        w >= 1,
                ;
                let hi = if b * w + w < n { b * w + w } else { n as int };
                lemma_sorted_unchanged(before, arr@, b * w, hi);
            }
        }
        if right == n {
            proof {
                assert forall|b: int| 0 <= b && b * (2 * w) < arr@.len() implies #[trigger] block_sorted(
                    arr@,
                    2 * w,
                    b,
                ) by {
                    assert(b <= c) by (nonlinear_arith)
                        requires
                            b * (2 * w) < n,
                            left == c * (2 * w),
                            n == right,
                            right <= left + 2 * w,
                            w >= 1,
                    ;
                }
            }
            break;
        }
        left = right;
        proof {
            assert(c * (2 * w) + 2 * w == (c + 1) * (2 * w)) by (nonlinear_arith);
            c = c + 1;
        }
    }
}

} // verus!
