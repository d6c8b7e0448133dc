//! A general (n-ary) tree: every node owns a list of children.
use std::collections::VecDeque;
use vstd::prelude::*;

verus! {

broadcast use vstd::seq_lib::group_seq_properties;

/// `refs` points, in order, at values equal to `vals`.
pub open spec fn refs_match<T>(refs: Seq<&T>, vals: Seq<T>) -> bool {
    &&& refs.len() == vals.len()
    &&& forall|i: int| 0 <= i < refs.len() ==> *#[trigger] refs[i] == vals[i]
}


/// Total number of nodes in a list of subtrees.
pub closed spec fn forest_size<T>(q: Seq<Box<Node<T>>>) -> nat
    decreases q.len(),
{
    if q.len() == 0 {
        0
    } else {
        q[0].size() + forest_size(q.drop_first())
    }
}

proof fn lemma_forest_size_concat<T>(a: Seq<Box<Node<T>>>, b: Seq<Box<Node<T>>>)
    ensures
        forest_size(a + b) == forest_size(a) + forest_size(b),
    decreases a.len(),
{
    if a.len() > 0 {
        assert((a + b).drop_first() =~= a.drop_first() + b);
        lemma_forest_size_concat(a.drop_first(), b);
    }
}

proof fn lemma_forest_size_kids<T>(n: Node<T>, k: int)
    requires
        0 <= k <= n.children@.len(),
    ensures
        forest_size(n.children@.subrange(0, k)) == n.kids_size(k),
    decreases k,
{
    if k > 0 {
        lemma_forest_size_kids(n, k - 1);
        let a = n.children@.subrange(0, k - 1);
        let b = seq![n.children@[k - 1]];
        assert(n.children@.subrange(0, k) =~= a + b);
        lemma_forest_size_concat(a, b);
        assert(b.drop_first() =~= Seq::<Box<Node<T>>>::empty());
        assert(forest_size(b.drop_first()) == 0);
        assert(forest_size(b) == b[0].size());
        assert(n.kids_size(k) == n.kids_size(k - 1) + n.children@[k - 1].size());
    }
}

/// Level order of a queue of subtrees: the front value, then the level order of the
/// rest of the queue followed by the front's children.
pub closed spec fn bfs_of<T>(q: Seq<Box<Node<T>>>) -> Seq<T>
    decreases forest_size(q),
{
    if q.len() == 0 {
        Seq::empty()
    } else {
        proof {
            lemma_forest_size_concat(q.drop_first(), q[0].children@);
            lemma_forest_size_kids(*q[0], q[0].children@.len() as int);
            assert(q[0].children@.subrange(0, q[0].children@.len() as int) =~= q[0].children@);
        }
        seq![q[0].value] + bfs_of(q.drop_first() + q[0].children@)
    }
}

/// The level order of a queue of subtrees: nothing for an empty queue; otherwise the
/// front value, then the level order of the rest of the queue with the front's children
/// joined at the back.
pub proof fn lemma_bfs_of_unfold<T>(q: Seq<Box<Node<T>>>)
    ensures
        q.len() == 0 ==> bfs_of(q) == Seq::<T>::empty(),
        q.len() > 0 ==> bfs_of(q) == seq![q[0].val()] + bfs_of(q.drop_first() + q[0].kids()),
{
}

/// Pre-order values still to come from a stack of subtrees (top last).
pub closed spec fn stack_preorder<T>(s: Seq<&Box<Node<T>>>) -> Seq<T>
    decreases s.len(),
{
    if s.len() == 0 {
        Seq::empty()
    } else {
        s.last().preorder() + stack_preorder(s.drop_last())
    }
}

/// A node in the general tree.
#[derive(Debug)]
pub struct Node<T> {
    value: T,
    children: Vec<Box<Node<T>>>,
}

impl<T> Node<T> {
    pub closed spec fn val(&self) -> T {
        self.value
    }

    pub closed spec fn kids(&self) -> Seq<Box<Node<T>>> {
        self.children@
    }

    /// Number of nodes.
    pub closed spec fn size(&self) -> nat
        decreases self,
    {
        1 + self.kids_size(self.children@.len() as int)
    }

    /// Number of nodes under the first `k` children.
    pub closed spec fn kids_size(&self, k: int) -> nat
        decreases self, k,
    {
        if k <= 0 || k > self.children@.len() {
            0
        } else {
            self.kids_size(k - 1) + self.children@[k - 1].size()
        }
    }

    /// Nodes on the longest downward path (a leaf has height 1).
    pub closed spec fn height(&self) -> nat
        decreases self,
    {
        1 + self.kids_height(self.children@.len() as int)
    }

    /// Greatest height among the first `k` children (0 when `k` is 0).
    pub closed spec fn kids_height(&self, k: int) -> nat
        decreases self, k,
    {
        if k <= 0 || k > self.children@.len() {
            0
        } else {
            let h = self.children@[k - 1].height();
            let rest = self.kids_height(k - 1);
            if h > rest { h } else { rest }
        }
    }

    /// The nodes in pre-order: the node, then each child's subtree in turn.
    pub closed spec fn nodes(&self) -> Seq<Node<T>>
        decreases self,
    {
        seq![*self] + self.kids_nodes(self.children@.len() as int)
    }

    pub closed spec fn kids_nodes(&self, k: int) -> Seq<Node<T>>
        decreases self, k,
    {
        if k <= 0 || k > self.children@.len() {
            Seq::empty()
        } else {
            self.kids_nodes(k - 1) + self.children@[k - 1].nodes()
        }
    }

    /// The values in pre-order.
    pub closed spec fn preorder(&self) -> Seq<T>
        decreases self,
    {
        seq![self.value] + self.kids_preorder(self.children@.len() as int)
    }

    pub closed spec fn kids_preorder(&self, k: int) -> Seq<T>
        decreases self, k,
    {
        if k <= 0 || k > self.children@.len() {
            Seq::empty()
        } else {
            self.kids_preorder(k - 1) + self.children@[k - 1].preorder()
        }
    }

    /// The values in post-order: each child's subtree in turn, then the node.
    pub closed spec fn postorder(&self) -> Seq<T>
        decreases self,
    {
        self.kids_postorder(self.children@.len() as int) + seq![self.value]
    }

    pub closed spec fn kids_postorder(&self, k: int) -> Seq<T>
        decreases self, k,
    {
        if k <= 0 || k > self.children@.len() {
            Seq::empty()
        } else {
            self.kids_postorder(k - 1) + self.children@[k - 1].postorder()
        }
    }

    /// The defining equations of the node's measures and orders, in terms of its value
    /// and its children: a node counts itself and its children's subtrees, its height is
    /// one more than its tallest child's (so at least one), pre-order puts its value
    /// first, post-order last, and level order puts it before the level order of its
    /// children taken as a queue.
    pub proof fn lemma_unfold(&self)
        ensures
            self.size() == 1 + self.kids_size(self.kids().len() as int),
            self.height() == 1 + self.kids_height(self.kids().len() as int),
            self.height() >= 1,
            self.preorder() == seq![self.val()] + self.kids_preorder(self.kids().len() as int),
            self.postorder() == self.kids_postorder(self.kids().len() as int) + seq![self.val()],
            self.level_order() == seq![self.val()] + bfs_of(self.kids()),
            self.kids_size(0) == 0,
            self.kids_height(0) == 0,
            self.kids_preorder(0) == Seq::<T>::empty(),
            self.kids_postorder(0) == Seq::<T>::empty(),
    {
    }

    /// The step of the measures and orders over the first `k` children: child `k - 1`
    /// adds its size, its height (when taller), its pre-order and its post-order.
    pub proof fn lemma_kids_unfold(&self, k: int)
        requires
            0 < k <= self.kids().len(),
        ensures
            self.kids_size(k) == self.kids_size(k - 1) + self.kids()[k - 1].size(),
            self.kids_height(k) == (if self.kids()[k - 1].height() > self.kids_height(k - 1) {
                self.kids()[k - 1].height()
            } else {
                self.kids_height(k - 1)
            }),
            self.kids_preorder(k) == self.kids_preorder(k - 1) + self.kids()[k - 1].preorder(),
            self.kids_postorder(k) == self.kids_postorder(k - 1) + self.kids()[k - 1].postorder(),
    {
    }

    /// Creates a new leaf node with the given value.
    pub fn new(value: T) -> (n: Self)
        ensures
            n.val() == value,
            n.kids().len() == 0,
    {
        Node { value, children: Vec::new() }
    }

    /// Adds a child to this node, after the existing ones.
    pub fn add_child(&mut self, child: Node<T>)
        ensures
            final(self).val() == old(self).val(),
            final(self).kids() == old(self).kids().push(Box::new(child)),
    {
        self.children.push(Box::new(child));
    }

    /// Returns an immutable reference to the value.
    pub fn value(&self) -> (r: &T)
        ensures
            *r == self.val(),
    {
        &self.value
    }

    /// Returns a mutable reference to the value.
    pub fn value_mut(&mut self) -> (r: &mut T)
        ensures
            *r == old(self).val(),
            final(self).val() == *final(r),
            final(self).kids() == old(self).kids(),
    {
        &mut self.value
    }

    /// Returns the node's children.
    pub fn children(&self) -> (r: &[Box<Node<T>>])
        ensures
            r@ == self.kids(),
    {
        self.children.as_slice()
    }

    // ---------- Depth ----------
    /// The height of the tree rooted at this node; a leaf has depth 1.
    pub fn depth(&self) -> (r: usize)
        requires
            self.size() <= usize::MAX,
        ensures
            r == self.height(),
        decreases self,
    {
        proof {
            self.lemma_height_le_size();
        }
        let mut best: usize = 0;
        let mut i: usize = 0;
        while i < self.children.len()
            invariant
                i <= self.children@.len(),
                best == self.kids_height(i as int),
                self.kids_size(self.children@.len() as int) < usize::MAX,
                self.kids_height(self.children@.len() as int) < self.size(),
                self.size() <= usize::MAX,
            decreases self.children@.len() - i,
        {
            proof {
                self.lemma_kids_size_mono(i + 1, self.children@.len() as int);
                self.lemma_kids_height_mono(i + 1, self.children@.len() as int);
                assert(self.children@[i as int].size() <= self.kids_size(i + 1));
            }
            let d = self.children[i].depth();
            if d > best {
                best = d;
            }
            i = i + 1;
        }
        best + 1
    }

    proof fn lemma_kids_size_mono(&self, j: int, k: int)
        requires
            0 <= j <= k <= self.children@.len(),
        ensures
            self.kids_size(j) <= self.kids_size(k),
        decreases k - j,
    {
        if j < k {
            self.lemma_kids_size_mono(j, k - 1);
        }
    }

    proof fn lemma_kids_height_mono(&self, j: int, k: int)
        requires
            0 <= j <= k <= self.children@.len(),
        ensures
            self.kids_height(j) <= self.kids_height(k),
        decreases k - j,
    {
        if j < k {
            self.lemma_kids_height_mono(j, k - 1);
        }
    }

    /// The height never exceeds the number of nodes.
    pub proof fn lemma_height_le_size(&self)
        ensures
            self.height() <= self.size(),
        decreases self,
    {
        self.lemma_kids_height_le_size(self.children@.len() as int);
    }

    proof fn lemma_kids_height_le_size(&self, k: int)
        requires
            0 <= k <= self.children@.len(),
        ensures
            self.kids_height(k) <= self.kids_size(k),
        decreases self, k,
    {
        if k > 0 {
            self.lemma_kids_height_le_size(k - 1);
            self.children@[k - 1].lemma_height_le_size();
        }
    }


    /// The values level by level, left to right.
    pub closed spec fn level_order(&self) -> Seq<T> {
        seq![self.value] + bfs_of(self.children@)
    }

    proof fn lemma_kids_nodes_prefix(&self, i: int, k: int)
        requires
            0 <= i <= k <= self.children@.len(),
        ensures
            self.kids_nodes(i).len() <= self.kids_nodes(k).len(),
            forall|m: int| 0 <= m < self.kids_nodes(i).len() ==> #[trigger] self.kids_nodes(k)[m] == self.kids_nodes(i)[m],
        decreases k - i,
    {
        if i < k {
            self.lemma_kids_nodes_prefix(i, k - 1);
        }
    }

    proof fn lemma_kids_preorder_prefix(&self, i: int, k: int)
        requires
            0 <= i <= k <= self.children@.len(),
        ensures
            self.kids_preorder(i).len() <= self.kids_preorder(k).len(),
            forall|m: int| 0 <= m < self.kids_preorder(i).len() ==> #[trigger] self.kids_preorder(k)[m] == self.kids_preorder(i)[m],
        decreases k - i,
    {
        if i < k {
            self.lemma_kids_preorder_prefix(i, k - 1);
        }
    }

    // ---------- Search ----------
    /// Searches the tree in pre-order for a value that satisfies the predicate and
    /// returns the first such node.
    pub fn find<F: Fn(&T) -> bool>(&self, predicate: &F) -> (r: Option<&Node<T>>)
        requires
            forall|x: &T| #[trigger] (*predicate).requires((x,)),
        ensures
            r matches Some(n) ==> exists|k: int| {
                &&& 0 <= k < self.nodes().len()
                &&& #[trigger] self.nodes()[k] == *n
                &&& (*predicate).ensures((&n.val(),), true)
                &&& forall|j: int| 0 <= j < k ==> (*predicate).ensures((&#[trigger] self.nodes()[j].val(),), false)
            },
            r is None ==> forall|j: int| 0 <= j < self.nodes().len()
                ==> (*predicate).ensures((&#[trigger] self.nodes()[j].val(),), false),
        decreases self,
    {
        if predicate(&self.value) {
            assert(self.nodes()[0] == *self);
            return Some(self);
        }
        let ghost len = self.children@.len() as int;
        let mut i: usize = 0;
        while i < self.children.len()
            invariant
                i <= self.children@.len(),
                len == self.children@.len(),
                forall|x: &T| #[trigger] (*predicate).requires((x,)),
                (*predicate).ensures((&self.value,), false),
                forall|m: int| 0 <= m < self.kids_nodes(i as int).len()
                    ==> (*predicate).ensures((&#[trigger] self.kids_nodes(i as int)[m].value,), false),
            decreases self.children@.len() - i,
        {
            proof {
                self.lemma_kids_nodes_prefix(i + 1, len);
            }
            match self.children[i].find(predicate) {
                Some(found) => {
                    proof {
                        let child = self.children@[i as int];
                        let kc = choose|kc: int| {
                            &&& 0 <= kc < child.nodes().len()
                            &&& #[trigger] child.nodes()[kc] == *found
                            &&& (*predicate).ensures((&found.val(),), true)
                            &&& forall|j: int| 0 <= j < kc ==> (*predicate).ensures((&#[trigger] child.nodes()[j].value,), false)
                        };
                        let base = self.kids_nodes(i as int).len();
                        let k = 1 + base + kc;
                        assert(self.kids_nodes(i + 1) == self.kids_nodes(i as int) + child.nodes());
                        assert(self.nodes()[k] == self.kids_nodes(len)[base + kc]);
                        assert(self.kids_nodes(len)[base + kc] == self.kids_nodes(i + 1)[base + kc]);
                        assert forall|j: int| 0 <= j < k implies (*predicate).ensures((&#[trigger] self.nodes()[j].val(),), false) by {
                            if j == 0 {
                            } else if j - 1 < base {
                                assert(self.nodes()[j] == self.kids_nodes(len)[j - 1]);
                                assert(self.kids_nodes(len)[j - 1] == self.kids_nodes(i + 1)[j - 1]);
                                assert(self.kids_nodes(i + 1)[j - 1] == self.kids_nodes(i as int)[j - 1]);
                            } else {
                                assert(self.nodes()[j] == self.kids_nodes(len)[j - 1]);
                                assert(self.kids_nodes(len)[j - 1] == self.kids_nodes(i + 1)[j - 1]);
                                assert(self.kids_nodes(i + 1)[j - 1] == child.nodes()[j - 1 - base]);
                            }
                        }
                    }
                    return Some(found);
                },
                None => {
                    proof {
                        let child = self.children@[i as int];
                        let next = self.kids_nodes(i + 1);
                        assert(next == self.kids_nodes(i as int) + child.nodes());
                        assert forall|m: int| 0 <= m < next.len()
                            implies (*predicate).ensures((&#[trigger] next[m].value,), false) by {
                            if m >= self.kids_nodes(i as int).len() {
                                assert(next[m] == child.nodes()[m - self.kids_nodes(i as int).len()]);
                            }
                        }
                    }
                },
            }
            i = i + 1;
        }
        proof {
            assert forall|j: int| 0 <= j < self.nodes().len()
                implies (*predicate).ensures((&#[trigger] self.nodes()[j].val(),), false) by {
                if j > 0 {
                    assert(self.nodes()[j] == self.kids_nodes(len)[j - 1]);
                }
            }
        }
        None
    }

    /// Whether `path`, a list of child positions from this node down, leads to a node.
    pub closed spec fn has_path(&self, path: Seq<usize>) -> bool
        decreases path.len(),
    {
        path.len() == 0 || (path[0] < self.children@.len() && self.children@[path[0] as int].has_path(
            path.drop_first(),
        ))
    }

    /// The node that `path` leads to.
    pub closed spec fn at_path(&self, path: Seq<usize>) -> Node<T>
        decreases path.len(),
    {
        if path.len() == 0 {
            *self
        } else {
            self.children@[path[0] as int].at_path(path.drop_first())
        }
    }

    /// The position in pre-order of the node that `path` leads to.
    pub closed spec fn path_index(&self, path: Seq<usize>) -> int
        decreases path.len(),
    {
        if path.len() == 0 {
            0
        } else {
            1 + self.kids_nodes(path[0] as int).len() + self.children@[path[0] as int].path_index(
                path.drop_first(),
            )
        }
    }

    /// Whether `other` is this tree with the node that `path` leads to replaced by `sub`,
    /// and nothing else changed.
    pub closed spec fn replaced_at(&self, other: Node<T>, path: Seq<usize>, sub: Node<T>) -> bool
        decreases path.len(),
    {
        if path.len() == 0 {
            other == sub
        } else {
            &&& other.value == self.value
            &&& other.children@.len() == self.children@.len()
            &&& forall|j: int| 0 <= j < self.children@.len() && j != path[0] ==> other.children@[j] == self.children@[j]
            &&& self.children@[path[0] as int].replaced_at(*other.children@[path[0] as int], path.drop_first(), sub)
        }
    }

    /// The path to the first node in pre-order whose value satisfies the predicate.
    fn find_path<F: Fn(&T) -> bool>(&self, predicate: &F) -> (r: Option<Vec<usize>>)
        requires
            forall|x: &T| #[trigger] (*predicate).requires((x,)),
        ensures
            r matches Some(p) ==> {
                &&& self.has_path(p@)
                &&& 0 <= self.path_index(p@) < self.nodes().len()
                &&& self.nodes()[self.path_index(p@)] == self.at_path(p@)
                &&& (*predicate).ensures((&self.at_path(p@).val(),), true)
                &&& forall|j: int| 0 <= j < self.path_index(p@) ==> (*predicate).ensures((&#[trigger] self.nodes()[j].val(),), false)
            },
            r is None ==> forall|j: int| 0 <= j < self.nodes().len()
                ==> (*predicate).ensures((&#[trigger] self.nodes()[j].val(),), false),
        decreases self,
    {
        if predicate(&self.value) {
            let p: Vec<usize> = Vec::new();
            assert(self.nodes()[0] == *self);
            return Some(p);
        }
        let ghost len = self.children@.len() as int;
        let mut i: usize = 0;
        while i < self.children.len()
            invariant
                i <= self.children@.len(),
                len == self.children@.len(),
                forall|x: &T| #[trigger] (*predicate).requires((x,)),
                (*predicate).ensures((&self.value,), false),
                forall|m: int| 0 <= m < self.kids_nodes(i as int).len()
                    ==> (*predicate).ensures((&#[trigger] self.kids_nodes(i as int)[m].value,), false),
            decreases self.children@.len() - i,
        {
            proof {
                self.lemma_kids_nodes_prefix(i + 1, len);
            }
            match self.children[i].find_path(predicate) {
                Some(cp) => {
                    let mut p = cp;
                    p.insert(0, i);
                    proof {
                        let child = self.children@[i as int];
                        assert(p@.drop_first() =~= cp@);
                        let kc = child.path_index(cp@);
                        let base = self.kids_nodes(i as int).len();
                        let k = 1 + base + kc;
                        assert(self.path_index(p@) == k);
                        assert(self.at_path(p@) == child.at_path(cp@));
                        assert(self.kids_nodes(i + 1) == self.kids_nodes(i as int) + child.nodes());
                        assert(self.nodes()[k] == self.kids_nodes(len)[base + kc]);
                        assert(self.kids_nodes(len)[base + kc] == self.kids_nodes(i + 1)[base + kc]);
                        assert forall|j: int| 0 <= j < k implies (*predicate).ensures((&#[trigger] self.nodes()[j].val(),), false) by {
                            if j == 0 {
                            } else if j - 1 < base {
                                assert(self.nodes()[j] == self.kids_nodes(len)[j - 1]);
                                assert(self.kids_nodes(len)[j - 1] == self.kids_nodes(i + 1)[j - 1]);
                                assert(self.kids_nodes(i + 1)[j - 1] == self.kids_nodes(i as int)[j - 1]);
                            } else {
                                assert(self.nodes()[j] == self.kids_nodes(len)[j - 1]);
                                assert(self.kids_nodes(len)[j - 1] == self.kids_nodes(i + 1)[j - 1]);
                                assert(self.kids_nodes(i + 1)[j - 1] == child.nodes()[j - 1 - base]);
                            }
                        }
                    }
                    return Some(p);
                },
                None => {
                    proof {
                        let child = self.children@[i as int];
                        let next = self.kids_nodes(i + 1);
                        assert(next == self.kids_nodes(i as int) + child.nodes());
                        assert forall|m: int| 0 <= m < next.len()
                            implies (*predicate).ensures((&#[trigger] next[m].value,), false) by {
                            if m >= self.kids_nodes(i as int).len() {
                                assert(next[m] == child.nodes()[m - self.kids_nodes(i as int).len()]);
                            }
                        }
                    }
                },
            }
            i = i + 1;
        }
        proof {
            assert forall|j: int| 0 <= j < self.nodes().len()
                implies (*predicate).ensures((&#[trigger] self.nodes()[j].val(),), false) by {
                if j > 0 {
                    assert(self.nodes()[j] == self.kids_nodes(len)[j - 1]);
                }
            }
        }
        None
    }

    /// A mutable reference to the node that the positions of `path` from `from` on lead to.
    fn at_path_mut(&mut self, path: &Vec<usize>, from: usize) -> (r: &mut Node<T>)
        requires
            from <= path@.len(),
            old(self).has_path(path@.skip(from as int)),
        ensures
            *r == old(self).at_path(path@.skip(from as int)),
            old(self).replaced_at(*final(self), path@.skip(from as int), *final(r)),
        decreases path@.len() - from,
    {
        if from >= path.len() {
            assert(path@.skip(from as int).len() == 0);
            return self;
        }
        let i = path[from];
        proof {
            assert(path@.skip(from as int).drop_first() =~= path@.skip(from + 1));
        }
        let child = &mut self.children[i];
        (&mut **child).at_path_mut(path, from + 1)
    }

    /// Searches the tree in pre-order for a value that satisfies the predicate and returns
    /// a mutable reference to the first such node. What is changed through it ends up in
    /// the tree in that node's place; the rest of the tree stays as it was.
    pub fn find_mut<F: Fn(&T) -> bool>(&mut self, predicate: &F) -> (r: Option<&mut Node<T>>)
        requires
            forall|x: &T| #[trigger] (*predicate).requires((x,)),
        ensures
            r is None ==> *final(self) == *old(self) && forall|j: int| 0 <= j < old(self).nodes().len()
                ==> (*predicate).ensures((&#[trigger] old(self).nodes()[j].val(),), false),
            r matches Some(n) ==> exists|path: Seq<usize>| {
                &&& #[trigger] old(self).has_path(path)
                &&& *n == old(self).at_path(path)
                &&& 0 <= old(self).path_index(path) < old(self).nodes().len()
                &&& old(self).nodes()[old(self).path_index(path)] == *n
                &&& (*predicate).ensures((&n.val(),), true)
                &&& forall|j: int| 0 <= j < old(self).path_index(path)
                    ==> (*predicate).ensures((&#[trigger] old(self).nodes()[j].val(),), false)
                &&& old(self).replaced_at(*final(self), path, *final(n))
            },
    {
        match self.find_path(predicate) {
            None => None,
            Some(p) => {
                proof {
                    assert(p@.skip(0) =~= p@);
                }
                Some(self.at_path_mut(&p, 0))
            },
        }
    }

    /// Breadth-first (level-order) traversal.
    pub fn traverse_bfs(&self) -> (r: Vec<&T>)
        ensures
            refs_match(r@, self.level_order()),
    {
        let mut out: Vec<&T> = Vec::new();
        out.push(&self.value);
        let ghost mut done: Seq<T> = seq![self.value];
        let mut queue: VecDeque<&Box<Node<T>>> = VecDeque::new();
        let ghost mut qv: Seq<Box<Node<T>>> = Seq::empty();
        let mut i: usize = 0;
        while i < self.children.len()
            invariant
                i <= self.children@.len(),
                qv == self.children@.subrange(0, i as int),
                queue@.len() == qv.len(),
                forall|k: int| 0 <= k < qv.len() ==> *#[trigger] queue@[k] == qv[k],
            decreases self.children@.len() - i,
        {
            queue.push_back(&self.children[i]);
            proof {
                qv = qv.push(self.children@[i as int]);
                assert(qv =~= self.children@.subrange(0, i + 1));
            }
            i = i + 1;
        }
        let ghost target = self.level_order();
        assert(self.children@.subrange(0, i as int) =~= self.children@);
        assert(done + bfs_of(qv) =~= target);
        while queue.len() > 0
            invariant
                queue@.len() == qv.len(),
                forall|k: int| 0 <= k < qv.len() ==> *#[trigger] queue@[k] == qv[k],
                done + bfs_of(qv) == target,
                refs_match(out@, done),
            decreases forest_size(qv),
        {
            let ghost q = qv;
            let node = queue.pop_front().unwrap();
            out.push(&node.value);
            proof {
                assert(*node == q[0]);
                qv = q.drop_first();
                done = done.push(node.value);
                assert forall|k: int| 0 <= k < qv.len() implies *#[trigger] queue@[k] == qv[k] by {
                    assert(qv[k] == q[k + 1]);
                }
            }
            let mut c: usize = 0;
            while c < node.children.len()
                invariant
                    c <= node.children@.len(),
                    qv == q.drop_first() + node.children@.subrange(0, c as int),
                    queue@.len() == qv.len(),
                    forall|k: int| 0 <= k < qv.len() ==> *#[trigger] queue@[k] == qv[k],
                decreases node.children@.len() - c,
            {
                queue.push_back(&node.children[c]);
                proof {
                    qv = qv.push(node.children@[c as int]);
                    assert(qv =~= q.drop_first() + node.children@.subrange(0, c + 1));
                }
                c = c + 1;
            }
            proof {
                assert(node.children@.subrange(0, c as int) =~= node.children@);
                assert(bfs_of(q) == seq![node.value] + bfs_of(qv));
                assert(done + bfs_of(qv) =~= target);
                lemma_forest_size_concat(q.drop_first(), node.children@);
                lemma_forest_size_kids(**node, node.children@.len() as int);
            }
        }
        assert(bfs_of(qv) == Seq::<T>::empty());
        assert(done =~= target);
        out
    }

    /// Iterative depth-first traversal with an explicit stack; visits in pre-order.
    pub fn traverse_dfs(&self) -> (r: Vec<&T>)
        ensures
            refs_match(r@, self.preorder()),
    {
        let mut out: Vec<&T> = Vec::new();
        let mut stack: Vec<&Box<Node<T>>> = Vec::new();
        out.push(&self.value);
        let ghost mut done: Seq<T> = seq![self.value];
        assert(stack_preorder(stack@) == Seq::<T>::empty());
        self.push_children_reversed(&mut stack);
        let ghost target = self.preorder();
        assert(done + stack_preorder(stack@) =~= target);
        while stack.len() > 0
            invariant
                done + stack_preorder(stack@) == target,
                refs_match(out@, done),
            decreases stack_preorder(stack@).len(),
        {
            let ghost before = stack@;
            let node = stack.pop().unwrap();
            proof {
                assert(before.drop_last() =~= stack@);
                assert(stack_preorder(before) == node.preorder() + stack_preorder(stack@));
                assert(node.preorder() == seq![node.value] + node.kids_preorder(node.children@.len() as int));
            }
            out.push(&node.value);
            let ghost mid = stack@;
            node.push_children_reversed(&mut stack);
            proof {
                done = done.push(node.value);
                assert(done + stack_preorder(stack@) =~= target);
            }
        }
        assert(done =~= target);
        out
    }

    /// Pushes the children, last first, so that the first child ends on top.
    fn push_children_reversed<'a>(&'a self, stack: &mut Vec<&'a Box<Node<T>>>)
        ensures
            stack_preorder(final(stack)@) == self.kids_preorder(self.children@.len() as int) + stack_preorder(old(stack)@),
    {
        let ghost len = self.children@.len() as int;
        let mut j = self.children.len();
        proof {
            self.lemma_kids_preorder_prefix(len, len);
            assert(self.kids_preorder(len).skip(self.kids_preorder(len).len() as int) =~= Seq::<T>::empty());
        }
        while j > 0
            invariant
                j <= len,
                len == self.children@.len(),
                stack_preorder(stack@) == self.kids_preorder(len).skip(self.kids_preorder(j as int).len() as int)
                    + stack_preorder(old(stack)@),
            decreases j,
        {
            let ghost before = stack@;
            stack.push(&self.children[j - 1]);
            proof {
                assert(stack@.drop_last() =~= before);
                self.lemma_kids_preorder_prefix(j as int, len);
                let a = self.kids_preorder(j - 1);
                let b = self.kids_preorder(j as int);
                let all = self.kids_preorder(len);
                assert(b == a + self.children@[j - 1].preorder());
                assert(all.skip(a.len() as int) =~= self.children@[j - 1].preorder() + all.skip(b.len() as int));
            }
            j = j - 1;
        }
        assert(self.kids_preorder(len).skip(0) =~= self.kids_preorder(len));
    }

    // ---------- Traversals ----------
    /// Pre-order traversal: the node first, then each child recursively.
    pub fn traverse_preorder(&self) -> (r: Vec<&T>)
        ensures
            refs_match(r@, self.preorder()),
    {
        let mut out: Vec<&T> = Vec::new();
        self.preorder_into(&mut out);
        assert forall|i: int| 0 <= i < out@.len() implies *#[trigger] out@[i] == self.preorder()[i] by {
            assert(out@[0 + i] == out@[i]);
        }
        out
    }

    fn preorder_into<'a>(&'a self, out: &mut Vec<&'a T>)
        ensures
            final(out)@.len() == old(out)@.len() + self.preorder().len(),
            forall|i: int| 0 <= i < old(out)@.len() ==> final(out)@[i] == old(out)@[i],
            forall|i: int| 0 <= i < self.preorder().len()
                ==> *#[trigger] final(out)@[old(out)@.len() + i] == self.preorder()[i],
        decreases self,
    {
        let ghost start = out@.len();
        out.push(&self.value);
        let mut i: usize = 0;
        while i < self.children.len()
            invariant
                i <= self.children@.len(),
                start == old(out)@.len(),
                out@.len() == start + 1 + self.kids_preorder(i as int).len(),
                forall|k: int| 0 <= k < start ==> out@[k] == old(out)@[k],
                *out@[start as int] == self.value,
                forall|k: int| 0 <= k < self.kids_preorder(i as int).len()
                    ==> *#[trigger] out@[start + 1 + k] == self.kids_preorder(i as int)[k],
            decreases self.children@.len() - i,
        {
            let ghost before = out@;
            self.children[i].preorder_into(out);
            proof {
                let prev = self.kids_preorder(i as int);
                let sub = self.children@[i as int].preorder();
                assert(self.kids_preorder(i + 1) == prev + sub);
                assert forall|k: int| 0 <= k < self.kids_preorder(i + 1).len()
                    implies *#[trigger] out@[start + 1 + k] == self.kids_preorder(i + 1)[k] by {
                    if k < prev.len() {
                        assert(out@[start + 1 + k] == before[start + 1 + k]);
                    } else {
                        assert(out@[before.len() + (k - prev.len())] == out@[start + 1 + k]);
                    }
                }
            }
            i = i + 1;
        }
        proof {
            assert forall|k: int| 0 <= k < self.preorder().len()
                implies *#[trigger] out@[start + k] == self.preorder()[k] by {
                if k > 0 {
                    assert(out@[start + 1 + (k - 1)] == out@[start + k]);
                }
            }
        }
    }

    /// Post-order traversal: each child recursively first, then the node.
    pub fn traverse_postorder(&self) -> (r: Vec<&T>)
        ensures
            refs_match(r@, self.postorder()),
    {
        let mut out: Vec<&T> = Vec::new();
        self.postorder_into(&mut out);
        assert forall|i: int| 0 <= i < out@.len() implies *#[trigger] out@[i] == self.postorder()[i] by {
            assert(out@[0 + i] == out@[i]);
        }
        out
    }

    fn postorder_into<'a>(&'a self, out: &mut Vec<&'a T>)
        ensures
            final(out)@.len() == old(out)@.len() + self.postorder().len(),
            forall|i: int| 0 <= i < old(out)@.len() ==> final(out)@[i] == old(out)@[i],
            forall|i: int| 0 <= i < self.postorder().len()
                ==> *#[trigger] final(out)@[old(out)@.len() + i] == self.postorder()[i],
        decreases self,
    {
        let ghost start = out@.len();
        let mut i: usize = 0;
        while i < self.children.len()
            invariant
                i <= self.children@.len(),
                start == old(out)@.len(),
                out@.len() == start + self.kids_postorder(i as int).len(),
                forall|k: int| 0 <= k < start ==> out@[k] == old(out)@[k],
                forall|k: int| 0 <= k < self.kids_postorder(i as int).len()
                    ==> *#[trigger] out@[start + k] == self.kids_postorder(i as int)[k],
            decreases self.children@.len() - i,
        {
            let ghost before = out@;
            self.children[i].postorder_into(out);
            proof {
                let prev = self.kids_postorder(i as int);
                let sub = self.children@[i as int].postorder();
                assert(self.kids_postorder(i + 1) == prev + sub);
                assert forall|k: int| 0 <= k < self.kids_postorder(i + 1).len()
                    implies *#[trigger] out@[start + k] == self.kids_postorder(i + 1)[k] by {
                    if k < prev.len() {
                        assert(out@[start + k] == before[start + k]);
                    } else {
                        assert(out@[before.len() + (k - prev.len())] == out@[start + k]);
                    }
                }
            }
            i = i + 1;
        }
        out.push(&self.value);
    }
}

/// Optional wrapper struct for a general tree.
#[derive(Debug)]
pub struct Tree<T> {
    root: Option<Box<Node<T>>>,
}

impl<T> Tree<T> {
    /// The root node, if any.
    pub closed spec fn root_node(&self) -> Option<Node<T>> {
        match self.root {
            Some(b) => Some(*b),
            None => None,
        }
    }

    /// Creates an empty tree.
    pub fn new() -> (t: Self)
        ensures
            t.root_node() is None,
    {
        Tree { root: None }
    }

    /// Creates a tree with the given root node.
    pub fn with_root(root: Node<T>) -> (t: Self)
        ensures
            t.root_node() == Some(root),
    {
        Tree { root: Some(Box::new(root)) }
    }

    /// Returns a reference to the root node, if any.
    pub fn root(&self) -> (r: Option<&Node<T>>)
        ensures
            r matches Some(n) ==> self.root_node() == Some(*n),
            r is None <==> self.root_node() is None,
    {
        match &self.root {
            Some(b) => Some(b),
            None => None,
        }
    }

    /// Returns a mutable reference to the root node, if any.
    pub fn root_mut(&mut self) -> (r: Option<&mut Node<T>>)
        ensures
            r matches Some(n) ==> old(self).root_node() == Some(*n) && final(self).root_node() == Some(*final(n)),
            r is None <==> old(self).root_node() is None,
            r is None ==> final(self).root_node() is None,
    {
        match &mut self.root {
            Some(b) => Some(b),
            None => None,
        }
    }

    /// Sets the root of the tree, dropping the old one.
    pub fn set_root(&mut self, root: Node<T>)
        ensures
            final(self).root_node() == Some(root),
    {
        self.root = Some(Box::new(root));
    }

    /// The height of the tree (0 when empty).
    pub fn depth(&self) -> (r: usize)
        requires
            self.root_node() matches Some(n) ==> n.size() <= usize::MAX,
        ensures
            r == (match self.root_node() {
                Some(n) => n.height(),
                None => 0,
            }),
    {
        match &self.root {
            Some(root) => root.depth(),
            None => 0,
        }
    }

    /// The first node in pre-order whose value satisfies the predicate.
    pub fn find<F: Fn(&T) -> bool>(&self, predicate: F) -> (r: Option<&Node<T>>)
        requires
            forall|x: &T| #[trigger] predicate.requires((x,)),
        ensures
            self.root_node() is None ==> r is None,
            r matches Some(n) ==> (self.root_node() matches Some(root) ==> exists|k: int| {
                &&& 0 <= k < root.nodes().len()
                &&& #[trigger] root.nodes()[k] == *n
                &&& predicate.ensures((&n.val(),), true)
                &&& forall|j: int| 0 <= j < k ==> predicate.ensures((&#[trigger] root.nodes()[j].val(),), false)
            }),
            r is None ==> (self.root_node() matches Some(root) ==> forall|j: int| 0 <= j < root.nodes().len()
                ==> predicate.ensures((&#[trigger] root.nodes()[j].val(),), false)),
    {
        match &self.root {
            Some(root) => {
                let r = root.find(&predicate);
                proof {
                    if let Some(n) = r {
                        let k = choose|k: int| {
                            &&& 0 <= k < root.nodes().len()
                            &&& #[trigger] root.nodes()[k] == *n
                            &&& predicate.ensures((&n.val(),), true)
                            &&& forall|j: int| 0 <= j < k ==> predicate.ensures((&#[trigger] root.nodes()[j].val(),), false)
                        };
                        assert(self.root_node() == Some(**root));
                        let rt = self.root_node()->Some_0;
                        assert(rt.nodes()[k] == *n);
                        assert(exists|k: int| {
                            &&& 0 <= k < rt.nodes().len()
                            &&& #[trigger] rt.nodes()[k] == *n
                            &&& predicate.ensures((&n.val(),), true)
                            &&& forall|j: int| 0 <= j < k ==> predicate.ensures((&#[trigger] rt.nodes()[j].val(),), false)
                        });
                    }
                }
                r
            },
            None => None,
        }
    }

    pub fn traverse_preorder(&self) -> (r: Vec<&T>)
        ensures
            self.root_node() is None ==> r@.len() == 0,
            self.root_node() matches Some(root) ==> refs_match(r@, root.preorder()),
    {
        match &self.root {
            Some(root) => root.traverse_preorder(),
            None => Vec::new(),
        }
    }

    pub fn traverse_postorder(&self) -> (r: Vec<&T>)
        ensures
            self.root_node() is None ==> r@.len() == 0,
            self.root_node() matches Some(root) ==> refs_match(r@, root.postorder()),
    {
        match &self.root {
            Some(root) => root.traverse_postorder(),
            None => Vec::new(),
        }
    }

    pub fn traverse_bfs(&self) -> (r: Vec<&T>)
        ensures
            self.root_node() is None ==> r@.len() == 0,
            self.root_node() matches Some(root) ==> refs_match(r@, root.level_order()),
    {
        match &self.root {
            Some(root) => root.traverse_bfs(),
            None => Vec::new(),
        }
    }

    pub fn traverse_dfs(&self) -> (r: Vec<&T>)
        ensures
            self.root_node() is None ==> r@.len() == 0,
            self.root_node() matches Some(root) ==> refs_match(r@, root.preorder()),
    {
        match &self.root {
            Some(root) => root.traverse_dfs(),
            None => Vec::new(),
        }
    }
}

impl<T> Default for Tree<T> {
    fn default() -> (t: Self)
        ensures
            t.root_node() is None,
    {
        Self::new()
    }
}

} // verus!
