//! An unbalanced binary search tree of `i32` keys that keeps duplicates:
//! a key smaller than a node's key goes left, any other key goes right.
use vstd::prelude::*;

verus! {

broadcast use vstd::seq_lib::group_seq_properties;

pub type Link = Option<Box<Node>>;

pub struct Node {
    pub elem: i32,
    pub left: Link,
    pub right: Link,
}

pub(crate) fn new_node(elem: i32) -> (r: Box<Node>)
    ensures
        r.elem == elem,
        r.left is None,
        r.right is None,
{
    Box::new(Node { elem, left: None, right: None })
}

// ==================== model ====================

/// In-order sequence of the keys of a subtree.
pub open spec fn inorder_of(link: Link) -> Seq<i32>
    decreases link,
{
    match link {
        None => Seq::empty(),
        Some(n) => inorder_of(n.left) + seq![n.elem] + inorder_of(n.right),
    }
}

/// Pre-order sequence of the keys of a subtree.
pub open spec fn preorder_of(link: Link) -> Seq<i32>
    decreases link,
{
    match link {
        None => Seq::empty(),
        Some(n) => seq![n.elem] + preorder_of(n.left) + preorder_of(n.right),
    }
}

/// Post-order sequence of the keys of a subtree.
pub open spec fn postorder_of(link: Link) -> Seq<i32>
    decreases link,
{
    match link {
        None => Seq::empty(),
        Some(n) => postorder_of(n.left) + postorder_of(n.right) + seq![n.elem],
    }
}

pub open spec fn max_nat(a: nat, b: nat) -> nat {
    if a >= b { a } else { b }
}

/// Number of nodes on the longest root-to-leaf path.
pub open spec fn height_of(link: Link) -> nat
    decreases link,
{
    match link {
        None => 0,
        Some(n) => 1 + max_nat(height_of(n.left), height_of(n.right)),
    }
}

/// Every node's subtrees differ in height by at most one.
pub open spec fn balanced_of(link: Link) -> bool
    decreases link,
{
    match link {
        None => true,
        Some(n) => {
            &&& balanced_of(n.left)
            &&& balanced_of(n.right)
            &&& height_of(n.left) <= height_of(n.right) + 1
            &&& height_of(n.right) <= height_of(n.left) + 1
        },
    }
}

/// Search-tree order: keys left of a node are smaller than it, keys right of it are not.
pub open spec fn bst(link: Link) -> bool
    decreases link,
{
    match link {
        None => true,
        Some(n) => {
            &&& bst(n.left)
            &&& bst(n.right)
            &&& forall|x: i32| #[trigger] inorder_of(n.left).contains(x) ==> x < n.elem
            &&& forall|x: i32| #[trigger] inorder_of(n.right).contains(x) ==> n.elem <= x
        },
    }
}

/// Whether the search for `x` that starts at the root and goes left at strictly greater
/// keys and right at smaller ones meets `x`.
pub open spec fn search_path(link: Link, x: i32) -> bool
    decreases link,
{
    match link {
        None => false,
        Some(n) => if n.elem == x {
            true
        } else if n.elem < x {
            search_path(n.right, x)
        } else {
            search_path(n.left, x)
        },
    }
}

proof fn lemma_search_path(link: Link, x: i32)
    requires
        bst(link),
    ensures
        search_path(link, x) == inorder_of(link).contains(x),
    decreases link,
{
    if let Some(n) = link {
        lemma_search_path(n.left, x);
        lemma_search_path(n.right, x);
        assert(inorder_of(link)[inorder_of(n.left).len() as int] == n.elem);
    }
}

/// The subtree after inserting `x` as a new leaf on the search path.
pub open spec fn insert_into(link: Link, x: i32) -> Link
    decreases link,
{
    match link {
        None => Some(Box::new(Node { elem: x, left: None, right: None })),
        Some(n) => if x < n.elem {
            Some(Box::new(Node { elem: n.elem, left: insert_into(n.left, x), right: n.right }))
        } else {
            Some(Box::new(Node { elem: n.elem, left: n.left, right: insert_into(n.right, x) }))
        },
    }
}

/// One step of a root-to-hole path: the key of the node passed and the subtree
/// not taken.
pub ghost enum Frame {
    WentLeft(i32, Link),
    WentRight(i32, Link),
}

pub open spec fn wrap(f: Frame, hole: Link) -> Link {
    match f {
        Frame::WentLeft(e, r) => Some(Box::new(Node { elem: e, left: hole, right: r })),
        Frame::WentRight(e, l) => Some(Box::new(Node { elem: e, left: l, right: hole })),
    }
}

/// The tree obtained by putting `hole` at the end of the path `ctx` (outermost frame first).
pub open spec fn plug(ctx: Seq<Frame>, hole: Link) -> Link
    decreases ctx.len(),
{
    if ctx.len() == 0 {
        hole
    } else {
        plug(ctx.drop_last(), wrap(ctx.last(), hole))
    }
}

pub proof fn lemma_plug_push(ctx: Seq<Frame>, f: Frame, hole: Link)
    ensures
        plug(ctx.push(f), hole) == plug(ctx, wrap(f, hole)),
{
    assert(ctx.push(f).drop_last() =~= ctx);
}

/// `s` is in non-decreasing order.
pub open spec fn sorted(s: Seq<i32>) -> bool {
    forall|i: int, j: int| 0 <= i <= j < s.len() ==> s[i] <= s[j]
}


// ---- stack models for the iterative traversals ----

pub open spec fn size_of(link: Link) -> nat {
    inorder_of(link).len()
}

/// Sum of the sizes of the subtrees on a stack.
pub open spec fn stack_size(s: Seq<&Box<Node>>) -> nat
    decreases s.len(),
{
    if s.len() == 0 {
        0
    } else {
        stack_size(s.drop_last()) + size_of(Some(*s.last()))
    }
}

/// Pre-order keys still to be emitted for a stack of pending subtrees (top last).
pub open spec fn stack_preorder(s: Seq<&Box<Node>>) -> Seq<i32>
    decreases s.len(),
{
    if s.len() == 0 {
        Seq::empty()
    } else {
        preorder_of(Some(*s.last())) + stack_preorder(s.drop_last())
    }
}

/// In-order keys still to be emitted for a stack of nodes whose left subtrees are done.
pub open spec fn stack_inorder(s: Seq<&Box<Node>>) -> Seq<i32>
    decreases s.len(),
{
    if s.len() == 0 {
        Seq::empty()
    } else {
        seq![s.last().elem] + inorder_of(s.last().right) + stack_inorder(s.drop_last())
    }
}

/// Number of nodes still to be emitted for a stack of nodes whose left subtrees are done.
pub open spec fn stack_inorder_size(s: Seq<&Box<Node>>) -> nat
    decreases s.len(),
{
    if s.len() == 0 {
        0
    } else {
        1 + size_of(s.last().right) + stack_inorder_size(s.drop_last())
    }
}

/// Post-order keys still to be emitted for a stack of nodes whose left subtrees are done;
/// the flag says whether the right subtree is done too.
pub open spec fn stack_postorder(s: Seq<(&Box<Node>, bool)>) -> Seq<i32>
    decreases s.len(),
{
    if s.len() == 0 {
        Seq::empty()
    } else {
        let (n, done) = s.last();
        (if done { seq![n.elem] } else { postorder_of(n.right) + seq![n.elem] })
            + stack_postorder(s.drop_last())
    }
}

pub open spec fn stack_postorder_weight(s: Seq<(&Box<Node>, bool)>) -> nat
    decreases s.len(),
{
    if s.len() == 0 {
        0
    } else {
        let (n, done) = s.last();
        (if done { 1 } else { 2 * size_of(n.right) + 2 }) + stack_postorder_weight(s.drop_last())
    }
}

/// Deepest level reached below the entries of a depth stack: an entry `(n, h)` reaches
/// level `h - 1 + height(n)`.
pub open spec fn stack_reach(s: Seq<(&Box<Node>, usize)>) -> nat
    decreases s.len(),
{
    if s.len() == 0 {
        0
    } else {
        max_nat(stack_reach(s.drop_last()), (s.last().1 - 1 + height_of(Some(*s.last().0))) as nat)
    }
}

pub open spec fn depth_stack_size(s: Seq<(&Box<Node>, usize)>) -> nat
    decreases s.len(),
{
    if s.len() == 0 {
        0
    } else {
        depth_stack_size(s.drop_last()) + size_of(Some(*s.last().0))
    }
}

/// `after` has the shape of `before`, and each key of `after` is a possible result of
/// `f` on the key in the same place of `before`.
pub open spec fn mapped_by<F: Fn(i32) -> i32>(before: Link, after: Link, f: F) -> bool
    decreases before,
{
    match (before, after) {
        (None, None) => true,
        (Some(b), Some(a)) => {
            &&& call_ensures(f, (b.elem,), a.elem)
            &&& mapped_by(b.left, a.left, f)
            &&& mapped_by(b.right, a.right, f)
        },
        _ => false,
    }
}

pub proof fn lemma_seq_push_drop<A>(s: Seq<A>, a: A)
    ensures
        s.push(a).drop_last() == s,
        s.push(a).last() == a,
{
    assert(s.push(a).drop_last() =~= s);
}


/// A frame of the iterative balance check: a node, the height of its left subtree
/// (once known) and whether the left subtree is finished.
pub type BalanceFrame<'a> = (&'a Box<Node>, usize, bool);

/// The subtree a frame is working on.
pub open spec fn frame_child(f: BalanceFrame) -> Link {
    if f.2 { f.0.right } else { f.0.left }
}

/// The frames form the path from the root down to the subtree being worked on.
pub open spec fn frames_form_path(s: Seq<BalanceFrame>, root: Link) -> bool {
    &&& s.len() > 0 ==> Some(*s[0].0) == root
    &&& forall|i: int| 1 <= i < s.len() ==> Some(*(#[trigger] s[i]).0) == frame_child(s[i - 1])
}

/// The subtree that the frames point at (the whole tree when there is no frame).
pub open spec fn frames_focus(s: Seq<BalanceFrame>, root: Link) -> Link {
    if s.len() == 0 { root } else { frame_child(s.last()) }
}

pub open spec fn frames_weight(s: Seq<BalanceFrame>) -> nat
    decreases s.len(),
{
    if s.len() == 0 {
        0
    } else {
        (if s.last().2 { 1 } else { 2 * size_of(s.last().0.right) + 2 }) + frames_weight(s.drop_last())
    }
}

pub proof fn lemma_balanced_subtree(link: Link)
    requires
        balanced_of(link),
    ensures
        link matches Some(n) ==> balanced_of(n.left) && balanced_of(n.right),
{
}


/// The invariant of the iterative balance check over its frames.
#[verifier::opaque]
pub open spec fn frames_ok(s: Seq<BalanceFrame>, root: Link) -> bool {
    &&& frames_form_path(s, root)
    &&& forall|i: int| 0 <= i < s.len() && (#[trigger] s[i]).2
        ==> s[i].1 == height_of(s[i].0.left) && balanced_of(s[i].0.left)
    &&& forall|i: int| 0 <= i < s.len() ==> height_of(Some(*(#[trigger] s[i]).0)) <= height_of(root)
    &&& balanced_of(root) ==> forall|i: int| 0 <= i < s.len() ==> balanced_of(Some(*(#[trigger] s[i]).0))
}

pub proof fn lemma_frames_empty(root: Link)
    ensures
        frames_ok(Seq::empty(), root),
{
    reveal(frames_ok);
}

pub proof fn lemma_frames_focus(s: Seq<BalanceFrame>, root: Link)
    requires
        frames_ok(s, root),
    ensures
        height_of(frames_focus(s, root)) <= height_of(root),
        balanced_of(root) ==> balanced_of(frames_focus(s, root)),
{
    reveal(frames_ok);
    if s.len() > 0 {
        let i = s.len() - 1;
        assert(height_of(Some(*s[i].0)) <= height_of(root));
        if balanced_of(root) {
            assert(balanced_of(Some(*s[i].0)));
        }
    }
}

pub proof fn lemma_frames_push(s: Seq<BalanceFrame>, root: Link, f: BalanceFrame)
    requires
        frames_ok(s, root),
        Some(*f.0) == frames_focus(s, root),
        f.2 ==> f.1 == height_of(f.0.left) && balanced_of(f.0.left),
    ensures
        frames_ok(s.push(f), root),
        frames_focus(s.push(f), root) == frame_child(f),
        frames_weight(s.push(f)) == (if f.2 { 1 } else { 2 * size_of(f.0.right) + 2 }) + frames_weight(s),
{
    reveal(frames_ok);
    lemma_frames_focus(s, root);
    let t = s.push(f);
    lemma_seq_push_drop(s, f);
    assert forall|i: int| 1 <= i < t.len() implies Some(*(#[trigger] t[i]).0) == frame_child(t[i - 1]) by {
        if i < s.len() {
            assert(t[i] == s[i]);
        }
        assert(t[i - 1] == s[i - 1]);
    }
    assert forall|i: int| 0 <= i < t.len() && (#[trigger] t[i]).2
        implies t[i].1 == height_of(t[i].0.left) && balanced_of(t[i].0.left) by {
        if i < s.len() {
            assert(t[i] == s[i]);
        }
    }
    assert forall|i: int| 0 <= i < t.len() implies height_of(Some(*(#[trigger] t[i]).0)) <= height_of(root) by {
        if i < s.len() {
            assert(t[i] == s[i]);
        }
    }
    if balanced_of(root) {
        assert forall|i: int| 0 <= i < t.len() implies balanced_of(Some(*(#[trigger] t[i]).0)) by {
            if i < s.len() {
                assert(t[i] == s[i]);
            }
        }
    }
}

pub proof fn lemma_frames_pop(s: Seq<BalanceFrame>, root: Link)
    requires
        frames_ok(s, root),
        s.len() > 0,
    ensures
        frames_ok(s.drop_last(), root),
        Some(*s.last().0) == frames_focus(s.drop_last(), root),
        height_of(Some(*s.last().0)) <= height_of(root),
        balanced_of(root) ==> balanced_of(Some(*s.last().0)),
        s.last().2 ==> s.last().1 == height_of(s.last().0.left) && balanced_of(s.last().0.left),
        s =~= s.drop_last().push(s.last()),
        frames_weight(s) == (if s.last().2 { 1 } else { 2 * size_of(s.last().0.right) + 2 })
            + frames_weight(s.drop_last()),
{
    reveal(frames_ok);
    let t = s.drop_last();
    let i = s.len() - 1;
    assert(s[i] == s.last());
    assert forall|k: int| 1 <= k < t.len() implies Some(*(#[trigger] t[k]).0) == frame_child(t[k - 1]) by {
        assert(t[k] == s[k]);
        assert(t[k - 1] == s[k - 1]);
    }
    assert forall|k: int| 0 <= k < t.len() && (#[trigger] t[k]).2
        implies t[k].1 == height_of(t[k].0.left) && balanced_of(t[k].0.left) by {
        assert(t[k] == s[k]);
    }
    assert forall|k: int| 0 <= k < t.len() implies height_of(Some(*(#[trigger] t[k]).0)) <= height_of(root) by {
        assert(t[k] == s[k]);
    }
    if balanced_of(root) {
        assert forall|k: int| 0 <= k < t.len() implies balanced_of(Some(*(#[trigger] t[k]).0)) by {
            assert(t[k] == s[k]);
        }
        assert(balanced_of(Some(*s[i].0)));
    }
    assert(height_of(Some(*s[i].0)) <= height_of(root));
    if t.len() > 0 {
        assert(t.last() == s[i - 1]);
    }
}

// ==================== lemmas ====================

pub proof fn lemma_height_le_size(link: Link)
    ensures
        height_of(link) <= inorder_of(link).len(),
    decreases link,
{
    if let Some(n) = link {
        lemma_height_le_size(n.left);
        lemma_height_le_size(n.right);
    }
}

pub proof fn lemma_orders_same_length(link: Link)
    ensures
        preorder_of(link).len() == inorder_of(link).len(),
        postorder_of(link).len() == inorder_of(link).len(),
    decreases link,
{
    if let Some(n) = link {
        lemma_orders_same_length(n.left);
        lemma_orders_same_length(n.right);
    }
}

proof fn lemma_bst_sorted(link: Link)
    requires
        bst(link),
    ensures
        sorted(inorder_of(link)),
    decreases link,
{
    if let Some(n) = link {
        lemma_bst_sorted(n.left);
        lemma_bst_sorted(n.right);
        let l = inorder_of(n.left);
        let r = inorder_of(n.right);
        let s = inorder_of(link);
        assert(s == l + seq![n.elem] + r);
        assert forall|i: int, j: int| 0 <= i <= j < s.len() implies s[i] <= s[j] by {
            if i < l.len() {
                assert(l.contains(s[i]));
                if j >= l.len() + 1 {
                    assert(r.contains(s[j]));
                }
            } else if i == l.len() {
                if j > i {
                    assert(r.contains(s[j]));
                }
            }
        }
    }
}

proof fn lemma_insert(link: Link, x: i32)
    ensures
        bst(link) ==> bst(insert_into(link, x)),
        forall|y: i32| #[trigger] inorder_of(insert_into(link, x)).contains(y)
            <==> (inorder_of(link).contains(y) || y == x),
        inorder_of(insert_into(link, x)).to_multiset() =~= inorder_of(link).to_multiset().insert(x),
        inorder_of(insert_into(link, x)).len() == inorder_of(link).len() + 1,
    decreases link,
{
    broadcast use vstd::multiset::group_multiset_axioms;
    broadcast use vstd::seq_lib::lemma_multiset_commutative;

    match link {
        None => {
            assert(inorder_of(insert_into(link, x)) =~= seq![x]);
            assert(seq![x] =~= Seq::<i32>::empty().push(x));
        },
        Some(n) => {
            lemma_insert(n.left, x);
            lemma_insert(n.right, x);
            assert(seq![n.elem] =~= Seq::<i32>::empty().push(n.elem));
            assert(seq![x] =~= Seq::<i32>::empty().push(x));
        },
    }
}

pub proof fn lemma_mapped_size<F: Fn(i32) -> i32>(before: Link, after: Link, f: F)
    requires
        mapped_by(before, after, f),
    ensures
        size_of(after) == size_of(before),
    decreases before,
{
    if let (Some(b), Some(a)) = (before, after) {
        lemma_mapped_size(b.left, a.left, f);
        lemma_mapped_size(b.right, a.right, f);
    }
}

/// Replaces every key of the subtree, parent before children, by `f` of it.
pub(crate) fn map_preorder<F: Fn(i32) -> i32>(link: &mut Link, f: &F)
    requires
        forall|x: i32| call_requires(*f, (x,)),
    ensures
        mapped_by(*old(link), *final(link), *f),
    decreases *old(link),
{
    if let Some(node) = link {
        node.elem = f(node.elem);
        map_preorder(&mut node.left, f);
        map_preorder(&mut node.right, f);
    }
}

// ==================== public tree ====================

pub struct BinaryTree {
    root: Link,
    len: usize,
}

impl BinaryTree {
    /// The root link: the whole shape of the tree, which the specifications below read.
    pub closed spec fn root_link(&self) -> Link {
        self.root
    }

    /// The keys in order.
    pub open spec fn view(&self) -> Seq<i32> {
        inorder_of(self.root_link())
    }

    /// The keys in pre-order.
    pub open spec fn preorder_seq(&self) -> Seq<i32> {
        preorder_of(self.root_link())
    }

    /// The keys in post-order.
    pub open spec fn postorder_seq(&self) -> Seq<i32> {
        postorder_of(self.root_link())
    }

    /// Number of nodes on the longest root-to-leaf path.
    pub open spec fn height(&self) -> nat {
        height_of(self.root_link())
    }

    /// Every node's subtrees differ in height by at most one.
    pub open spec fn is_height_balanced(&self) -> bool {
        balanced_of(self.root_link())
    }

    /// `self` is `prev` with `x` added as a new leaf at the end of its search path
    /// (left of strictly greater keys, right of the others).
    pub open spec fn is_insertion_of(&self, prev: BinaryTree, x: i32) -> bool {
        self.root_link() == insert_into(prev.root_link(), x)
    }

    /// `len` counts the nodes.
    pub closed spec fn wf(&self) -> bool {
        self.len == inorder_of(self.root).len()
    }

    /// The search-tree order: at every node, the keys on the left are smaller than the
    /// node's key and the keys on the right are not.
    pub open spec fn ordered(&self) -> bool {
        bst(self.root_link())
    }

    /// Whether a search for `x` (left at strictly greater keys, right at smaller ones)
    /// meets `x`.
    pub open spec fn found(&self, x: i32) -> bool {
        search_path(self.root_link(), x)
    }

    /// `self` holds the keys of `prev` transformed by `f` in place, with the same shape.
    pub open spec fn is_mapped_from<F: Fn(i32) -> i32>(&self, prev: BinaryTree, f: F) -> bool {
        mapped_by(prev.root_link(), self.root_link(), f)
    }

    /// The in-order sequence of an ordered tree is sorted.
    pub proof fn lemma_inorder_sorted(&self)
        requires
            self.ordered(),
        ensures
            sorted(self@),
    {
        lemma_bst_sorted(self.root);
    }

    /// In an ordered tree, a search finds exactly the keys that the tree holds.
    pub proof fn lemma_found_iff_contains(&self, x: i32)
        requires
            self.ordered(),
        ensures
            self.found(x) == self@.contains(x),
    {
        lemma_search_path(self.root, x);
    }

    pub fn new() -> (t: Self)
        ensures
            t.root_link() is None,
            t.wf(),
            t.ordered(),
            t@ == Seq::<i32>::empty(),
            t.height() == 0,
    {
        BinaryTree { root: None, len: 0 }
    }

    pub fn len(&self) -> (r: usize)
        requires
            self.wf(),
        ensures
            r == self@.len(),
    {
        self.len
    }

    pub fn is_empty(&self) -> (r: bool)
        requires
            self.wf(),
        ensures
            r == (self@.len() == 0),
    {
        self.len == 0
    }

    // -------- insert (recursive) --------
    pub fn insert(&mut self, elem: i32)
        requires
            old(self).wf(),
            old(self)@.len() < usize::MAX,
        ensures
            final(self).wf(),
            final(self).is_insertion_of(*old(self), elem),
            final(self)@.to_multiset() == old(self)@.to_multiset().insert(elem),
            final(self)@.len() == old(self)@.len() + 1,
            old(self).ordered() ==> final(self).ordered() && sorted(final(self)@),
    {
        proof {
            lemma_insert(self.root, elem);
            if bst(self.root) {
                lemma_bst_sorted(insert_into(self.root, elem));
            }
        }
        Self::insert_recursive(&mut self.root, elem);
        self.len = self.len + 1;
    }

    fn insert_recursive(link: &mut Link, elem: i32)
        ensures
            *final(link) == insert_into(*old(link), elem),
        decreases *old(link),
    {
        match link {
            None => {
                *link = Some(new_node(elem));
            },
            Some(node) => {
                if elem < node.elem {
                    Self::insert_recursive(&mut node.left, elem);
                } else {
                    Self::insert_recursive(&mut node.right, elem);
                }
            },
        }
    }

    // -------- insert (iterative) --------
    pub fn insert_iter(&mut self, elem: i32)
        requires
            old(self).wf(),
            old(self)@.len() < usize::MAX,
        ensures
            final(self).wf(),
            final(self).is_insertion_of(*old(self), elem),
            final(self)@.to_multiset() == old(self)@.to_multiset().insert(elem),
            final(self)@.len() == old(self)@.len() + 1,
            old(self).ordered() ==> final(self).ordered() && sorted(final(self)@),
    {
        proof {
            lemma_insert(self.root, elem);
            if bst(self.root) {
                lemma_bst_sorted(insert_into(self.root, elem));
            }
        }
        let mut root = self.root.take();
        let ghost old_root = root;
        let ghost mut ctx: Seq<Frame> = Seq::empty();
        let mut current = &mut root;
        while current.is_some()
            invariant
                after_borrow(root) == plug(ctx, *final(current)),
                insert_into(old_root, elem) == plug(ctx, insert_into(*current, elem)),
            decreases height_of(*current),
        {
            match current {
                Some(node) => {
                    if elem < node.elem {
                        let ghost f = Frame::WentLeft(node.elem, node.right);
                        proof {
                            lemma_plug_push(ctx, f, insert_into(node.left, elem));
                        }
                        current = &mut node.left;
                        proof {
                            lemma_plug_push(ctx, f, *final(current));
                            ctx = ctx.push(f);
                        }
                    } else {
                        let ghost f = Frame::WentRight(node.elem, node.left);
                        proof {
                            lemma_plug_push(ctx, f, insert_into(node.right, elem));
                        }
                        current = &mut node.right;
                        proof {
                            lemma_plug_push(ctx, f, *final(current));
                            ctx = ctx.push(f);
                        }
                    }
                },
                None => {},
            }
        }
        *current = Some(new_node(elem));
        self.root = root;
        self.len = self.len + 1;
    }

    // -------- search (recursive) --------
    pub fn search(&self, elem: &i32) -> (r: bool)
        ensures
            r == self.found(*elem),
            self.ordered() ==> r == self@.contains(*elem),
    {
        proof {
            if self.ordered() {
                lemma_search_path(self.root, *elem);
            }
        }
        Self::search_recursive(&self.root, elem)
    }

    fn search_recursive(link: &Link, elem: &i32) -> (r: bool)
        ensures
            r == search_path(*link, *elem),
        decreases *link,
    {
        match link {
            None => false,
            Some(node) => {
                if node.elem == *elem {
                    true
                } else if node.elem < *elem {
                    Self::search_recursive(&node.right, elem)
                } else {
                    Self::search_recursive(&node.left, elem)
                }
            },
        }
    }


    // -------- search (iterative) --------
    pub fn search_iter(&self, elem: &i32) -> (r: bool)
        ensures
            r == self.found(*elem),
            self.ordered() ==> r == self@.contains(*elem),
    {
        proof {
            if self.ordered() {
                lemma_search_path(self.root, *elem);
            }
        }
        let mut current = &self.root;
        while current.is_some()
            invariant
                self.found(*elem) == search_path(*current, *elem),
                self.ordered() ==> self.found(*elem) == self@.contains(*elem),
            decreases height_of(*current),
        {
            match current {
                Some(node) => {
                    if node.elem == *elem {
                        assert(search_path(*current, *elem));
                        return true;
                    } else if node.elem < *elem {
                        current = &node.right;
                    } else {
                        current = &node.left;
                    }
                },
                None => {},
            }
        }
        false
    }

    // -------- pre-order (iterative) --------
    pub fn preorder_iter(&self) -> (r: Vec<i32>)
        requires
            self.wf(),
        ensures
            r@ == self.preorder_seq(),
    {
        let mut result: Vec<i32> = Vec::new();
        let mut stack: Vec<&Box<Node>> = Vec::new();
        assert(stack_preorder(stack@) == Seq::<i32>::empty());
        if let Some(node) = &self.root {
            stack.push(node);
            proof {
                lemma_seq_push_drop(Seq::<&Box<Node>>::empty(), node);
                assert(stack@ =~= Seq::<&Box<Node>>::empty().push(node));
            }
        }
        assert(result@ + stack_preorder(stack@) =~= self.preorder_seq());
        while stack.len() > 0
            invariant
                result@ + stack_preorder(stack@) == self.preorder_seq(),
            decreases stack_size(stack@),
        {
            let ghost before = stack@;
            let ghost old_result = result@;
            let node = stack.pop().unwrap();
            proof {
                lemma_seq_push_drop(stack@, node);
                assert(before =~= stack@.push(node));
            }
            result.push(node.elem);
            let ghost mid = stack@;
            if let Some(right) = &node.right {
                stack.push(right);
                proof { lemma_seq_push_drop(mid, right); }
            }
            let ghost mid2 = stack@;
            if let Some(left) = &node.left {
                stack.push(left);
                proof { lemma_seq_push_drop(mid2, left); }
            }
            proof {
                assert(stack_preorder(mid2) == preorder_of(node.right) + stack_preorder(mid));
                assert(stack_preorder(stack@) == preorder_of(node.left) + stack_preorder(mid2));
                assert(stack_size(mid2) == size_of(node.right) + stack_size(mid));
                assert(stack_size(stack@) == size_of(node.left) + stack_size(mid2));
                assert(result@ + stack_preorder(stack@) =~= old_result + stack_preorder(before));
            }
        }
        assert(result@ =~= self.preorder_seq());
        result
    }


    // -------- in-order (iterative) --------
    pub fn inorder_iter(&self) -> (r: Vec<i32>)
        requires
            self.wf(),
        ensures
            r@ == self@,
    {
        let mut result: Vec<i32> = Vec::new();
        let mut stack: Vec<&Box<Node>> = Vec::new();
        let mut current: &Link = &self.root;
        assert(stack_inorder(stack@) == Seq::<i32>::empty());
        assert(stack_inorder_size(stack@) == 0);
        assert(result@ + inorder_of(*current) + stack_inorder(stack@) =~= self@);
        while current.is_some() || stack.len() > 0
            invariant
                result@ + inorder_of(*current) + stack_inorder(stack@) == self@,
            decreases size_of(*current) + stack_inorder_size(stack@),
        {
            let ghost measure = size_of(*current) + stack_inorder_size(stack@);
            while current.is_some()
                invariant
                    result@ + inorder_of(*current) + stack_inorder(stack@) == self@,
                    current.is_some() || stack.len() > 0,
                    size_of(*current) + stack_inorder_size(stack@) == measure,
                decreases size_of(*current),
            {
                match current {
                    Some(node) => {
                        let ghost before = stack@;
                        stack.push(node);
                        proof {
                            lemma_seq_push_drop(before, node);
                        }
                        current = &node.left;
                        assert(result@ + inorder_of(*current) + stack_inorder(stack@) =~= self@);
                    },
                    None => {},
                }
            }
            let ghost before = stack@;
            let node = stack.pop().unwrap();
            proof {
                lemma_seq_push_drop(stack@, node);
                assert(before =~= stack@.push(node));
            }
            result.push(node.elem);
            current = &node.right;
            assert(result@ + inorder_of(*current) + stack_inorder(stack@) =~= self@);
        }
        assert(result@ =~= self@);
        result
    }

    // -------- post-order (iterative) --------
    pub fn postorder_iter(&self) -> (r: Vec<i32>)
        requires
            self.wf(),
        ensures
            r@ == self.postorder_seq(),
    {
        let mut result: Vec<i32> = Vec::new();
        let mut stack: Vec<(&Box<Node>, bool)> = Vec::new();
        let mut current: &Link = &self.root;
        assert(stack_postorder(stack@) == Seq::<i32>::empty());
        assert(stack_postorder_weight(stack@) == 0);
        assert(result@ + postorder_of(*current) + stack_postorder(stack@) =~= self.postorder_seq());
        while current.is_some() || stack.len() > 0
            invariant
                result@ + postorder_of(*current) + stack_postorder(stack@) == self.postorder_seq(),
            decreases 2 * size_of(*current) + stack_postorder_weight(stack@),
        {
            let ghost measure = 2 * size_of(*current) + stack_postorder_weight(stack@);
            while current.is_some()
                invariant
                    result@ + postorder_of(*current) + stack_postorder(stack@) == self.postorder_seq(),
                    current.is_some() || stack.len() > 0,
                    2 * size_of(*current) + stack_postorder_weight(stack@) == measure,
                decreases size_of(*current),
            {
                match current {
                    Some(node) => {
                        let ghost before = stack@;
                        stack.push((node, false));
                        proof {
                            lemma_seq_push_drop(before, (node, false));
                        }
                        current = &node.left;
                        assert(result@ + postorder_of(*current) + stack_postorder(stack@)
                            =~= self.postorder_seq());
                    },
                    None => {},
                }
            }
            let ghost before = stack@;
            let (node, right_done) = stack.pop().unwrap();
            proof {
                lemma_seq_push_drop(stack@, (node, right_done));
                assert(before =~= stack@.push((node, right_done)));
            }
            if !right_done && node.right.is_some() {
                let ghost mid = stack@;
                stack.push((node, true));
                proof {
                    lemma_seq_push_drop(mid, (node, true));
                }
                current = &node.right;
                assert(result@ + postorder_of(*current) + stack_postorder(stack@)
                    =~= self.postorder_seq());
            } else {
                result.push(node.elem);
                assert(result@ + postorder_of(*current) + stack_postorder(stack@)
                    =~= self.postorder_seq());
            }
        }
        assert(result@ =~= self.postorder_seq());
        result
    }

    // -------- depth (iterative) --------
    pub fn depth_iter(&self) -> (r: usize)
        requires
            self.wf(),
        ensures
            r == self.height(),
    {
        proof {
            lemma_height_le_size(self.root);
        }
        let mut max_depth: usize = 0;
        let mut stack: Vec<(&Box<Node>, usize)> = Vec::new();
        assert(stack_reach(stack@) == 0);
        assert(depth_stack_size(stack@) == 0);
        if let Some(node) = &self.root {
            stack.push((node, 1));
            proof {
                lemma_seq_push_drop(Seq::<(&Box<Node>, usize)>::empty(), (node, 1usize));
                assert(stack@ =~= Seq::<(&Box<Node>, usize)>::empty().push((node, 1usize)));
            }
        }
        while stack.len() > 0
            invariant
                self.height() <= usize::MAX,
                max_depth <= self.height(),
                max_nat(max_depth as nat, stack_reach(stack@)) == self.height(),
                forall|i: int| 0 <= i < stack@.len() ==> 1 <= (#[trigger] stack@[i]).1
                    && stack@[i].1 - 1 + height_of(Some(*stack@[i].0)) <= self.height(),
            decreases depth_stack_size(stack@),
        {
            let ghost before = stack@;
            let (node, height) = stack.pop().unwrap();
            proof {
                lemma_seq_push_drop(stack@, (node, height));
                assert(before =~= stack@.push((node, height)));
                assert(before[before.len() - 1] == (node, height));
            }
            let ghost hl = height_of(node.left);
            let ghost hr = height_of(node.right);
            assert(height_of(Some(*node)) == 1 + max_nat(hl, hr));
            assert(size_of(Some(*node)) == size_of(node.left) + 1 + size_of(node.right));
            assert(depth_stack_size(before) == depth_stack_size(stack@) + size_of(Some(*node)));
            assert(stack_reach(before) == max_nat(stack_reach(stack@), (height - 1 + 1 + max_nat(hl, hr)) as nat));
            if height > max_depth {
                max_depth = height;
            }
            let ghost mid = stack@;
            if let Some(left) = &node.left {
                assert(hl >= 1);
                stack.push((left, height + 1));
                proof {
                    lemma_seq_push_drop(mid, (left, (height + 1) as usize));
                    assert(stack_reach(stack@) == max_nat(stack_reach(mid), (height + hl) as nat));
                    assert(depth_stack_size(stack@) == depth_stack_size(mid) + size_of(node.left));
                }
            }
            let ghost mid2 = stack@;
            assert(node.left is Some ==> stack_reach(mid2) == max_nat(stack_reach(mid), (height + hl) as nat));
            assert(node.left is None ==> stack_reach(mid2) == stack_reach(mid) && hl == 0);
            if let Some(right) = &node.right {
                assert(hr >= 1);
                stack.push((right, height + 1));
                proof {
                    lemma_seq_push_drop(mid2, (right, (height + 1) as usize));
                    assert(stack_reach(stack@) == max_nat(stack_reach(mid2), (height + hr) as nat));
                    assert(depth_stack_size(stack@) == depth_stack_size(mid2) + size_of(node.right));
                }
            }
            assert(node.right is None ==> stack_reach(stack@) == stack_reach(mid2) && hr == 0);
        }
        max_depth
    }


    // -------- dfs / bfs: transform every key --------
    /// Replaces every key `k` by `f(k)`, visiting each node before its children.
    pub fn dfs<F: Fn(i32) -> i32>(&mut self, f: F)
        requires
            old(self).wf(),
            forall|x: i32| call_requires(f, (x,)),
        ensures
            final(self).wf(),
            final(self).is_mapped_from(*old(self), f),
    {
        map_preorder(&mut self.root, &f);
        proof {
            lemma_mapped_size(old(self).root, self.root, f);
        }
    }

    /// Replaces every key `k` by `f(k)`.
    pub fn bfs<F: Fn(i32) -> i32>(&mut self, f: F)
        requires
            old(self).wf(),
            forall|x: i32| call_requires(f, (x,)),
        ensures
            final(self).wf(),
            final(self).is_mapped_from(*old(self), f),
    {
        map_preorder(&mut self.root, &f);
        proof {
            lemma_mapped_size(old(self).root, self.root, f);
        }
    }

    // -------- iteration --------
    /// The keys in order, borrowed from the tree.
    pub fn iter(&self) -> (r: Vec<&i32>)
        requires
            self.wf(),
        ensures
            r@.len() == self@.len(),
            forall|i: int| 0 <= i < r@.len() ==> *r@[i] == self@[i],
    {
        let mut result: Vec<&i32> = Vec::new();
        collect_refs(&self.root, &mut result);
        result
    }

    /// Consumes the tree, handing out its keys in order.
    pub fn into_iter(self) -> (r: Vec<i32>)
        requires
            self.wf(),
        ensures
            r@ == self@,
    {
        self.inorder()
    }



    // -------- is_balanced (iterative, post-order) --------
    pub fn is_balanced_iter(&self) -> (r: bool)
        requires
            self.wf(),
        ensures
            r == self.is_height_balanced(),
    {
        proof {
            lemma_height_le_size(self.root);
            lemma_frames_empty(self.root);
        }
        let ghost root = self.root;
        let mut stack: Vec<BalanceFrame> = Vec::new();
        let mut current: &Link = &self.root;
        assert(frames_weight(stack@) == 0);
        loop
            invariant
                height_of(root) <= usize::MAX,
                root == self.root,
                frames_ok(stack@, root),
                *current == frames_focus(stack@, root),
            decreases 2 * size_of(*current) + frames_weight(stack@),
        {
            let ghost measure = 2 * size_of(*current) + frames_weight(stack@);
            // descend along left children
            while current.is_some()
                invariant
                    frames_ok(stack@, root),
                    *current == frames_focus(stack@, root),
                    2 * size_of(*current) + frames_weight(stack@) == measure,
                decreases size_of(*current),
            {
                match current {
                    Some(node) => {
                        let ghost before = stack@;
                        stack.push((node, 0, false));
                        proof {
                            lemma_frames_push(before, root, (node, 0usize, false));
                        }
                        current = &node.left;
                    },
                    None => {},
                }
            }
            // hand finished heights up the path
            let mut h: usize = 0;
            proof {
                lemma_frames_focus(stack@, root);
            }
            loop
                invariant_except_break
                    h == height_of(frames_focus(stack@, root)),
                    balanced_of(frames_focus(stack@, root)),
                    frames_weight(stack@) <= measure,
                invariant
                    height_of(root) <= usize::MAX,
                    root == self.root,
                    frames_ok(stack@, root),
                ensures
                    frames_ok(stack@, root),
                    *current == frames_focus(stack@, root),
                    2 * size_of(*current) + frames_weight(stack@) < measure,
                decreases frames_weight(stack@),
            {
                if stack.len() == 0 {
                    return true;
                }
                let ghost before = stack@;
                let (node, lh, left_done) = stack.pop().unwrap();
                proof {
                    lemma_frames_pop(before, root);
                    assert(before.last() == (node, lh, left_done));
                    assert(stack@ == before.drop_last());
                }
                if !left_done {
                    let ghost mid = stack@;
                    stack.push((node, h, true));
                    proof {
                        lemma_frames_push(mid, root, (node, h, true));
                    }
                    current = &node.right;
                    break;
                }
                let diff_ok = if lh >= h { lh - h <= 1 } else { h - lh <= 1 };
                if !diff_ok {
                    return false;
                }
                h = if lh >= h { 1 + lh } else { 1 + h };
            }
        }
    }

    // -------- depth (recursive) --------
    pub fn depth(&self) -> (r: usize)
        requires
            self.wf(),
        ensures
            r == self.height(),
    {
        proof {
            lemma_height_le_size(self.root);
        }
        Self::depth_recursive(&self.root)
    }

    fn depth_recursive(link: &Link) -> (r: usize)
        requires
            inorder_of(*link).len() <= usize::MAX,
        ensures
            r == height_of(*link),
        decreases *link,
    {
        match link {
            None => 0,
            Some(node) => {
                proof {
                    lemma_height_le_size(*link);
                }
                let l = Self::depth_recursive(&node.left);
                let r = Self::depth_recursive(&node.right);
                if l >= r { 1 + l } else { 1 + r }
            },
        }
    }

    // -------- is_balanced --------
    pub fn is_balanced(&self) -> (r: bool)
        requires
            self.wf(),
        ensures
            r == self.is_height_balanced(),
    {
        check_balanced(&self.root).0
    }

    // -------- traversals --------
    pub fn inorder(&self) -> (r: Vec<i32>)
        requires
            self.wf(),
        ensures
            r@ == self@,
    {
        let mut result = Vec::new();
        Self::inorder_recursive(&self.root, &mut result);
        assert(result@ =~= self@);
        result
    }

    fn inorder_recursive(link: &Link, result: &mut Vec<i32>)
        ensures
            final(result)@ == old(result)@ + inorder_of(*link),
        decreases *link,
    {
        if let Some(node) = link {
            Self::inorder_recursive(&node.left, result);
            result.push(node.elem);
            Self::inorder_recursive(&node.right, result);
            assert(final(result)@ =~= old(result)@ + inorder_of(*link));
        } else {
            assert(final(result)@ =~= old(result)@ + inorder_of(*link));
        }
    }

    pub fn preorder(&self) -> (r: Vec<i32>)
        requires
            self.wf(),
        ensures
            r@ == self.preorder_seq(),
    {
        let mut result = Vec::new();
        Self::preorder_recursive(&self.root, &mut result);
        assert(result@ =~= self.preorder_seq());
        result
    }

    fn preorder_recursive(link: &Link, result: &mut Vec<i32>)
        ensures
            final(result)@ == old(result)@ + preorder_of(*link),
        decreases *link,
    {
        if let Some(node) = link {
            result.push(node.elem);
            Self::preorder_recursive(&node.left, result);
            Self::preorder_recursive(&node.right, result);
            assert(final(result)@ =~= old(result)@ + preorder_of(*link));
        } else {
            assert(final(result)@ =~= old(result)@ + preorder_of(*link));
        }
    }

    pub fn postorder(&self) -> (r: Vec<i32>)
        requires
            self.wf(),
        ensures
            r@ == self.postorder_seq(),
    {
        let mut result = Vec::new();
        Self::postorder_recursive(&self.root, &mut result);
        assert(result@ =~= self.postorder_seq());
        result
    }

    fn postorder_recursive(link: &Link, result: &mut Vec<i32>)
        ensures
            final(result)@ == old(result)@ + postorder_of(*link),
        decreases *link,
    {
        if let Some(node) = link {
            Self::postorder_recursive(&node.left, result);
            Self::postorder_recursive(&node.right, result);
            result.push(node.elem);
            assert(final(result)@ =~= old(result)@ + postorder_of(*link));
        } else {
            assert(final(result)@ =~= old(result)@ + postorder_of(*link));
        }
    }
}

pub(crate) fn collect_refs<'a>(link: &'a Link, result: &mut Vec<&'a i32>)
    ensures
        final(result)@.len() == old(result)@.len() + inorder_of(*link).len(),
        forall|i: int| 0 <= i < old(result)@.len() ==> final(result)@[i] == old(result)@[i],
        forall|i: int| 0 <= i < inorder_of(*link).len()
            ==> *final(result)@[old(result)@.len() + i] == inorder_of(*link)[i],
    decreases *link,
{
    if let Some(node) = link {
        let ghost l = inorder_of(node.left);
        let ghost r = inorder_of(node.right);
        collect_refs(&node.left, result);
        result.push(&node.elem);
        collect_refs(&node.right, result);
        assert forall|i: int| 0 <= i < inorder_of(*link).len()
            implies *final(result)@[old(result)@.len() + i] == inorder_of(*link)[i] by {
            if i < l.len() {
            } else if i == l.len() {
            } else {
                assert(inorder_of(*link)[i] == r[i - l.len() - 1]);
            }
        }
    }
}

/// Whether the subtree is height-balanced, and its height.
pub(crate) fn check_balanced(link: &Link) -> (r: (bool, usize))
    requires
        inorder_of(*link).len() <= usize::MAX,
    ensures
        r.0 == balanced_of(*link),
        r.1 == height_of(*link),
    decreases *link,
{
    match link {
        None => (true, 0),
        Some(node) => {
            proof {
                lemma_height_le_size(*link);
            }
            let (l_ok, l_depth) = check_balanced(&node.left);
            let (r_ok, r_depth) = check_balanced(&node.right);
            let diff_ok = if l_depth >= r_depth { l_depth - r_depth <= 1 } else { r_depth - l_depth <= 1 };
            let balanced = l_ok && r_ok && diff_ok;
            let h = if l_depth >= r_depth { 1 + l_depth } else { 1 + r_depth };
            (balanced, h)
        },
    }
}
} // verus!
