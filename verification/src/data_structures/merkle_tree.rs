//! A Merkle tree over 32-byte digests, with inclusion proofs, leaf updates, tree
//! diffing, and a small sparse Merkle tree keyed by `u8`.
//!
//! The digest is a self-contained FNV-1a style mix spread over 32 bytes.
use std::collections::HashMap;
use vstd::prelude::*;

use crate::error_framework::{decimal, decimal_text, joined};

verus! {

broadcast use vstd::seq_lib::group_seq_properties;

// =============================================================================
// Hash type — 32-byte digest
// =============================================================================

#[derive(Clone, Copy, PartialEq, Eq, Hash, Debug)]
pub struct Hash([u8; 32]);

impl View for Hash {
    type V = Seq<u8>;

    closed spec fn view(&self) -> Seq<u8> {
        self.0@
    }
}

/// Lower-case hexadecimal digit of a value below 16.
pub open spec fn hex_digit(n: u8) -> char {
    if n < 10 {
        (48 + n) as char
    } else {
        (87 + n) as char
    }
}

/// Two lower-case hexadecimal digits per byte, most significant first.
pub open spec fn hex_of(bytes: Seq<u8>) -> Seq<char> {
    Seq::new(2 * bytes.len(), |k: int| if k % 2 == 0 {
        hex_digit(bytes[k / 2] / 16)
    } else {
        hex_digit(bytes[k / 2] % 16)
    })
}

fn hex_digit_exec(n: u8) -> (c: char)
    requires
        n < 16,
    ensures
        c == hex_digit(n),
{
    if n < 10 {
        (48 + n) as char
    } else {
        (87 + n) as char
    }
}

impl Hash {
    pub fn zero() -> (h: Self)
        ensures
            h@ == Seq::new(32, |i: int| 0u8),
    {
        let h = Hash([0u8; 32]);
        assert(h@ =~= Seq::new(32, |i: int| 0u8));
        h
    }

    pub fn as_bytes(&self) -> (r: &[u8; 32])
        ensures
            r@ == self@,
    {
        &self.0
    }

    pub fn to_hex(&self) -> (r: String)
        ensures
            r@ == hex_of(self@),
    {
        let mut chars: Vec<char> = Vec::new();
        let mut i: usize = 0;
        while i < 32
            invariant
                i <= 32,
                self@.len() == 32,
                chars@ =~= hex_of(self@.subrange(0, i as int)),
            decreases 32 - i,
        {
            let b = self.0[i];
            chars.push(hex_digit_exec(b / 16));
            chars.push(hex_digit_exec(b % 16));
            i = i + 1;
            assert(chars@ =~= hex_of(self@.subrange(0, i as int)));
        }
        assert(self@.subrange(0, 32) =~= self@);
        crate::helpers::string_from_chars(&chars)
    }

    /// The first eight hexadecimal digits, which is how a digest is shown.
    pub fn short_hex(&self) -> (r: String)
        ensures
            r@ == hex_of(self@).take(8),
    {
        let mut chars: Vec<char> = Vec::new();
        let mut i: usize = 0;
        while i < 4
            invariant
                i <= 4,
                self@.len() == 32,
                chars@ =~= hex_of(self@.subrange(0, i as int)),
            decreases 4 - i,
        {
            let b = self.0[i];
            chars.push(hex_digit_exec(b / 16));
            chars.push(hex_digit_exec(b % 16));
            i = i + 1;
            assert(chars@ =~= hex_of(self@.subrange(0, i as int)));
        }
        assert(hex_of(self@.subrange(0, 4)) =~= hex_of(self@).take(8));
        crate::helpers::string_from_chars(&chars)
    }

    /// Byte-wise equality.
    pub fn equals(&self, other: &Hash) -> (r: bool)
        ensures
            r == (self@ == other@),
    {
        let mut i: usize = 0;
        while i < 32
            invariant
                i <= 32,
                self@.len() == 32,
                other@.len() == 32,
                forall|k: int| 0 <= k < i ==> self@[k] == other@[k],
            decreases 32 - i,
        {
            if self.0[i] != other.0[i] {
                return false;
            }
            i = i + 1;
        }
        assert(self@ =~= other@);
        true
    }
}

// =============================================================================
// Hashing
// =============================================================================

pub open spec fn rotl(x: u64, k: u32) -> u64 {
    ((x << k) | (x >> ((64 - k) as u32))) as u64
}

/// `x.rotate_left(k)` for `0 < k < 64`.
fn rotate_left(x: u64, k: u32) -> (r: u64)
    requires
        0 < k < 64,
    ensures
        r == rotl(x, k),
{
    (x << k) | (x >> (64 - k))
}

pub open spec fn fnv_step(h: u64, b: u8) -> u64 {
    vstd::wrapping::u64_specs::wrapping_add(
        rotl(vstd::wrapping::u64_specs::wrapping_mul(h ^ (b as u64), 0x100000001b3u64), 13),
        0x9e3779b97f4a7c15u64,
    )
}

/// The 64-bit running state after absorbing `data`.
pub open spec fn fnv_state(data: Seq<u8>) -> u64
    decreases data.len(),
{
    if data.len() == 0 {
        0xcbf29ce484222325u64
    } else {
        fnv_step(fnv_state(data.drop_last()), data.last())
    }
}

/// The `i`-th 8-byte lane of the digest.
pub open spec fn lane(h: u64, i: u32) -> u64 {
    rotl(
        vstd::wrapping::u64_specs::wrapping_add(
            h,
            vstd::wrapping::u64_specs::wrapping_mul(i as u64, 0x6c62272e07bb0142u64),
        ),
        (i * 7 + 5) as u32,
    )
}

/// The digest of `data`: four lanes, each stored little-endian.
pub open spec fn digest(data: Seq<u8>) -> Seq<u8> {
    Seq::new(32, |k: int| (lane(fnv_state(data), (k / 8) as u32) >> (8 * (k % 8)) as u64) as u8)
}

/// The digest of two digests side by side.
pub open spec fn digest_pair(left: Seq<u8>, right: Seq<u8>) -> Seq<u8> {
    digest(left + right)
}

pub fn hash_data(data: &[u8]) -> (r: Hash)
    ensures
        r@ == digest(data@),
{
    let mut h: u64 = 0xcbf29ce484222325;
    let mut i: usize = 0;
    while i < data.len()
        invariant
            i <= data@.len(),
            h == fnv_state(data@.subrange(0, i as int)),
        decreases data@.len() - i,
    {
        h = h ^ (data[i] as u64);
        h = h.wrapping_mul(0x100000001b3);
        h = rotate_left(h, 13).wrapping_add(0x9e3779b97f4a7c15);
        i = i + 1;
        assert(data@.subrange(0, i as int).drop_last() =~= data@.subrange(0, i - 1));
    }
    assert(data@.subrange(0, data@.len() as int) =~= data@);
    let mut state = [0u8; 32];
    let mut lane_index: u32 = 0;
    while lane_index < 4
        invariant
            lane_index <= 4,
            h == fnv_state(data@),
            forall|k: int| 0 <= k < 8 * lane_index ==> state@[k] == #[trigger] digest(data@)[k],
        decreases 4 - lane_index,
    {
        let mixed = rotate_left(
            h.wrapping_add((lane_index as u64).wrapping_mul(0x6c62272e07bb0142)),
            lane_index * 7 + 5,
        );
        assert(mixed == lane(h, lane_index));
        let mut j: usize = 0;
        while j < 8
            invariant
                j <= 8,
                lane_index < 4,
                h == fnv_state(data@),
                mixed == lane(h, lane_index),
                forall|k: int| 0 <= k < 8 * lane_index + j ==> state@[k] == #[trigger] digest(data@)[k],
            decreases 8 - j,
        {
            let k = (lane_index as usize) * 8 + j;
            state[k] = (mixed >> (8 * j as u64)) as u8;
            assert(k / 8 == lane_index as int && k % 8 == j as int);
            j = j + 1;
        }
        lane_index = lane_index + 1;
    }
    let r = Hash(state);
    assert(r@ =~= digest(data@));
    r
}

pub fn hash_pair(left: &Hash, right: &Hash) -> (r: Hash)
    ensures
        r@ == digest_pair(left@, right@),
{
    let mut combined: Vec<u8> = Vec::with_capacity(64);
    let mut i: usize = 0;
    while i < 32
        invariant
            i <= 32,
            left@.len() == 32,
            combined@ =~= left@.subrange(0, i as int),
        decreases 32 - i,
    {
        combined.push(left.0[i]);
        i = i + 1;
    }
    let mut j: usize = 0;
    while j < 32
        invariant
            j <= 32,
            left@.len() == 32,
            right@.len() == 32,
            combined@ =~= left@ + right@.subrange(0, j as int),
        decreases 32 - j,
    {
        combined.push(right.0[j]);
        j = j + 1;
    }
    assert(combined@ =~= left@ + right@);
    hash_data(combined.as_slice())
}

// =============================================================================
// MerkleTree
// =============================================================================
// `nodes` is a complete binary tree in heap layout: index 1 is the root, the
// children of `i` are `2i` and `2i + 1`, the leaves occupy
// `[leaf_offset, 2 * leaf_offset)`; index 0 is unused.

/// `n` is a power of two.
pub open spec fn is_pow2(n: nat) -> bool
    decreases n,
{
    if n == 1 {
        true
    } else if n < 1 || n % 2 == 1 {
        false
    } else {
        is_pow2(n / 2)
    }
}

/// Number of halvings that bring `n` down to 1.
pub open spec fn log2(n: nat) -> nat
    decreases n,
{
    if n <= 1 {
        0
    } else {
        1 + log2(n / 2)
    }
}

/// Doubling from `p` until reaching at least `n`.
pub open spec fn double_until(p: nat, n: nat) -> nat
    decreases (if p >= n { 0 } else { n - p }),
{
    if p == 0 || p >= n {
        p
    } else {
        double_until(2 * p, n)
    }
}

/// Number of leaf slots for `n` leaves: the least power of two that is at least `n`,
/// and at least two.
pub open spec fn padded_size(n: nat) -> nat {
    double_until(2, n)
}

proof fn lemma_double_until(p: nat, n: nat)
    requires
        p >= 1,
        is_pow2(p),
    ensures
        double_until(p, n) >= p,
        double_until(p, n) >= n,
        is_pow2(double_until(p, n)),
        p < n ==> double_until(p, n) < 2 * n,
    decreases (if p >= n { 0 } else { n - p }),
{
    if p < n {
        assert((2 * p) / 2 == p);
        lemma_double_until(2 * p, n);
    }
}

proof fn lemma_log2_lt(n: nat)
    requires
        n >= 1,
    ensures
        log2(n) < n,
    decreases n,
{
    if n > 1 {
        lemma_log2_lt(n / 2);
    }
}

/// In a power-of-two-sized level, every index has the same number of ancestors.
proof fn lemma_log2_level(p: nat, i: nat)
    requires
        is_pow2(p),
        p <= i < 2 * p,
    ensures
        log2(i) == log2(p),
    decreases p,
{
    if p > 1 {
        lemma_log2_level(p / 2, i / 2);
    }
}

/// Which side is the sibling on relative to our path node?
#[derive(Debug, Clone, Copy, PartialEq, Eq)]
pub enum Side {
    Left,
    Right,
}

#[derive(Debug, Clone, Copy)]
pub struct ProofNode {
    pub hash: Hash,
    pub side: Side,
}

#[derive(Debug, Clone)]
pub struct MerkleProof {
    pub leaf: Hash,
    pub index: usize,
    /// Ordered leaf to root.
    pub siblings: Vec<ProofNode>,
}

/// The root obtained by walking a proof from a leaf digest upwards.
pub open spec fn proof_root(leaf: Seq<u8>, siblings: Seq<ProofNode>) -> Seq<u8>
    decreases siblings.len(),
{
    if siblings.len() == 0 {
        leaf
    } else {
        let last = siblings.last();
        let below = proof_root(leaf, siblings.drop_last());
        match last.side {
            Side::Right => digest_pair(below, last.hash@),
            Side::Left => digest_pair(last.hash@, below),
        }
    }
}

/// The node `k` levels above node `i`.
pub open spec fn ancestor_at(i: nat, k: nat) -> nat
    decreases k,
{
    if k == 0 {
        i
    } else {
        ancestor_at(i, (k - 1) as nat) / 2
    }
}

/// The other child of `i`'s parent.
pub open spec fn sibling_of(i: nat) -> nat {
    if i % 2 == 0 { (i + 1) as nat } else { (i - 1) as nat }
}

/// The side on which `i`'s sibling sits.
pub open spec fn side_of(i: nat) -> Side {
    if i % 2 == 0 { Side::Right } else { Side::Left }
}

/// `k` lies strictly above `i` on the path from `i` to the root.
pub open spec fn is_ancestor(k: nat, i: nat) -> bool
    decreases i,
{
    if i <= 1 {
        false
    } else {
        k == i / 2 || is_ancestor(k, i / 2)
    }
}

/// Leaves (relative to `offset`) found by descending from node `i` through nodes whose
/// digests differ between `a` and `b`, in left-to-right order.
pub open spec fn diff_below(a: Seq<Hash>, b: Seq<Hash>, offset: nat, i: nat) -> Seq<usize>
    decreases (if i >= offset || i == 0 { 0 } else { offset - i }),
{
    if i == 0 {
        Seq::empty()
    } else if a[i as int]@ == b[i as int]@ {
        Seq::empty()
    } else if i >= offset {
        seq![(i - offset) as usize]
    } else {
        diff_below(a, b, offset, 2 * i) + diff_below(a, b, offset, 2 * i + 1)
    }
}

/// The Merkle root of a level of leaf digests whose length is a power of two: a single
/// digest is its own root, and a longer level hashes the roots of its two halves.
pub open spec fn merkle_root(level: Seq<Seq<u8>>) -> Seq<u8>
    decreases level.len(),
{
    if level.len() <= 1 {
        level[0]
    } else {
        let half = level.len() / 2;
        digest_pair(
            merkle_root(level.subrange(0, half as int)),
            merkle_root(level.subrange(half as int, level.len() as int)),
        )
    }
}

/// The leaf level that `leaves` are padded to: the leaves, then copies of the last one up
/// to `padded_size` slots.
pub open spec fn padded_level(leaves: Seq<Seq<u8>>) -> Seq<Seq<u8>> {
    Seq::new(
        padded_size(leaves.len()),
        |j: int| if j < leaves.len() { leaves[j] } else { leaves.last() },
    )
}

/// No stretch of `a` and the stretch of `b` at the same place have the same Merkle root
/// unless they are equal: the two levels of leaf digests show no hash collision.
pub open spec fn collision_free(a: Seq<Seq<u8>>, b: Seq<Seq<u8>>) -> bool {
    forall|lo: int, hi: int|
        #![trigger merkle_root(a.subrange(lo, hi)), merkle_root(b.subrange(lo, hi))]
        0 <= lo < hi <= a.len() && hi <= b.len() && merkle_root(a.subrange(lo, hi))
            == merkle_root(b.subrange(lo, hi)) ==> a.subrange(lo, hi) == b.subrange(lo, hi)
}

/// Node `i` holds the digest of its two children.
pub open spec fn consistent(nodes: Seq<Hash>, i: int) -> bool {
    nodes[i]@ == digest_pair(nodes[2 * i]@, nodes[2 * i + 1]@)
}

pub struct MerkleTree {
    nodes: Vec<Hash>,
    leaf_count: usize,
    leaf_offset: usize,
}

impl MerkleTree {
    /// Every internal node holds the digest of its two children.
    pub closed spec fn consistent_at(&self, i: int) -> bool {
        consistent(self.nodes@, i)
    }

    pub closed spec fn wf(&self) -> bool {
        &&& self.leaf_count >= 1
        &&& self.leaf_offset == padded_size(self.leaf_count as nat)
        &&& is_pow2(self.leaf_offset as nat)
        &&& self.leaf_offset >= 2
        &&& self.leaf_count <= self.leaf_offset
        &&& self.nodes@.len() == 2 * self.leaf_offset
        &&& 2 * self.leaf_offset <= usize::MAX
        &&& forall|i: int| 1 <= i < self.leaf_offset ==> #[trigger] self.consistent_at(i)
    }

    /// The digest at the root.
    pub closed spec fn root_hash(&self) -> Seq<u8> {
        self.nodes@[1]@
    }

    /// The digests of the data leaves, in order.
    pub closed spec fn leaves(&self) -> Seq<Seq<u8>> {
        Seq::new(self.leaf_count as nat, |j: int| self.nodes@[self.leaf_offset + j]@)
    }

    /// The digests of every leaf slot, padding included.
    pub closed spec fn level(&self) -> Seq<Seq<u8>> {
        Seq::new(self.leaf_offset as nat, |j: int| self.nodes@[self.leaf_offset + j]@)
    }

    /// Number of leaf slots (the data leaves rounded up to a power of two, at least two).
    pub closed spec fn slots(&self) -> nat {
        self.leaf_offset as nat
    }

    /// `p` is the inclusion proof of data leaf `index`: the leaf digest, then for each
    /// level from the leaf upwards the digest of the sibling node and its side.
    pub closed spec fn is_inclusion_proof(&self, p: MerkleProof, index: usize) -> bool {
        let leaf_node = (self.leaf_offset + index) as nat;
        &&& p.leaf@ == self.nodes@[leaf_node as int]@
        &&& p.index == index
        &&& p.siblings@.len() == log2(self.leaf_offset as nat)
        &&& forall|k: int| 0 <= k < p.siblings@.len() ==> {
            &&& (#[trigger] p.siblings@[k]).hash@ == self.nodes@[sibling_of(ancestor_at(leaf_node, k as nat)) as int]@
            &&& p.siblings@[k].side == side_of(ancestor_at(leaf_node, k as nat))
        }
    }

    /// Leaves that `diff` reports against `other`.
    pub closed spec fn diff_leaves(&self, other: &MerkleTree) -> Seq<usize> {
        diff_below(self.nodes@, other.nodes@, self.leaf_offset as nat, 1).filter(
            |j: usize| j < self.leaf_count,
        )
    }

    /// Build a Merkle tree from a slice of byte slices; the leaves are their digests.
    pub fn build(data: &[&[u8]]) -> (t: Self)
        requires
            data@.len() >= 1,
            2 * padded_size(data@.len()) <= usize::MAX,
        ensures
            t.wf(),
            t.slots() == padded_size(data@.len()),
            t.leaves().len() == data@.len(),
            forall|j: int| 0 <= j < data@.len() ==> t.leaves()[j] == digest(data@[j]@),
            forall|j: int| data@.len() <= j < t.slots() ==> t.level()[j] == digest(data@.last()@),
    {
        let mut raw_leaves: Vec<Hash> = Vec::new();
        let mut i: usize = 0;
        while i < data.len()
            invariant
                i <= data@.len(),
                raw_leaves@.len() == i,
                forall|j: int| 0 <= j < i ==> raw_leaves@[j]@ == digest(data@[j]@),
            decreases data@.len() - i,
        {
            raw_leaves.push(hash_data(data[i]));
            i = i + 1;
        }
        Self::from_hashes(raw_leaves)
    }

    /// Build directly from leaf digests. Pads with copies of the last leaf up to a power
    /// of two (and to at least two leaves).
    pub fn from_hashes(leaves: Vec<Hash>) -> (t: Self)
        requires
            leaves@.len() >= 1,
            2 * padded_size(leaves@.len()) <= usize::MAX,
        ensures
            t.wf(),
            t.slots() == padded_size(leaves@.len()),
            t.leaves().len() == leaves@.len(),
            forall|j: int| 0 <= j < leaves@.len() ==> t.leaves()[j] == leaves@[j]@,
            forall|j: int| leaves@.len() <= j < t.slots() ==> t.level()[j] == leaves@.last()@,
            t.level() == padded_level(leaves@.map_values(|h: Hash| h@)),
    {
        let ghost original = leaves@;
        let mut leaves = leaves;
        let leaf_count = leaves.len();
        proof {
            reveal_with_fuel(is_pow2, 2);
            lemma_double_until(2, leaf_count as nat);
        }
        // the least power of two that is at least `leaf_count` (and at least 2)
        let mut padded: usize = 2;
        while padded < leaf_count
            invariant
                padded >= 2,
                is_pow2(padded as nat),
                double_until(padded as nat, leaf_count as nat) == padded_size(leaf_count as nat),
                padded <= padded_size(leaf_count as nat),
                2 * padded_size(leaf_count as nat) <= usize::MAX,
            decreases padded_size(leaf_count as nat) - padded,
        {
            proof {
                assert((2 * padded as nat) / 2 == padded as nat);
                assert(is_pow2(2 * padded as nat));
                lemma_double_until(2 * padded as nat, leaf_count as nat);
            }
            padded = padded * 2;
        }
        let last = leaves[leaf_count - 1];
        while leaves.len() < padded
            invariant
                leaf_count <= leaves@.len() <= padded,
                forall|j: int| 0 <= j < leaf_count ==> leaves@[j] == original[j],
                forall|j: int| leaf_count <= j < leaves@.len() ==> leaves@[j] == last,
            decreases padded - leaves@.len(),
        {
            leaves.push(last);
        }
        let total = 2 * padded;
        let mut nodes: Vec<Hash> = Vec::new();
        let mut k: usize = 0;
        while k < padded
            invariant
                k <= padded,
                nodes@.len() == k,
            decreases padded - k,
        {
            nodes.push(Hash::zero());
            k = k + 1;
        }
        let leaf_offset = padded;
        let mut i: usize = 0;
        while i < padded
            invariant
                i <= padded,
                leaves@.len() == padded,
                nodes@.len() == leaf_offset + i,
                leaf_offset == padded,
                forall|j: int| 0 <= j < i ==> nodes@[leaf_offset + j] == leaves@[j],
            decreases padded - i,
        {
            nodes.push(leaves[i]);
            i = i + 1;
        }
        // internal nodes, bottom-up
        let mut i = leaf_offset - 1;
        while i >= 1
            invariant
                0 <= i < leaf_offset,
                nodes@.len() == total,
                total == 2 * leaf_offset,
                forall|j: int| leaf_offset <= j < total ==> nodes@[j] == leaves@[j - leaf_offset],
                forall|j: int| i < j < leaf_offset ==> #[trigger] consistent(nodes@, j),
            decreases i,
        {
            let h = hash_pair(&nodes[i * 2], &nodes[i * 2 + 1]);
            let ghost before = nodes@;
            nodes.set(i, h);
            assert forall|j: int| i <= j < leaf_offset implies #[trigger] consistent(nodes@, j) by {
                if j > i {
                    assert(consistent(before, j));
                }
            }
            i = i - 1;
        }
        let t = MerkleTree { nodes, leaf_count, leaf_offset };
        assert forall|i: int| 1 <= i < t.leaf_offset implies #[trigger] t.consistent_at(i) by {}
        assert(t.level() =~= padded_level(original.map_values(|h: Hash| h@)));
        t
    }

    /// The root hash — commits to all data in the tree.
    pub fn root(&self) -> (r: &Hash)
        requires
            self.wf(),
        ensures
            r@ == self.root_hash(),
            r@ == merkle_root(self.level()),
    {
        proof {
            law_root_is_merkle_root(*self);
        }
        &self.nodes[1]
    }

    /// Number of data leaves (before padding).
    pub fn len(&self) -> (r: usize)
        requires
            self.wf(),
        ensures
            r == self.leaves().len(),
    {
        self.leaf_count
    }

    pub fn is_empty(&self) -> (r: bool)
        requires
            self.wf(),
        ensures
            r == (self.leaves().len() == 0),
    {
        self.leaf_count == 0
    }

    /// Height of the tree (root = 0, leaves = height).
    pub fn height(&self) -> (r: usize)
        requires
            self.wf(),
        ensures
            r == log2(self.slots()),
    {
        proof {
            lemma_log2_lt(self.leaf_offset as nat);
        }
        let mut h: usize = 0;
        let mut p = self.leaf_offset;
        while p > 1
            invariant
                h + log2(p as nat) == log2(self.leaf_offset as nat),
                log2(self.leaf_offset as nat) < self.leaf_offset,
            decreases p,
        {
            p = p / 2;
            h = h + 1;
        }
        h
    }

    /// The leaf hash at position `index` (0-based).
    pub fn leaf(&self, index: usize) -> (r: Option<&Hash>)
        requires
            self.wf(),
        ensures
            index < self.leaves().len() <==> r is Some,
            r matches Some(h) ==> h@ == self.leaves()[index as int],
    {
        if index >= self.leaf_count {
            return None;
        }
        Some(&self.nodes[self.leaf_offset + index])
    }

    /// Generate a proof that the leaf at `index` is included in this tree: the sibling
    /// digests met on the way from the leaf to the root.
    pub fn inclusion_proof(&self, index: usize) -> (r: Option<MerkleProof>)
        requires
            self.wf(),
        ensures
            index < self.leaves().len() <==> r is Some,
            r matches Some(p) ==> {
                &&& self.is_inclusion_proof(p, index)
                &&& p.index == index
                &&& forall|k: int| 0 <= k < p.siblings@.len() ==> (#[trigger] p.siblings@[k]).side
                    == side_of(ancestor_at((self.slots() + index) as nat, k as nat))
                &&& p.leaf@ == self.leaves()[index as int]
                &&& p.siblings@.len() == log2(self.slots())
                &&& proof_root(p.leaf@, p.siblings@) == self.root_hash()
            },
    {
        if index >= self.leaf_count {
            return None;
        }
        let mut siblings: Vec<ProofNode> = Vec::new();
        let mut i = self.leaf_offset + index;
        let leaf = self.nodes[i];
        proof {
            lemma_log2_level(self.leaf_offset as nat, i as nat);
        }
        while i > 1
            invariant
                self.wf(),
                index < self.leaf_count,
                1 <= i < 2 * self.leaf_offset,
                leaf == self.nodes@[self.leaf_offset + index],
                proof_root(leaf@, siblings@) == self.nodes@[i as int]@,
                siblings@.len() + log2(i as nat) == log2(self.leaf_offset as nat),
                i == ancestor_at((self.leaf_offset + index) as nat, siblings@.len()),
                forall|k: int| 0 <= k < siblings@.len() ==> {
                    &&& (#[trigger] siblings@[k]).hash@ == self.nodes@[sibling_of(ancestor_at((self.leaf_offset + index) as nat, k as nat)) as int]@
                    &&& siblings@[k].side == side_of(ancestor_at((self.leaf_offset + index) as nat, k as nat))
                },
            decreases i,
        {
            let sibling_idx = if i % 2 == 0 { i + 1 } else { i - 1 };
            let side = if i % 2 == 0 { Side::Right } else { Side::Left };
            let ghost before = siblings@;
            siblings.push(ProofNode { hash: self.nodes[sibling_idx], side });
            proof {
                let parent = (i / 2) as int;
                assert(self.consistent_at(parent));
                assert(siblings@.drop_last() =~= before);
                if i % 2 == 0 {
                    assert(2 * parent == i);
                } else {
                    assert(2 * parent + 1 == i);
                }
            }
            i = i / 2;
        }
        Some(MerkleProof { leaf, index, siblings })
    }

    /// Verify a proof against this tree's root.
    pub fn verify(&self, proof: &MerkleProof) -> (r: bool)
        requires
            self.wf(),
        ensures
            r == (proof_root(proof.leaf@, proof.siblings@) == self.root_hash()),
    {
        proof.verify(self.root())
    }

    /// Replace the leaf at `index` with the digest of `new_data` and recompute all
    /// ancestor digests up to the root.
    pub fn update(&mut self, index: usize, new_data: &[u8]) -> (r: bool)
        requires
            old(self).wf(),
        ensures
            final(self).wf(),
            r == (index < old(self).leaves().len()),
            r ==> final(self).level() == old(self).level().update(index as int, digest(new_data@)),
            r ==> final(self).leaves() == old(self).leaves().update(index as int, digest(new_data@)),
            !r ==> *final(self) == *old(self),
            final(self).leaves().len() == old(self).leaves().len(),
    {
        self.update_hash(index, hash_data(new_data))
    }

    pub fn update_hash(&mut self, index: usize, new_hash: Hash) -> (r: bool)
        requires
            old(self).wf(),
        ensures
            final(self).wf(),
            r == (index < old(self).leaves().len()),
            r ==> final(self).level() == old(self).level().update(index as int, new_hash@),
            r ==> final(self).leaves() == old(self).leaves().update(index as int, new_hash@),
            !r ==> *final(self) == *old(self),
            final(self).leaves().len() == old(self).leaves().len(),
    {
        if index >= self.leaf_count {
            return false;
        }
        let ghost old_nodes = self.nodes@;
        let mut i = self.leaf_offset + index;
        self.nodes.set(i, new_hash);
        let leaf_i = i;
        proof {
            assert forall|k: int| 1 <= k < self.leaf_offset && !is_ancestor(k as nat, i as nat)
                implies #[trigger] consistent(self.nodes@, k) by {
                assert(old(self).consistent_at(k));
                assert(k != i / 2);
            }
        }
        while i > 1
            invariant
                1 <= i < 2 * self.leaf_offset,
                self.leaf_count == old(self).leaf_count,
                self.leaf_offset == old(self).leaf_offset,
                self.leaf_offset >= 2,
                2 * self.leaf_offset <= usize::MAX,
                self.nodes@.len() == 2 * self.leaf_offset,
                leaf_i == self.leaf_offset + index,
                forall|k: int| self.leaf_offset <= k < 2 * self.leaf_offset
                    ==> self.nodes@[k] == (if k == leaf_i { new_hash } else { old_nodes[k] }),
                forall|k: int| 1 <= k < self.leaf_offset && !is_ancestor(k as nat, i as nat)
                    ==> #[trigger] consistent(self.nodes@, k),
            decreases i,
        {
            let ghost child = i;
            i = i / 2;
            let h = hash_pair(&self.nodes[i * 2], &self.nodes[i * 2 + 1]);
            let ghost before = self.nodes@;
            self.nodes.set(i, h);
            proof {
                assert forall|k: int| 1 <= k < self.leaf_offset && !is_ancestor(k as nat, i as nat)
                    implies #[trigger] consistent(self.nodes@, k) by {
                    if k != i {
                        assert(!is_ancestor(k as nat, child as nat));
                        assert(consistent(before, k));
                    }
                }
            }
        }
        proof {
            lemma_update_done(*old(self), *self, index, new_hash);
        }
        true
    }

    /// Indices of the data leaves that differ between two trees of the same shape.
    /// Subtrees whose root digests agree are skipped.
    pub fn diff(&self, other: &MerkleTree) -> (r: Vec<usize>)
        requires
            self.wf(),
            other.wf(),
            self.slots() == other.slots(),
        ensures
            r@ == self.diff_leaves(other),
            forall|k: int, m: int| 0 <= k < m < r@.len() ==> r@[k] < r@[m],
            forall|k: int| 0 <= k < r@.len() ==> r@[k] < self.leaves().len(),
    {
        let mut changed: Vec<usize> = Vec::new();
        self.diff_node(other, 1, &mut changed);
        proof {
            lemma_diff_below_increasing(self.nodes@, other.nodes@, self.leaf_offset as nat, 1, self.leaf_offset as nat);
        }
        let mut kept: Vec<usize> = Vec::new();
        let mut k: usize = 0;
        let ghost all = changed@;
        let ghost pred = |j: usize| j < self.leaf_count;
        while k < changed.len()
            invariant
                k <= changed@.len(),
                changed@ == all,
                kept@ == all.subrange(0, k as int).filter(pred),
                pred == |j: usize| j < self.leaf_count,
                forall|a: int, c: int| 0 <= a < c < all.len() ==> all[a] < all[c],
                forall|a: int, c: int| 0 <= a < c < kept@.len() ==> kept@[a] < kept@[c],
                forall|a: int| 0 <= a < kept@.len() ==> kept@[a] < self.leaf_count,
                forall|a: int| 0 <= a < kept@.len() ==> exists|m: int| 0 <= m < k && all[m] == #[trigger] kept@[a],
            decreases changed@.len() - k,
        {
            proof {
                assert(all.subrange(0, k + 1).drop_last() =~= all.subrange(0, k as int));
                all.subrange(0, k as int).lemma_filter_push(all[k as int], pred);
                assert(all.subrange(0, k as int).push(all[k as int]) =~= all.subrange(0, k + 1));
            }
            if changed[k] < self.leaf_count {
                let ghost before = kept@;
                kept.push(changed[k]);
                proof {
                    assert forall|a: int| 0 <= a < kept@.len() implies exists|m: int| 0 <= m < k + 1
                        && all[m] == #[trigger] kept@[a] by {
                        if a < before.len() {
                            let m = choose|m: int| 0 <= m < k && all[m] == before[a];
                            assert(all[m] == kept@[a]);
                        } else {
                            assert(all[k as int] == kept@[a]);
                        }
                    }
                    assert forall|a: int, c: int| 0 <= a < c < kept@.len() implies kept@[a] < kept@[c] by {
                        if c == before.len() {
                            let m = choose|m: int| 0 <= m < k && all[m] == before[a];
                            assert(all[m] == kept@[a]);
                        }
                    }
                }
            }
            k = k + 1;
        }
        assert(all.subrange(0, all.len() as int) =~= all);
        kept
    }

    fn diff_node(&self, other: &MerkleTree, i: usize, changed: &mut Vec<usize>)
        requires
            self.wf(),
            other.wf(),
            self.leaf_offset == other.leaf_offset,
            1 <= i < 2 * self.leaf_offset,
        ensures
            final(changed)@ == old(changed)@ + diff_below(self.nodes@, other.nodes@, self.leaf_offset as nat, i as nat),
        decreases 2 * self.leaf_offset - i,
    {
        if self.nodes[i].equals(&other.nodes[i]) {
            assert(final(changed)@ =~= old(changed)@ + diff_below(self.nodes@, other.nodes@, self.leaf_offset as nat, i as nat));
            return;
        }
        if i >= self.leaf_offset {
            changed.push(i - self.leaf_offset);
            assert(final(changed)@ =~= old(changed)@ + diff_below(self.nodes@, other.nodes@, self.leaf_offset as nat, i as nat));
            return;
        }
        self.diff_node(other, i * 2, changed);
        self.diff_node(other, i * 2 + 1, changed);
        assert(final(changed)@ =~= old(changed)@ + diff_below(self.nodes@, other.nodes@, self.leaf_offset as nat, i as nat));
    }
}

/// Node `i`, whose subtree spans `width` leaf slots, holds the Merkle root of those slots.
proof fn lemma_node_is_merkle_root(t: MerkleTree, i: nat, width: nat)
    requires
        t.wf(),
        i >= 1,
        is_pow2(width),
        i * width >= t.leaf_offset,
        (i + 1) * width <= 2 * t.leaf_offset,
    ensures
        t.nodes@[i as int]@ == merkle_root(
            t.level().subrange(i * width - t.leaf_offset, (i + 1) * width - t.leaf_offset),
        ),
    decreases width,
{
    let off = t.leaf_offset as int;
    let iw = i * width;
    assert((i + 1) * width == iw + width) by (nonlinear_arith)
        requires
            iw == i * width,
    ;
    let lo = iw - off;
    let hi = iw + width - off;
    let level = t.level();
    if width == 1 {
        assert(iw == i) by (nonlinear_arith)
            requires
                iw == i * width,
                width == 1,
        ;
        assert(level.subrange(lo, hi).len() == 1);
        assert(level.subrange(lo, hi)[0] == t.nodes@[i as int]@);
    } else {
        assert(width >= 2 && width % 2 == 0) by {
            reveal_with_fuel(is_pow2, 2);
        }
        let w2 = width / 2;
        assert(is_pow2(w2)) by {
            reveal_with_fuel(is_pow2, 2);
        }
        assert(i < off) by (nonlinear_arith)
            requires
                iw == i * width,
                iw + width <= 2 * off,
                width >= 2,
                i >= 1,
        ;
        assert(t.consistent_at(i as int));
        assert((2 * i) * w2 == iw && (2 * i + 1) * w2 == iw + w2 && (2 * i + 2) * w2 == iw + width)
            by (nonlinear_arith)
            requires
                w2 * 2 == width,
                iw == i * width,
        ;
        lemma_node_is_merkle_root(t, 2 * i, w2);
        lemma_node_is_merkle_root(t, 2 * i + 1, w2);
        let whole = level.subrange(lo, hi);
        assert(whole.subrange(0, w2 as int) =~= level.subrange(lo, lo + w2));
        assert(whole.subrange(w2 as int, width as int) =~= level.subrange(lo + w2, hi));
    }
}

/// What `diff_below` finds under node `i`, whose subtree spans `width` leaf slots, lies
/// within those slots and comes in increasing order.
proof fn lemma_diff_below_increasing(a: Seq<Hash>, b: Seq<Hash>, off: nat, i: nat, width: nat)
    requires
        i >= 1,
        is_pow2(width),
        i * width >= off,
        (i + 1) * width <= 2 * off,
        2 * off <= usize::MAX,
    ensures
        forall|k: int| 0 <= k < diff_below(a, b, off, i).len() ==> i * width - off
            <= #[trigger] diff_below(a, b, off, i)[k] < (i + 1) * width - off,
        forall|k: int, m: int| 0 <= k < m < diff_below(a, b, off, i).len()
            ==> diff_below(a, b, off, i)[k] < diff_below(a, b, off, i)[m],
    decreases width,
{
    let iw = i * width;
    assert((i + 1) * width == iw + width) by (nonlinear_arith)
        requires
            iw == i * width,
    ;
    if a[i as int]@ == b[i as int]@ {
    } else if width == 1 {
        assert(iw == i) by (nonlinear_arith)
            requires
                iw == i * width,
                width == 1,
        ;
    } else {
        assert(width >= 2 && width % 2 == 0) by {
            reveal_with_fuel(is_pow2, 2);
        }
        let w2 = width / 2;
        assert(is_pow2(w2)) by {
            reveal_with_fuel(is_pow2, 2);
        }
        assert(i < off) by (nonlinear_arith)
            requires
                iw == i * width,
                iw + width <= 2 * off,
                width >= 2,
                i >= 1,
        ;
        assert((2 * i) * w2 == iw && (2 * i + 1) * w2 == iw + w2 && (2 * i + 2) * w2 == iw + width)
            by (nonlinear_arith)
            requires
                w2 * 2 == width,
                iw == i * width,
        ;
        lemma_diff_below_increasing(a, b, off, 2 * i, w2);
        lemma_diff_below_increasing(a, b, off, 2 * i + 1, w2);
        let left = diff_below(a, b, off, 2 * i);
        let right = diff_below(a, b, off, 2 * i + 1);
        assert(diff_below(a, b, off, i) == left + right);
        assert forall|k: int, m: int| 0 <= k < m < (left + right).len()
            implies (left + right)[k] < (left + right)[m] by {
            if k < left.len() && m >= left.len() {
                assert(left[k] < iw + w2 - off);
                assert(right[m - left.len()] >= iw + w2 - off);
            }
        }
    }
}

/// Barring collisions, a leaf slot under node `i` whose digests differ is found by
/// `diff_below` from `i`.
proof fn lemma_diff_below_complete(ta: MerkleTree, tb: MerkleTree, i: nat, width: nat, j: int)
    requires
        ta.wf(),
        tb.wf(),
        ta.leaf_offset == tb.leaf_offset,
        i >= 1,
        is_pow2(width),
        i * width >= ta.leaf_offset,
        (i + 1) * width <= 2 * ta.leaf_offset,
        i * width - ta.leaf_offset <= j < (i + 1) * width - ta.leaf_offset,
        ta.level()[j] != tb.level()[j],
        collision_free(ta.level(), tb.level()),
    ensures
        diff_below(ta.nodes@, tb.nodes@, ta.leaf_offset as nat, i).contains(j as usize),
    decreases width,
{
    let off = ta.leaf_offset as int;
    let iw = i * width;
    assert((i + 1) * width == iw + width) by (nonlinear_arith)
        requires
            iw == i * width,
    ;
    let lo = iw - off;
    let hi = iw + width - off;
    lemma_node_is_merkle_root(ta, i, width);
    lemma_node_is_merkle_root(tb, i, width);
    if ta.nodes@[i as int]@ == tb.nodes@[i as int]@ {
        assert(merkle_root(ta.level().subrange(lo, hi)) == merkle_root(tb.level().subrange(lo, hi)));
        assert(ta.level().subrange(lo, hi)[j - lo] == tb.level().subrange(lo, hi)[j - lo]);
        assert(false);
    }
    if width == 1 {
        assert(iw == i) by (nonlinear_arith)
            requires
                iw == i * width,
                width == 1,
        ;
        let r = diff_below(ta.nodes@, tb.nodes@, off as nat, i);
        assert(r == seq![(i - off) as usize]);
        assert(r[0] == j as usize);
    } else {
        assert(width >= 2 && width % 2 == 0) by {
            reveal_with_fuel(is_pow2, 2);
        }
        let w2 = width / 2;
        assert(is_pow2(w2)) by {
            reveal_with_fuel(is_pow2, 2);
        }
        assert(i < off) by (nonlinear_arith)
            requires
                iw == i * width,
                iw + width <= 2 * off,
                width >= 2,
                i >= 1,
        ;
        assert((2 * i) * w2 == iw && (2 * i + 1) * w2 == iw + w2 && (2 * i + 2) * w2 == iw + width)
            by (nonlinear_arith)
            requires
                w2 * 2 == width,
                iw == i * width,
        ;
        let left = diff_below(ta.nodes@, tb.nodes@, off as nat, 2 * i);
        let right = diff_below(ta.nodes@, tb.nodes@, off as nat, 2 * i + 1);
        assert(diff_below(ta.nodes@, tb.nodes@, off as nat, i) == left + right);
        if j < lo + w2 {
            lemma_diff_below_complete(ta, tb, 2 * i, w2, j);
            let k = choose|k: int| 0 <= k < left.len() && left[k] == j as usize;
            assert((left + right)[k] == j as usize);
        } else {
            lemma_diff_below_complete(ta, tb, 2 * i + 1, w2, j);
            let k = choose|k: int| 0 <= k < right.len() && right[k] == j as usize;
            assert((left + right)[left.len() + k] == j as usize);
        }
    }
}

proof fn lemma_update_done(before: MerkleTree, after: MerkleTree, index: usize, new_hash: Hash)
    requires
        before.wf(),
        index < before.leaf_count,
        after.leaf_count == before.leaf_count,
        after.leaf_offset == before.leaf_offset,
        after.nodes@.len() == before.nodes@.len(),
        forall|k: int| after.leaf_offset <= k < 2 * after.leaf_offset
            ==> after.nodes@[k] == (if k == after.leaf_offset + index { new_hash } else { before.nodes@[k] }),
        forall|k: int| 1 <= k < after.leaf_offset && !is_ancestor(k as nat, 1)
            ==> #[trigger] consistent(after.nodes@, k),
    ensures
        after.wf(),
        after.level() == before.level().update(index as int, new_hash@),
        after.leaves() == before.leaves().update(index as int, new_hash@),
        after.leaves().len() == before.leaves().len(),
{
    assert(after.leaves() =~= before.leaves().update(index as int, new_hash@));
    assert forall|k: int| 1 <= k < after.leaf_offset implies #[trigger] after.consistent_at(k) by {
        assert(consistent(after.nodes@, k));
    }
    assert(after.level() =~= before.level().update(index as int, new_hash@));
}

impl MerkleProof {
    /// Recompute the root from this proof and check it matches `expected_root`.
    pub fn verify(&self, expected_root: &Hash) -> (r: bool)
        ensures
            r == (proof_root(self.leaf@, self.siblings@) == expected_root@),
    {
        let mut current = self.leaf;
        let mut k: usize = 0;
        while k < self.siblings.len()
            invariant
                k <= self.siblings@.len(),
                current@ == proof_root(self.leaf@, self.siblings@.subrange(0, k as int)),
            decreases self.siblings@.len() - k,
        {
            let node = self.siblings[k];
            current = match node.side {
                Side::Right => hash_pair(&current, &node.hash),
                Side::Left => hash_pair(&node.hash, &current),
            };
            k = k + 1;
            assert(self.siblings@.subrange(0, k as int).drop_last() =~= self.siblings@.subrange(0, k - 1));
        }
        assert(self.siblings@.subrange(0, self.siblings@.len() as int) =~= self.siblings@);
        current.equals(expected_root)
    }

    /// Number of hashes in the proof.
    pub fn len(&self) -> (r: usize)
        ensures
            r == self.siblings@.len(),
    {
        self.siblings.len()
    }

}

// =============================================================================
// Sparse Merkle Tree
// =============================================================================
// A fixed key space of `2^depth` leaves keyed by `u8`. Only non-empty leaves are
// stored; empty subtrees hash to precomputed digests.

/// Digest of an empty subtree of the given height.
pub open spec fn empty_digest(height: nat) -> Seq<u8>
    decreases height,
{
    if height == 0 {
        digest(Seq::empty())
    } else {
        digest_pair(empty_digest((height - 1) as nat), empty_digest((height - 1) as nat))
    }
}

/// Digest of the subtree covering keys `[prefix, prefix + 2^height)`: a leaf is its
/// stored digest or the empty digest; an inner node whose two children are both
/// empty digests is the empty digest of its height, otherwise the pair digest.
pub open spec fn sparse_digest(leaves: Map<u8, Seq<u8>>, prefix: int, height: nat) -> Seq<u8>
    decreases height,
{
    if height == 0 {
        if leaves.contains_key(prefix as u8) {
            leaves[prefix as u8]
        } else {
            empty_digest(0)
        }
    } else {
        let half = vstd::arithmetic::power2::pow2((height - 1) as nat);
        let l = sparse_digest(leaves, prefix, (height - 1) as nat);
        let r = sparse_digest(leaves, prefix + half, (height - 1) as nat);
        if l == empty_digest((height - 1) as nat) && r == empty_digest((height - 1) as nat) {
            empty_digest(height)
        } else {
            digest_pair(l, r)
        }
    }
}

/// Digest of the subtree covering keys `[prefix, prefix + 2^height)` when the only stored
/// leaf is `x` at key `k` inside it: walking down towards `k`, every node hashes the side
/// holding `k` with the empty digest of the other side, on the side the key falls.
pub open spec fn lone_leaf_digest(k: int, x: Seq<u8>, prefix: int, height: nat) -> Seq<u8>
    decreases height,
{
    if height == 0 {
        x
    } else {
        let half = vstd::arithmetic::power2::pow2((height - 1) as nat);
        if k < prefix + half {
            digest_pair(lone_leaf_digest(k, x, prefix, (height - 1) as nat), empty_digest((height - 1) as nat))
        } else {
            digest_pair(empty_digest((height - 1) as nat), lone_leaf_digest(k, x, prefix + half, (height - 1) as nat))
        }
    }
}

proof fn lemma_sparse_empty_range(leaves: Map<u8, Seq<u8>>, prefix: int, height: nat)
    requires
        0 <= prefix,
        prefix + vstd::arithmetic::power2::pow2(height) <= 256,
        forall|j: int| prefix <= j < prefix + vstd::arithmetic::power2::pow2(height)
            ==> !#[trigger] leaves.contains_key(j as u8),
    ensures
        sparse_digest(leaves, prefix, height) == empty_digest(height),
    decreases height,
{
    vstd::arithmetic::power2::lemma_pow2_pos(height);
    if height == 0 {
        vstd::arithmetic::power2::lemma2_to64();
        assert(leaves.contains_key(prefix as u8) == false);
    } else {
        let half = vstd::arithmetic::power2::pow2((height - 1) as nat);
        vstd::arithmetic::power2::lemma_pow2_unfold(height);
        lemma_sparse_empty_range(leaves, prefix, (height - 1) as nat);
        lemma_sparse_empty_range(leaves, prefix + half, (height - 1) as nat);
    }
}

proof fn lemma_sparse_lone_leaf(k: u8, x: Seq<u8>, prefix: int, height: nat)
    requires
        0 <= prefix <= k,
        k < prefix + vstd::arithmetic::power2::pow2(height),
        prefix + vstd::arithmetic::power2::pow2(height) <= 256,
    ensures
        sparse_digest(map![k => x], prefix, height) == lone_leaf_digest(k as int, x, prefix, height),
    decreases height,
{
    let m = map![k => x];
    vstd::arithmetic::power2::lemma_pow2_pos(height);
    if height == 0 {
        vstd::arithmetic::power2::lemma2_to64();
        assert(prefix == k);
        assert(m.contains_key(prefix as u8));
    } else {
        let half = vstd::arithmetic::power2::pow2((height - 1) as nat);
        vstd::arithmetic::power2::lemma_pow2_unfold(height);
        vstd::arithmetic::power2::lemma_pow2_pos((height - 1) as nat);
        let l = sparse_digest(m, prefix, (height - 1) as nat);
        let r = sparse_digest(m, prefix + half, (height - 1) as nat);
        if k < prefix + half {
            lemma_sparse_lone_leaf(k, x, prefix, (height - 1) as nat);
            assert forall|j: int| prefix + half <= j < prefix + half + half implies !#[trigger] m.contains_key(j as u8) by {
                assert(j as u8 != k);
            }
            lemma_sparse_empty_range(m, prefix + half, (height - 1) as nat);
        } else {
            lemma_sparse_lone_leaf(k, x, prefix + half, (height - 1) as nat);
            assert forall|j: int| prefix <= j < prefix + half implies !#[trigger] m.contains_key(j as u8) by {
                assert(j as u8 != k);
            }
            lemma_sparse_empty_range(m, prefix, (height - 1) as nat);
        }
        assert(empty_digest(height) == digest_pair(empty_digest((height - 1) as nat), empty_digest((height - 1) as nat)));
    }
}

/// Every inner node of a sparse tree is the pair digest of its two children, including a
/// node with empty children, whose empty digest is the pair digest of two empty ones.
pub proof fn law_inner_node_is_pair_digest(leaves: Map<u8, Seq<u8>>, prefix: int, height: nat)
    requires
        height > 0,
    ensures
        sparse_digest(leaves, prefix, height) == digest_pair(
            sparse_digest(leaves, prefix, (height - 1) as nat),
            sparse_digest(leaves, prefix + vstd::arithmetic::power2::pow2((height - 1) as nat), (height - 1) as nat),
        ),
{
}

pub struct SparseMerkleTree {
    leaves: HashMap<u8, Hash>,
    empty: Vec<Hash>,
    depth: usize,
}

impl SparseMerkleTree {
    /// The stored leaf digests by key.
    pub closed spec fn leaf_map(&self) -> Map<u8, Seq<u8>> {
        Map::new(|k: u8| self.leaves@.contains_key(k), |k: u8| self.leaves@[k]@)
    }

    pub closed spec fn height(&self) -> nat {
        self.depth as nat
    }

    /// The root digest that `root` computes.
    pub closed spec fn root_digest(&self) -> Seq<u8> {
        sparse_digest(self.leaf_map(), 0, self.depth as nat)
    }

    pub closed spec fn wf(&self) -> bool {
        &&& self.empty@.len() == self.depth + 1
        &&& forall|i: int| 0 <= i <= self.depth ==> #[trigger] self.empty@[i]@ == empty_digest(i as nat)
    }

    pub fn new(depth: usize) -> (t: Self)
        requires
            depth < usize::MAX,
        ensures
            t.wf(),
            t.height() == depth,
            t.leaf_map() == Map::<u8, Seq<u8>>::empty(),
    {
        let no_bytes: Vec<u8> = Vec::new();
        let mut empty: Vec<Hash> = Vec::new();
        empty.push(hash_data(no_bytes.as_slice()));
        assert(no_bytes@ =~= Seq::<u8>::empty());
        let mut i: usize = 0;
        while i < depth
            invariant
                i <= depth,
                empty@.len() == i + 1,
                forall|k: int| 0 <= k <= i ==> #[trigger] empty@[k]@ == empty_digest(k as nat),
            decreases depth - i,
        {
            let h = hash_pair(&empty[i], &empty[i]);
            empty.push(h);
            i = i + 1;
        }
        let t = SparseMerkleTree { leaves: HashMap::new(), empty, depth };
        assert(t.leaf_map() =~= Map::<u8, Seq<u8>>::empty());
        t
    }

    /// Insert or update a leaf.
    pub fn insert(&mut self, key: u8, data: &[u8])
        requires
            old(self).wf(),
        ensures
            final(self).wf(),
            final(self).height() == old(self).height(),
            final(self).leaf_map() == old(self).leaf_map().insert(key, digest(data@)),
    {
        broadcast use vstd::std_specs::hash::group_hash_axioms;
        let h = hash_data(data);
        self.leaves.insert(key, h);
        assert(self.leaf_map() =~= old(self).leaf_map().insert(key, digest(data@)));
    }

    /// Remove a leaf (revert to empty).
    pub fn remove(&mut self, key: u8)
        requires
            old(self).wf(),
        ensures
            final(self).wf(),
            final(self).height() == old(self).height(),
            final(self).leaf_map() == old(self).leaf_map().remove(key),
    {
        broadcast use vstd::std_specs::hash::group_hash_axioms;
        self.leaves.remove(&key);
        assert(self.leaf_map() =~= old(self).leaf_map().remove(key));
    }

    /// Compute the root hash.
    pub fn root(&self) -> (r: Hash)
        requires
            self.wf(),
            self.height() <= 16,
        ensures
            r@ == self.root_digest(),
    {
        proof {
            vstd::arithmetic::power2::lemma2_to64();
        }
        self.subtree_hash(0u16, self.depth)
    }

    // Hash of the subtree rooted at [prefix .. prefix + 2^depth)
    fn subtree_hash(&self, prefix: u16, depth: usize) -> (r: Hash)
        requires
            self.wf(),
            depth <= self.depth,
            depth <= 16,
            prefix + vstd::arithmetic::power2::pow2(depth as nat) <= 65536,
        ensures
            r@ == sparse_digest(self.leaf_map(), prefix as int, depth as nat),
        decreases depth,
    {
        broadcast use vstd::std_specs::hash::group_hash_axioms;
        if depth == 0 {
            return match self.leaves.get(&(prefix as u8)) {
                Some(h) => *h,
                None => self.empty[0],
            };
        }
        proof {
            vstd::arithmetic::power2::lemma_pow2_unfold(depth as nat);
            vstd::bits::lemma_u16_pow2_no_overflow((depth - 1) as nat);
            vstd::bits::lemma_u16_shl_is_mul(1u16, (depth - 1) as u16);
        }
        let half = 1u16 << ((depth - 1) as u16);
        let left = self.subtree_hash(prefix, depth - 1);
        let right = self.subtree_hash(prefix + half, depth - 1);
        if left.equals(&self.empty[depth - 1]) && right.equals(&self.empty[depth - 1]) {
            return self.empty[depth];
        }
        hash_pair(&left, &right)
    }
}

/// The root of a sparse tree of height at most 8 that holds a single leaf commits to the
/// leaf's key: it is the chain of pair digests from the leaf up, with the empty digest of
/// each level on the side away from the key.
pub proof fn law_lone_leaf_root(t: SparseMerkleTree, k: u8, x: Seq<u8>)
    requires
        t.height() <= 8,
        t.leaf_map() == map![k => x],
        k < vstd::arithmetic::power2::pow2(t.height()),
    ensures
        t.root_digest() == lone_leaf_digest(k as int, x, 0, t.height()),
{
    vstd::arithmetic::power2::lemma2_to64();
    if t.height() < 8 {
        vstd::arithmetic::power2::lemma_pow2_strictly_increases(t.height(), 8);
    }
    lemma_sparse_lone_leaf(k, x, 0, t.height());
}

/// Removing a key that an insert added restores the root of the tree before the insert.
pub proof fn law_remove_undoes_insert(
    before: SparseMerkleTree,
    inserted: SparseMerkleTree,
    removed: SparseMerkleTree,
    key: u8,
    data: Seq<u8>,
)
    requires
        !before.leaf_map().contains_key(key),
        inserted.height() == before.height(),
        inserted.leaf_map() == before.leaf_map().insert(key, digest(data)),
        removed.height() == inserted.height(),
        removed.leaf_map() == inserted.leaf_map().remove(key),
    ensures
        removed.root_digest() == before.root_digest(),
{
    assert(removed.leaf_map() =~= before.leaf_map());
}

proof fn lemma_ancestor(i: nat, k: nat)
    requires
        i >= 1,
        k <= log2(i),
    ensures
        ancestor_at(i, k) >= 1,
        log2(ancestor_at(i, k)) == log2(i) - k,
        k >= 1 ==> ancestor_at(i, k) <= i / 2,
    decreases k,
{
    if k > 0 {
        lemma_ancestor(i, (k - 1) as nat);
        let a = ancestor_at(i, (k - 1) as nat);
        assert(a > 1);
    }
}

proof fn lemma_proof_walk(t: MerkleTree, p: MerkleProof, index: usize, k: nat)
    requires
        t.wf(),
        index < t.leaf_count,
        t.is_inclusion_proof(p, index),
        k <= p.siblings@.len(),
    ensures
        proof_root(p.leaf@, p.siblings@.take(k as int))
            == t.nodes@[ancestor_at((t.leaf_offset + index) as nat, k) as int]@,
    decreases k,
{
    let leaf_node = (t.leaf_offset + index) as nat;
    lemma_log2_level(t.leaf_offset as nat, leaf_node);
    if k == 0 {
        assert(p.siblings@.take(0) =~= Seq::<ProofNode>::empty());
    } else {
        lemma_proof_walk(t, p, index, (k - 1) as nat);
        assert(p.siblings@.take(k as int).drop_last() =~= p.siblings@.take(k - 1));
        lemma_ancestor(leaf_node, (k - 1) as nat);
        lemma_ancestor(leaf_node, k);
        let a = ancestor_at(leaf_node, (k - 1) as nat);
        let parent = ancestor_at(leaf_node, k);
        assert(parent == a / 2);
        assert(parent < t.leaf_offset);
        assert(t.consistent_at(parent as int));
        assert(p.siblings@.take(k as int).last() == p.siblings@[k - 1]);
        if a % 2 == 0 {
            assert(2 * parent == a);
        } else {
            assert(2 * parent + 1 == a);
        }
    }
}

/// Updating leaf `index` in place gives the root that rebuilding the tree from the
/// updated leaves gives, as long as the leaf is not the last one of a padded level (the
/// padding copies of the last leaf are not refreshed by an update).
pub proof fn law_update_matches_rebuild(
    updated: MerkleTree,
    rebuilt: MerkleTree,
    leaves: Seq<Seq<u8>>,
    index: int,
    h: Seq<u8>,
)
    requires
        updated.wf(),
        rebuilt.wf(),
        0 <= index < leaves.len(),
        index + 1 < leaves.len() || padded_size(leaves.len()) == leaves.len(),
        updated.level() == padded_level(leaves).update(index, h),
        rebuilt.level() == padded_level(leaves.update(index, h)),
    ensures
        updated.root_hash() == rebuilt.root_hash(),
{
    reveal_with_fuel(is_pow2, 2);
    lemma_double_until(2, leaves.len());
    let changed = leaves.update(index, h);
    assert forall|j: int| 0 <= j < padded_size(leaves.len()) implies
        #[trigger] padded_level(leaves).update(index, h)[j] == padded_level(changed)[j] by {
        if j >= leaves.len() {
            assert(changed.last() == leaves.last());
        }
    }
    assert(padded_level(leaves).update(index, h) =~= padded_level(changed));
    law_root_is_merkle_root(updated);
    law_root_is_merkle_root(rebuilt);
}

/// Barring hash collisions between the two trees, `diff` reports every data leaf of `a`
/// whose slot holds another digest in `b`.
pub proof fn law_diff_finds_every_changed_leaf(a: MerkleTree, b: MerkleTree, j: int)
    requires
        a.wf(),
        b.wf(),
        a.slots() == b.slots(),
        0 <= j < a.leaves().len(),
        a.level()[j] != b.level()[j],
        collision_free(a.level(), b.level()),
    ensures
        a.diff_leaves(&b).contains(j as usize),
{
    let off = a.leaf_offset as nat;
    assert(1 * off == off);
    lemma_diff_below_complete(a, b, 1, off, j);
    let all = diff_below(a.nodes@, b.nodes@, off, 1);
    let pred = |x: usize| x < a.leaf_count;
    all.filter_lemma(pred);
    let k = choose|k: int| 0 <= k < all.len() && all[k] == j as usize;
    assert(pred(all[k]));
}

/// The root of a well-formed tree is the Merkle root of its padded level of leaves: it
/// depends on the leaf digests alone, so two trees with the same level have the same root,
/// and a tree updated in place has the root that rebuilding it would give.
pub proof fn law_root_is_merkle_root(t: MerkleTree)
    requires
        t.wf(),
    ensures
        t.root_hash() == merkle_root(t.level()),
{
    lemma_node_is_merkle_root(t, 1, t.leaf_offset as nat);
    assert(t.level().subrange(0, t.leaf_offset as int) =~= t.level());
}

/// The inclusion proof of any data leaf verifies against the tree's root.
pub proof fn law_inclusion_proof_verifies(t: MerkleTree, p: MerkleProof, index: usize)
    requires
        t.wf(),
        index < t.leaves().len(),
        t.is_inclusion_proof(p, index),
    ensures
        proof_root(p.leaf@, p.siblings@) == t.root_hash(),
{
    let leaf_node = (t.leaf_offset + index) as nat;
    lemma_log2_level(t.leaf_offset as nat, leaf_node);
    lemma_proof_walk(t, p, index, p.siblings@.len());
    assert(p.siblings@.take(p.siblings@.len() as int) =~= p.siblings@);
    lemma_ancestor(leaf_node, log2(leaf_node));
}

proof fn lemma_same_level_same_nodes(a: MerkleTree, b: MerkleTree, i: nat)
    requires
        a.wf(),
        b.wf(),
        a.leaf_offset == b.leaf_offset,
        a.level() == b.level(),
        1 <= i < 2 * a.leaf_offset,
    ensures
        a.nodes@[i as int]@ == b.nodes@[i as int]@,
    decreases 2 * a.leaf_offset - i,
{
    if i >= a.leaf_offset {
        assert(a.level()[i - a.leaf_offset] == b.level()[i - a.leaf_offset]);
    } else {
        lemma_same_level_same_nodes(a, b, 2 * i);
        lemma_same_level_same_nodes(a, b, 2 * i + 1);
        assert(a.consistent_at(i as int));
        assert(b.consistent_at(i as int));
    }
}

/// Two trees with the same leaf digests (padding included) show no difference.
pub proof fn law_diff_of_equal_trees_is_empty(a: MerkleTree, b: MerkleTree)
    requires
        a.wf(),
        b.wf(),
        a.slots() == b.slots(),
        a.level() == b.level(),
    ensures
        a.diff_leaves(&b).len() == 0,
{
    lemma_same_level_same_nodes(a, b, 1);
    assert(diff_below(a.nodes@, b.nodes@, a.leaf_offset as nat, 1) =~= Seq::<usize>::empty());
    assert(a.diff_leaves(&b) =~= Seq::<usize>::empty());
}

proof fn lemma_diff_below_changed(a: Seq<Hash>, b: Seq<Hash>, offset: nat, i: nat)
    requires
        1 <= i < 2 * offset,
        2 * offset <= usize::MAX,
        a.len() == 2 * offset,
        b.len() == 2 * offset,
    ensures
        forall|x: usize| #[trigger] diff_below(a, b, offset, i).contains(x)
            ==> x < offset && a[offset + x]@ != b[offset + x]@,
    decreases (if i >= offset { 0 } else { offset - i }),
{
    let d = diff_below(a, b, offset, i);
    if a[i as int]@ == b[i as int]@ {
        assert(d =~= Seq::<usize>::empty());
    } else if i >= offset {
        assert(d =~= seq![(i - offset) as usize]);
        assert forall|x: usize| #[trigger] d.contains(x) implies x < offset && a[offset + x]@ != b[offset + x]@ by {
            assert(d[0] == x);
        }
    } else {
        lemma_diff_below_changed(a, b, offset, 2 * i);
        lemma_diff_below_changed(a, b, offset, 2 * i + 1);
        let l = diff_below(a, b, offset, 2 * i);
        let r = diff_below(a, b, offset, 2 * i + 1);
        assert(d == l + r);
        assert forall|x: usize| #[trigger] d.contains(x) implies x < offset && a[offset + x]@ != b[offset + x]@ by {
            let k = choose|k: int| 0 <= k < d.len() && d[k] == x;
            if k < l.len() {
                assert(l[k] == x);
                assert(l.contains(x));
            } else {
                assert(r[k - l.len()] == x);
                assert(r.contains(x));
            }
        }
    }
}

/// Every leaf that `diff` reports is a data leaf whose digest differs between the trees.
pub proof fn law_diff_reports_changed_leaves(a: MerkleTree, b: MerkleTree)
    requires
        a.wf(),
        b.wf(),
        a.slots() == b.slots(),
    ensures
        forall|x: usize| #[trigger] a.diff_leaves(&b).contains(x)
            ==> x < a.leaves().len() && a.level()[x as int] != b.level()[x as int],
{
    lemma_diff_below_changed(a.nodes@, b.nodes@, a.leaf_offset as nat, 1);
    let all = diff_below(a.nodes@, b.nodes@, a.leaf_offset as nat, 1);
    assert forall|x: usize| #[trigger] a.diff_leaves(&b).contains(x)
        implies x < a.leaves().len() && a.level()[x as int] != b.level()[x as int] by {
        all.lemma_filter_contains_rev(|j: usize| j < a.leaf_count, x);
        assert(all.contains(x));
    }
}

/// The sparse root is a function of the stored leaves and the depth alone.
pub proof fn law_sparse_root_determined_by_leaves(a: SparseMerkleTree, b: SparseMerkleTree)
    requires
        a.height() == b.height(),
        a.leaf_map() == b.leaf_map(),
    ensures
        a.root_digest() == b.root_digest(),
{
}

// =============================================================================
// Showing a tree and a proof
// =============================================================================

/// `n` spaces.
pub open spec fn spaces(n: nat) -> Seq<char> {
    Seq::new(n, |i: int| ' ')
}

/// The shown digests of nodes `lo` to `hi`, each followed by a space.
pub open spec fn row_text(nodes: Seq<Hash>, lo: int, hi: int) -> Seq<char>
    decreases hi - lo,
{
    if hi <= lo {
        Seq::empty()
    } else {
        row_text(nodes, lo, hi - 1) + hex_of(nodes[hi - 1]@).take(8) + " "@
    }
}

/// The line of level `level`, whose nodes run from `start` to `end`: its number, an indent
/// of two spaces per level below it, and its digests.
pub open spec fn level_line(nodes: Seq<Hash>, height: nat, level: nat, start: int, end: int) -> Seq<char> {
    "L"@ + decimal(level) + " "@ + spaces((2 * (height - level)) as nat) + row_text(nodes, start, end)
}

/// The lines of the levels from the one that starts at node `start` down: each level
/// holds twice as many nodes as the one above it, cut at the end of `nodes`.
pub open spec fn level_lines(nodes: Seq<Hash>, height: nat, level: nat, start: int) -> Seq<Seq<char>>
    decreases nodes.len() - start,
{
    if start <= 0 || start >= nodes.len() {
        Seq::empty()
    } else {
        let end = if 2 * start < nodes.len() {
            2 * start
        } else {
            nodes.len() as int
        };
        seq![level_line(nodes, height, level, start, end)] + level_lines(nodes, height, level + 1, end)
    }
}

/// A power of two below another is at most half of it.
proof fn lemma_pow2_below(a: nat, b: nat)
    requires
        is_pow2(a),
        is_pow2(b),
        a < b,
    ensures
        2 * a <= b,
    decreases a,
{
    if a > 1 {
        lemma_pow2_below(a / 2, b / 2);
    }
}

/// `log2` never decreases.
proof fn lemma_log2_mono(a: nat, b: nat)
    requires
        1 <= a <= b,
    ensures
        log2(a) <= log2(b),
    decreases a,
{
    if a > 1 {
        lemma_log2_mono(a / 2, b / 2);
    }
}

/// `n` spaces, as text.
fn spaces_text(n: usize) -> (r: String)
    ensures
        r@ == spaces(n as nat),
{
    let mut chars: Vec<char> = Vec::new();
    while chars.len() < n
        invariant
            chars@.len() <= n,
            chars@ =~= spaces(chars@.len()),
        decreases n - chars@.len(),
    {
        chars.push(' ');
    }
    crate::helpers::string_from_chars(&chars)
}

/// The name of a side.
pub open spec fn side_name(side: Side) -> Seq<char> {
    match side {
        Side::Left => "Left"@,
        Side::Right => "Right"@,
    }
}

impl MerkleTree {
    /// The level lines that show the tree, the root's first: each level's number, an
    /// indent of two spaces per level below it, and the first eight hexadecimal digits of
    /// each of its node digests, left to right.
    pub closed spec fn shown_levels(&self) -> Seq<Seq<char>> {
        level_lines(self.nodes@, log2(self.slots()), 0, 1)
    }

    /// The lines that show the tree: a heading with the number of leaves and the height,
    /// then one line per level from the root down.
    pub fn print_lines(&self) -> (r: Vec<String>)
        requires
            self.wf(),
        ensures
            r@.len() == log2(self.slots()) + 2,
            r@[0]@ == "MerkleTree ("@ + decimal(self.leaves().len()) + " leaves, height "@ + decimal(
                log2(self.slots()),
            ) + "):"@,
            forall|k: int| 0 <= k < r@.len() - 1 ==> #[trigger] r@[k + 1]@ == self.shown_levels()[k],
    {
        let height = self.height();
        let mut head = joined("MerkleTree (", decimal_text(self.leaf_count as u64).as_str());
        head.append(" leaves, height ");
        head.append(decimal_text(height as u64).as_str());
        head.append("):");
        let mut r: Vec<String> = Vec::new();
        r.push(head);
        let len = self.nodes.len();
        let mut start: usize = 1;
        let mut level: usize = 0;
        proof {
            lemma_log2_lt(self.leaf_offset as nat);
        }
        while start < len
            invariant
                self.wf(),
                len == self.nodes@.len(),
                height == log2(self.leaf_offset as nat),
                height < self.leaf_offset,
                1 <= start <= len,
                is_pow2(start as nat),
                log2(start as nat) == level,
                r@.len() == level + 1,
                r@[0]@ == "MerkleTree ("@ + decimal(self.leaves().len()) + " leaves, height "@ + decimal(
                    height as nat,
                ) + "):"@,
                level_lines(self.nodes@, height as nat, 0, 1) =~= Seq::new(level as nat, |k: int| r@[k + 1]@)
                    + level_lines(self.nodes@, height as nat, level as nat, start as int),
                start < len ==> level <= height,
                start == len ==> level == height + 1,
            decreases len - start,
        {
            proof {
                assert(is_pow2(len as nat)) by {
                    assert(is_pow2(2 * self.leaf_offset as nat) == is_pow2(self.leaf_offset as nat));
                }
                lemma_pow2_below(start as nat, len as nat);
            }
            let end = if start * 2 < len { start * 2 } else { len };
            assert(end == 2 * start);
            let mut line = joined("L", decimal_text(level as u64).as_str());
            line.append(" ");
            line.append(spaces_text((height - level) * 2).as_str());
            let mut i = start;
            while i < end
                invariant
                    start <= i <= end,
                    end <= self.nodes@.len(),
                    line@ == "L"@ + decimal(level as nat) + " "@ + spaces((2 * (height - level)) as nat)
                        + row_text(self.nodes@, start as int, i as int),
                decreases end - i,
            {
                line.append(self.nodes[i].short_hex().as_str());
                line.append(" ");
                i = i + 1;
            }
            let ghost before = r@;
            r.push(line);
            proof {
                let old_level = level as nat;
                assert(level_lines(self.nodes@, height as nat, old_level, start as int) =~= seq![
                    level_line(self.nodes@, height as nat, old_level, start as int, end as int),
                ] + level_lines(self.nodes@, height as nat, old_level + 1, end as int));
                assert(is_pow2(end as nat) == is_pow2(start as nat));
                assert(log2(end as nat) == log2(start as nat) + 1);
                if end < len {
                    lemma_pow2_below(end as nat, len as nat);
                    lemma_log2_mono(end as nat, self.leaf_offset as nat);
                } else {
                    assert(log2(len as nat) == height + 1);
                }
                assert(Seq::new((old_level + 1) as nat, |k: int| r@[k + 1]@) =~= Seq::new(
                    old_level,
                    |k: int| before[k + 1]@,
                ).push(level_line(self.nodes@, height as nat, old_level, start as int, end as int)));
            }
            start = end;
            level = level + 1;
        }
        proof {
            assert(level_lines(self.nodes@, height as nat, level as nat, start as int) =~= Seq::<Seq<char>>::empty());
        }
        r
    }
}

impl MerkleProof {
    /// The lines that show the proof: its leaf index, its leaf digest, then each step
    /// with the sibling digest and its side.
    pub fn print_lines(&self) -> (r: Vec<String>)
        ensures
            r@.len() == self.siblings@.len() + 2,
            r@[0]@ == "Proof for leaf index "@ + decimal(self.index as nat) + ":"@,
            r@[1]@ == "  leaf: "@ + hex_of(self.leaf@).take(8),
            forall|k: int| 0 <= k < self.siblings@.len() ==> #[trigger] r@[k + 2]@ == "  step "@ + decimal(
                k as nat,
            ) + ": "@ + hex_of(self.siblings@[k].hash@).take(8) + " ("@ + side_name(self.siblings@[k].side)
                + ")"@,
    {
        let mut r: Vec<String> = Vec::new();
        let mut head = joined("Proof for leaf index ", decimal_text(self.index as u64).as_str());
        head.append(":");
        r.push(head);
        r.push(joined("  leaf: ", self.leaf.short_hex().as_str()));
        let mut k: usize = 0;
        while k < self.siblings.len()
            invariant
                k <= self.siblings@.len(),
                r@.len() == k + 2,
                r@[0]@ == "Proof for leaf index "@ + decimal(self.index as nat) + ":"@,
                r@[1]@ == "  leaf: "@ + hex_of(self.leaf@).take(8),
                forall|j: int| 0 <= j < k ==> #[trigger] r@[j + 2]@ == "  step "@ + decimal(j as nat) + ": "@
                    + hex_of(self.siblings@[j].hash@).take(8) + " ("@ + side_name(self.siblings@[j].side) + ")"@,
            decreases self.siblings@.len() - k,
        {
            let node = self.siblings[k];
            let mut line = joined("  step ", decimal_text(k as u64).as_str());
            line.append(": ");
            line.append(node.hash.short_hex().as_str());
            line.append(" (");
            match node.side {
                Side::Left => line.append("Left"),
                Side::Right => line.append("Right"),
            }
            line.append(")");
            r.push(line);
            k = k + 1;
        }
        r
    }
}

} // verus!
