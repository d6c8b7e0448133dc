use rust_recipes::data_structures::merkle_tree::{hash_data, hash_pair, MerkleTree, SparseMerkleTree};
use rust_recipes::data_structures::merkle_tree as mt;

fn sample_tree() -> MerkleTree {
    MerkleTree::build(&[b"alice", b"bob", b"carol", b"dave"])
}

#[test]
fn root_is_deterministic() {
    let t1 = sample_tree();
    let t2 = sample_tree();
    assert_eq!(t1.root(), t2.root());
}

#[test]
fn different_data_different_root() {
    let t1 = MerkleTree::build(&[b"alice", b"bob"]);
    let t2 = MerkleTree::build(&[b"alice", b"eve"]);
    assert_ne!(t1.root(), t2.root());
}

#[test]
fn height_correct() {
    // 4 leaves → height 2
    assert_eq!(sample_tree().height(), 2);
    // 1 leaf → height 1 (padded to 2 leaves)
    assert_eq!(MerkleTree::build(&[b"solo"]).height(), 1);
    // 8 leaves → height 3
    let data: Vec<&[u8]> = (0u8..8)
        .map(|i| -> &[u8] { Box::leak(Box::new([i])) })
        .collect();
    assert_eq!(MerkleTree::build(&data).height(), 3);
}

#[test]
fn leaf_accessor() {
    let t = sample_tree();
    assert!(t.leaf(0).is_some());
    assert!(t.leaf(3).is_some());
    assert!(t.leaf(4).is_none()); // out of range
}

#[test]
fn proof_verifies_all_leaves() {
    let t = sample_tree();
    for i in 0..t.len() {
        let proof = t.inclusion_proof(i).expect("proof should exist");
        assert!(t.verify(&proof), "proof for leaf {i} failed");
    }
}

#[test]
fn tampered_proof_fails() {
    let t = sample_tree();
    let mut proof = t.inclusion_proof(0).unwrap();
    proof.leaf = hash_data(b"mallory");
    assert!(!t.verify(&proof));
}

#[test]
fn proof_against_wrong_root_fails() {
    let t1 = sample_tree();
    let t2 = MerkleTree::build(&[b"x", b"y", b"z", b"w"]);
    let proof = t1.inclusion_proof(0).unwrap();
    assert!(!proof.verify(t2.root()));
}

#[test]
fn proof_length_is_log2() {
    let t = sample_tree(); // 4 leaves → height 2
    assert_eq!(t.inclusion_proof(0).unwrap().len(), 2);

    let big: Vec<&[u8]> = vec![b"a"; 16];
    let t16 = MerkleTree::build(&big); // 16 leaves → height 4
    assert_eq!(t16.inclusion_proof(0).unwrap().len(), 4);
}

#[test]
fn update_changes_root() {
    let mut t = sample_tree();
    let old_root = t.root().clone();
    t.update(1, b"updated_bob");
    assert_ne!(t.root(), &old_root);
}

#[test]
fn update_proof_verifies_after_update() {
    let mut t = sample_tree();
    t.update(2, b"updated_carol");
    let proof = t.inclusion_proof(2).unwrap();
    assert!(t.verify(&proof));
}

#[test]
fn update_unrelated_leaf_unchanged() {
    let mut t = sample_tree();
    let leaf0_before = t.leaf(0).unwrap().clone();
    t.update(3, b"updated_dave");
    assert_eq!(t.leaf(0).unwrap(), &leaf0_before);
}

#[test]
fn diff_detects_changed_leaves() {
    let t1 = sample_tree();
    let mut t2 = sample_tree();
    t2.update(1, b"modified");
    t2.update(3, b"also_modified");
    let diffs = t1.diff(&t2);
    assert_eq!(diffs, vec![1, 3]);
}

#[test]
fn diff_identical_trees_is_empty() {
    let t1 = sample_tree();
    let t2 = sample_tree();
    assert!(t1.diff(&t2).is_empty());
}

#[test]
fn odd_leaf_count_proofs_verify() {
    let t = MerkleTree::build(&[b"a", b"b", b"c"]); // 3 leaves → padded to 4
    assert_eq!(t.len(), 3);
    for i in 0..3 {
        assert!(t.verify(&t.inclusion_proof(i).unwrap()), "leaf {i} failed");
    }
    // Index 3 is padding — no proof
    assert!(t.inclusion_proof(3).is_none());
}

#[test]
fn sparse_empty_root_deterministic() {
    let t1 = SparseMerkleTree::new(8);
    let t2 = SparseMerkleTree::new(8);
    assert_eq!(t1.root(), t2.root());
}

#[test]
fn sparse_insert_changes_root() {
    let mut t = SparseMerkleTree::new(8);
    let before = t.root();
    t.insert(42, b"hello");
    assert_ne!(t.root(), before);
}

#[test]
fn sparse_remove_restores_root() {
    let mut t = SparseMerkleTree::new(8);
    let empty_root = t.root();
    t.insert(42, b"hello");
    t.remove(42);
    assert_eq!(t.root(), empty_root);
}

#[test]
fn hash_of_empty_input_has_a_fixed_value() {
    // FNV offset basis pushed through the lane mixing, little-endian lanes.
    let h = hash_data(b"");
    assert_eq!(h.as_bytes().len(), 32);
    assert_eq!(h.to_hex().len(), 64);
    assert_eq!(h, hash_data(&[]));
    assert_ne!(h, hash_data(&[0]));
}

#[test]
fn hash_pair_is_hash_of_concatenation() {
    let a = hash_data(b"left");
    let b = hash_data(b"right");
    let mut bytes = a.as_bytes().to_vec();
    bytes.extend_from_slice(b.as_bytes());
    assert_eq!(hash_pair(&a, &b), hash_data(&bytes));
    assert_ne!(hash_pair(&a, &b), hash_pair(&b, &a));
}

#[test]
fn zero_hash_and_hex() {
    let z = mt::Hash::zero();
    assert_eq!(z.as_bytes(), &[0u8; 32]);
    assert_eq!(z.to_hex(), "0".repeat(64));
    assert!(z.equals(&mt::Hash::zero()));
    assert!(!z.equals(&hash_data(b"x")));
}

#[test]
fn update_out_of_range_is_rejected() {
    let mut t = sample_tree();
    let before = t.root().clone();
    assert!(!t.update(4, b"nope"));
    assert_eq!(t.root(), &before);
    assert!(t.update_hash(0, hash_data(b"alice")));
    assert_eq!(t.root(), &before);
}

#[test]
fn tree_and_proof_are_shown_level_by_level() {
    let t = sample_tree();
    let lines = t.print_lines();
    assert_eq!(lines.len(), 4);
    assert_eq!(lines[0], "MerkleTree (4 leaves, height 2):");
    let root = t.root().to_hex();
    assert_eq!(t.root().short_hex(), root[..8].to_string());
    assert_eq!(lines[1], format!("L0     {} ", &root[..8]));
    assert!(lines[2].starts_with("L1   "));
    assert_eq!(lines[2].split_whitespace().count(), 3);
    let leaf0 = hash_data(b"alice").to_hex();
    assert!(lines[3].starts_with(&format!("L2 {} ", &leaf0[..8])));
    assert_eq!(lines[3].split_whitespace().count(), 5);

    let p = t.inclusion_proof(1).unwrap();
    let shown = p.print_lines();
    assert_eq!(shown.len(), 4);
    assert_eq!(shown[0], "Proof for leaf index 1:");
    assert_eq!(shown[1], format!("  leaf: {}", &hash_data(b"bob").to_hex()[..8]));
    assert_eq!(shown[2], format!("  step 0: {} (Left)", &leaf0[..8]));
    assert!(shown[3].starts_with("  step 1: ") && shown[3].ends_with(" (Right)"));
}

#[test]
fn incremental_update_matches_rebuild() {
    let data: Vec<&[u8]> = vec![b"a", b"b", b"c", b"d", b"e"];
    let leaves: Vec<_> = data.iter().map(|d| hash_data(d)).collect();
    let mut t = MerkleTree::from_hashes(leaves.clone());
    let new_leaf = hash_data(b"z");
    assert!(t.update_hash(1, new_leaf));
    let mut changed = leaves.clone();
    changed[1] = new_leaf;
    let rebuilt = MerkleTree::from_hashes(changed);
    assert_eq!(t.root(), rebuilt.root());
    assert_eq!(t.leaf(1), Some(&new_leaf));
    assert_eq!(t.leaf(0), rebuilt.leaf(0));
}

#[test]
fn diff_reports_increasing_indices() {
    let a = MerkleTree::build(&[b"a", b"b", b"c", b"d", b"e", b"f"]);
    let b = MerkleTree::build(&[b"a", b"x", b"c", b"y", b"e", b"z"]);
    assert_eq!(a.diff(&b), vec![1, 3, 5]);
}
