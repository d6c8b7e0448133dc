use rust_recipes::binary_tree_raw::BinaryTree;

fn build() -> BinaryTree {
    //        4
    //       / \
    //      2   6
    //     / \ / \
    //    1  3 5  7
    let mut t = BinaryTree::new();
    for v in [4, 2, 6, 1, 3, 5, 7] {
        t.insert(v);
    }
    t
}

#[test]
fn binary_tree_raw_len_and_search() {
    let t = build();
    assert_eq!(t.len(), 7);
    assert!(t.search(&4));
    assert!(t.search_iter(&1));
    assert!(!t.search(&99));
}

#[test]
fn no_duplicate_insert() {
    let mut t = BinaryTree::new();
    assert!(t.insert(5));
    assert!(!t.insert(5)); // duplicate — returns false
    assert_eq!(t.len(), 1); // len stays at 1
}

#[test]
fn binary_tree_raw_depth_both_agree() {
    let t = build();
    assert_eq!(t.depth(), 3);
    assert_eq!(t.depth_iter(), 3);
}

#[test]
fn binary_tree_raw_balanced() {
    let t = build();
    assert!(t.is_balanced());
    assert!(t.is_balanced_iter());
    let mut skewed = BinaryTree::new();
    for v in [1, 2, 3, 4, 5] {
        skewed.insert(v);
    }
    assert!(!skewed.is_balanced());
    assert!(!skewed.is_balanced_iter());
}

#[test]
fn binary_tree_raw_inorder_sorted() {
    let t = build();
    assert_eq!(t.inorder(), vec![1, 2, 3, 4, 5, 6, 7]);
    assert_eq!(t.inorder_iter(), vec![1, 2, 3, 4, 5, 6, 7]);
}

#[test]
fn binary_tree_raw_preorder_both_agree() {
    let t = build();
    assert_eq!(t.preorder(), t.preorder_iter());
}

#[test]
fn binary_tree_raw_postorder_both_agree() {
    let t = build();
    assert_eq!(t.postorder(), vec![1, 3, 2, 5, 7, 6, 4]);
    assert_eq!(t.postorder_iter(), vec![1, 3, 2, 5, 7, 6, 4]);
}

#[test]
fn binary_tree_raw_dfs_doubles_values() {
    let mut t = build();
    t.dfs(|v| v * 2);
    assert_eq!(t.inorder(), vec![2, 4, 6, 8, 10, 12, 14]);
}

#[test]
fn binary_tree_raw_bfs_doubles_values() {
    let mut t = build();
    t.bfs(|v| v * 2);
    assert_eq!(t.inorder(), vec![2, 4, 6, 8, 10, 12, 14]);
}

#[test]
fn binary_tree_raw_iter_borrowed() {
    let t = build();
    let vals: Vec<_> = t.iter().into_iter().copied().collect();
    assert_eq!(vals, vec![1, 2, 3, 4, 5, 6, 7]);
    assert_eq!(t.len(), 7); // still usable
}

#[test]
fn binary_tree_raw_into_iter_consumes() {
    let t = build();
    let vals: Vec<_> = t.into_iter();
    assert_eq!(vals, vec![1, 2, 3, 4, 5, 6, 7]);
}

#[test]
fn into_iter_partial_no_leak() {
    let t = build();
    let mut iter = t.into_iter().into_iter();
    let _ = iter.next(); // consume only one element, then drop
}

#[test]
fn insert_iter_rejects_duplicates() {
    let mut t = BinaryTree::new();
    assert!(t.insert_iter(2));
    assert!(t.insert_iter(1));
    assert!(!t.insert_iter(2));
    assert!(t.insert_iter(3));
    assert_eq!(t.len(), 3);
    assert_eq!(t.preorder_iter(), vec![2, 1, 3]);
}
