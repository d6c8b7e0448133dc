use rust_recipes::data_structures::binary_tree::BinaryTree;

fn build() -> BinaryTree {
    //        4
    //       / \
    //      2   6
    //     / \ / \
    //    1  3 5  7
    let mut t = BinaryTree::new();
    for v in [4, 2, 6, 1, 3, 5, 7] {
        t.insert(v);
    }
    t
}

#[test]
fn binary_tree_len_and_search() {
    let t = build();
    assert_eq!(t.len(), 7);
    assert!(t.search(&4));
    assert!(t.search_iter(&1));
    assert!(!t.search(&99));
}

#[test]
fn binary_tree_depth_both_agree() {
    let t = build();
    assert_eq!(t.depth(), 3);
    assert_eq!(t.depth_iter(), 3);
}

#[test]
fn binary_tree_balanced() {
    let t = build();
    assert!(t.is_balanced());
    let mut skewed = BinaryTree::new();
    for v in [1, 2, 3, 4, 5] {
        skewed.insert(v);
    }
    assert!(!skewed.is_balanced());
}

#[test]
fn binary_tree_inorder_sorted() {
    let t = build();
    assert_eq!(t.inorder(), vec![1, 2, 3, 4, 5, 6, 7]);
    assert_eq!(t.inorder_iter(), vec![1, 2, 3, 4, 5, 6, 7]);
}

#[test]
fn binary_tree_preorder_both_agree() {
    let t = build();
    assert_eq!(t.preorder(), t.preorder_iter());
}

#[test]
fn binary_tree_postorder_both_agree() {
    let t = build();
    assert_eq!(t.postorder(), vec![1, 3, 2, 5, 7, 6, 4]);
    assert_eq!(t.postorder_iter(), vec![1, 3, 2, 5, 7, 6, 4]);
}

#[test]
fn binary_tree_dfs_doubles_values() {
    let mut t = build();
    t.dfs(|v| v * 2);
    assert_eq!(t.inorder(), vec![2, 4, 6, 8, 10, 12, 14]);
}

#[test]
fn binary_tree_bfs_doubles_values() {
    let mut t = build();
    t.bfs(|v| v * 2);
    assert_eq!(t.inorder(), vec![2, 4, 6, 8, 10, 12, 14]);
}

#[test]
fn binary_tree_iter_borrowed() {
    let t = build();
    let vals: Vec<_> = t.iter().into_iter().copied().collect();
    assert_eq!(vals, vec![1, 2, 3, 4, 5, 6, 7]);
    assert_eq!(t.len(), 7); // still usable
}

#[test]
fn binary_tree_into_iter_consumes() {
    let t = build();
    let vals: Vec<_> = t.into_iter();
    assert_eq!(vals, vec![1, 2, 3, 4, 5, 6, 7]);
}

#[test]
fn duplicates_go_right_and_are_kept() {
    let mut t = BinaryTree::new();
    for v in [5, 5, 3, 5] {
        t.insert_iter(v);
    }
    assert_eq!(t.len(), 4);
    assert_eq!(t.inorder(), vec![3, 5, 5, 5]);
    assert_eq!(t.preorder(), vec![5, 3, 5, 5]);
    assert_eq!(t.depth(), 3);
    assert_eq!(t.depth_iter(), 3);
    assert!(t.is_balanced_iter());
}

#[test]
fn insert_and_insert_iter_build_the_same_tree() {
    let mut a = BinaryTree::new();
    let mut b = BinaryTree::new();
    for v in [8, 3, 10, 1, 6, 14, 4, 7, 13] {
        a.insert(v);
        b.insert_iter(v);
    }
    assert_eq!(a.preorder(), b.preorder_iter());
    assert_eq!(a.postorder(), b.postorder_iter());
    assert_eq!(a.preorder(), vec![8, 3, 1, 6, 4, 7, 10, 14, 13]);
    assert_eq!(a.is_balanced(), a.is_balanced_iter());
    assert!(!a.is_balanced());
}

#[test]
fn empty_tree() {
    let t = BinaryTree::new();
    assert!(t.is_empty());
    assert_eq!(t.depth(), 0);
    assert_eq!(t.depth_iter(), 0);
    assert!(t.is_balanced());
    assert!(t.is_balanced_iter());
    assert!(!t.search_iter(&1));
    assert!(t.inorder_iter().is_empty());
}
