use rust_recipes::data_structures::general_tree_raw::{Node, Tree};

#[test]
fn test_general_tree() {
    let mut root = Node::new("root/");

    let mut docs = Node::new("documents/");
    docs.add_child(Node::new("resume.pdf"));
    docs.add_child(Node::new("notes.txt"));

    let mut pics = Node::new("pictures/");
    pics.add_child(Node::new("vacation.png"));
    pics.add_child(Node::new("family.jpg"));

    root.add_child(docs);
    root.add_child(pics);
    root.add_child(Node::new("config.toml"));

    let tree = Tree::with_root(root);

    println!("Tree depth: {}", tree.depth());

    println!("\nPre-order:");
    for val in tree.traverse_preorder() {
        println!("{} ", val);
    }

    println!("\nPost-order:");
    for val in tree.traverse_postorder() {
        println!("{} ", val);
    }

    println!("\nBFS:");
    for val in tree.traverse_bfs() {
        println!("{} ", val);
    }

    println!("\nDFS (iterative):");
    for val in tree.traverse_dfs() {
        println!("{} ", val);
    }

    if let Some(node) = tree.find(|name| name == &"notes.txt") {
        println!("\n\nFound: {}", node.value());
    }
}
