use rust_recipes::general_tree::{Node, Tree};

fn sample() -> Tree<&'static str> {
    let mut root = Node::new("root/");
    let mut docs = Node::new("documents/");
    docs.add_child(Node::new("resume.pdf"));
    docs.add_child(Node::new("notes.txt"));
    let mut pics = Node::new("pictures/");
    pics.add_child(Node::new("vacation.png"));
    pics.add_child(Node::new("family.jpg"));
    root.add_child(docs);
    root.add_child(pics);
    root.add_child(Node::new("config.toml"));
    Tree::with_root(root)
}

#[test]
fn general_tree_traversals() {
    let tree = sample();
    assert_eq!(tree.depth(), 3);
    let pre: Vec<&str> = tree.traverse_preorder().into_iter().copied().collect();
    assert_eq!(pre, vec!["root/", "documents/", "resume.pdf", "notes.txt", "pictures/", "vacation.png", "family.jpg", "config.toml"]);
    let post: Vec<&str> = tree.traverse_postorder().into_iter().copied().collect();
    assert_eq!(post, vec!["resume.pdf", "notes.txt", "documents/", "vacation.png", "family.jpg", "pictures/", "config.toml", "root/"]);
    let bfs: Vec<&str> = tree.traverse_bfs().into_iter().copied().collect();
    assert_eq!(bfs, vec!["root/", "documents/", "pictures/", "config.toml", "resume.pdf", "notes.txt", "vacation.png", "family.jpg"]);
    let dfs: Vec<&str> = tree.traverse_dfs().into_iter().copied().collect();
    assert_eq!(dfs, pre);
}

#[test]
fn general_tree_find() {
    let tree = sample();
    let found = tree.find(|name| name == &"notes.txt").unwrap();
    assert_eq!(*found.value(), "notes.txt");
    assert!(tree.find(|name| name == &"missing").is_none());
    let empty: Tree<&str> = Tree::new();
    assert!(empty.find(|_| true).is_none());
    assert_eq!(empty.depth(), 0);
    assert!(empty.traverse_bfs().is_empty());
}

#[test]
fn general_tree_value_mut_and_root() {
    let mut tree = sample();
    {
        let root = tree.root_mut().unwrap();
        *root.value_mut() = "top/";
        assert_eq!(root.children().len(), 3);
    }
    assert_eq!(*tree.root().unwrap().value(), "top/");
    tree.set_root(Node::new("other"));
    assert_eq!(tree.depth(), 1);
}

#[test]
fn general_tree_find_mut_changes_only_the_found_node() {
    let mut tree = sample();
    {
        let root = tree.root_mut().unwrap();
        let pics = root.find_mut(&|name: &&str| name.ends_with('/') && *name != "root/" && name.starts_with('p')).unwrap();
        assert_eq!(*pics.value(), "pictures/");
        *pics.value_mut() = "photos/";
        pics.add_child(Node::new("cat.gif"));
        assert!(root.find_mut(&|name: &&str| *name == "missing").is_none());
    }
    let pre: Vec<&str> = tree.traverse_preorder().into_iter().copied().collect();
    assert_eq!(
        pre,
        vec!["root/", "documents/", "resume.pdf", "notes.txt", "photos/", "vacation.png", "family.jpg", "cat.gif", "config.toml"]
    );
    // the first match in pre-order is the one returned
    let root = tree.root_mut().unwrap();
    let first = root.find_mut(&|name: &&str| name.contains('.')).unwrap();
    assert_eq!(*first.value(), "resume.pdf");
    let itself = root.find_mut(&|_: &&str| true).unwrap();
    assert_eq!(*itself.value(), "root/");
}
