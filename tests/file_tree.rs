use tankseek::file_tree::{Element, FileTree};

fn entry(name: &str) -> Element {
    Element {
        filename: String::from(name),
        size: None,
        date_modified: None,
        date_created: None,
        attributes: 0,
        parent: 0,
        children: Vec::new(),
    }
}

#[test]
fn new_tree_holds_only_the_root() {
    let tree = FileTree::with_capacity(10);
    assert_eq!(tree.len(), 1);
    let root = tree.get(0).unwrap();
    assert_eq!(root.filename, "Root");
    assert_eq!(root.parent, 0);
    assert!(root.children.is_empty());
    assert!(tree.get(1).is_none());
}

#[test]
fn add_child_links_parent_and_child() {
    let mut tree = FileTree::with_capacity(4);
    let dir = tree.add_child(0, entry("docs"));
    let f = tree.add_child(dir, entry("a.txt"));
    assert_eq!((dir, f), (1, 2));
    assert_eq!(tree.len(), f + 1);
    for i in 1..tree.len() {
        let p = tree.get(i).unwrap().parent;
        assert!(p < i);
        assert!(tree.get(p).unwrap().children.contains(&i));
    }
    assert_eq!(tree.get(0).unwrap().children, vec![dir]);
}

#[test]
fn full_path_excludes_root_and_entry() {
    let mut tree = FileTree::with_capacity(4);
    let c = tree.add_child(0, entry("C:"));
    let users = tree.add_child(c, entry("Users"));
    let f = tree.add_child(users, entry("file.txt"));
    assert_eq!(tree.get_full_path(f), "C:\\Users");
    assert_eq!(tree.get_full_path(users), "C:");
    assert_eq!(tree.get_full_path(c), "");
    assert_eq!(tree.get_full_path(0), "");
}

#[test]
fn collect_all_children_is_depth_first() {
    let mut tree = FileTree::with_capacity(8);
    let a = tree.add_child(0, entry("a"));
    let b = tree.add_child(0, entry("b"));
    let a1 = tree.add_child(a, entry("a1"));
    let a2 = tree.add_child(a, entry("a2"));
    let a1x = tree.add_child(a1, entry("x"));
    assert_eq!(tree.collect_all_children(0), vec![a, a1, a1x, a2, b]);
    assert_eq!(tree.collect_all_children(a1), vec![a1x]);
    assert!(tree.collect_all_children(99).is_empty());
}

#[test]
fn get_mut_and_shrink_keep_entries() {
    let mut tree = FileTree::with_capacity(100);
    let f = tree.add_child(0, entry("f"));
    tree.get_mut(f).unwrap().size = Some(42);
    assert!(tree.get_mut(7).is_none());
    tree.shrink_to_fit();
    assert_eq!(tree.len(), 2);
    assert_eq!(tree.get(f).unwrap().size, Some(42));
    assert_eq!(tree.get_elements().len(), 2);
    assert_eq!(tree.get_elements()[1].filename, "f");
}
