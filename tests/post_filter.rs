use tankseek::file_tree::{Element, FileTree};
use tankseek::post_filter::{post_filter, retain_marked};

fn file(name: &str, n: i64) -> Element {
    Element {
        filename: String::from(name),
        size: Some(n),
        date_modified: Some(n),
        date_created: Some(n),
        attributes: 0,
        parent: 0,
        children: Vec::new(),
    }
}

#[test]
fn test_post_filter() {
    let mut tree = FileTree::with_capacity(5);
    let element1 = tree.add_element(file("file1.txt", 1000));
    let element2 = tree.add_element(file("file2.txt", 2000));
    let element3 = tree.add_element(file("file3.txt", 3000));
    let element4 = tree.add_element(file("file4.txt", 4000));
    let mut indices = vec![element1, element2, element3, element4];
    post_filter(&tree, &mut indices, "file2");
    assert_eq!(indices, vec![element2]);
    post_filter(&tree, &mut indices, "file3");
    assert!(indices.is_empty());
}

#[test]
fn post_filter_ignores_case_and_keeps_order() {
    let mut tree = FileTree::with_capacity(4);
    let a = tree.add_element(file("Report.TXT", 1));
    let b = tree.add_element(file("notes.txt", 2));
    let c = tree.add_element(file("old_report.txt", 3));
    let mut indices = vec![c, b, a];
    post_filter(&tree, &mut indices, "rEpOrT");
    assert_eq!(indices, vec![c, a]);
}

#[test]
fn post_filter_treats_query_as_literal() {
    let mut tree = FileTree::with_capacity(4);
    let a = tree.add_element(file("a.c", 1));
    let b = tree.add_element(file("abc", 2));
    let c = tree.add_element(file("x(1).txt", 3));
    let mut indices = vec![a, b, c];
    post_filter(&tree, &mut indices, "a.c");
    assert_eq!(indices, vec![a]);
    let mut indices = vec![a, b, c];
    post_filter(&tree, &mut indices, "(1)");
    assert_eq!(indices, vec![c]);
}

#[test]
fn retain_marked_keeps_marked_positions() {
    let mut ids = vec![7, 3, 9, 1];
    retain_marked(&mut ids, &vec![true, false, false, true]);
    assert_eq!(ids, vec![7, 1]);
}
