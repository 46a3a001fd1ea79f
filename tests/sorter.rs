use tankseek::file_tree::{Element, FileTree};
use tankseek::sorter::{SortField, SortOrder, Sorter};

fn entry(name: &str, size: Option<i64>) -> Element {
    Element {
        filename: String::from(name),
        size,
        date_modified: size.map(|s| -s),
        date_created: None,
        attributes: 0,
        parent: 0,
        children: Vec::new(),
    }
}

#[test]
fn sort_by_filename_both_directions() {
    let mut tree = FileTree::with_capacity(4);
    let b = tree.add_child(0, entry("b.txt", None));
    let a = tree.add_child(0, entry("a.txt", None));
    let c = tree.add_child(0, entry("c.txt", None));
    let mut sorter = Sorter::new();
    let mut ids = vec![b, a, c];
    sorter.sort_by(&tree, &mut ids, SortField::Filename, SortOrder::Ascending);
    assert_eq!(ids, vec![a, b, c]);
    sorter.sort_by(&tree, &mut ids, SortField::Filename, SortOrder::Descending);
    assert_eq!(ids, vec![c, b, a]);
}

#[test]
fn missing_sizes_sort_first() {
    let mut tree = FileTree::with_capacity(5);
    let big = tree.add_child(0, entry("big", Some(500)));
    let none = tree.add_child(0, entry("none", None));
    let small = tree.add_child(0, entry("small", Some(-3)));
    let none2 = tree.add_child(0, entry("none2", None));
    let mut sorter = Sorter::new();
    let mut ids = vec![big, none, small, none2];
    sorter.sort_by(&tree, &mut ids, SortField::Size, SortOrder::Ascending);
    assert_eq!(ids, vec![none, none2, small, big]);
    let mut ids = vec![big, none, small, none2];
    sorter.sort_by(&tree, &mut ids, SortField::Size, SortOrder::Descending);
    assert_eq!(ids, vec![big, small, none2, none]);
}

#[test]
fn equal_values_keep_identifier_order() {
    let mut tree = FileTree::with_capacity(5);
    let x1 = tree.add_child(0, entry("same", Some(1)));
    let x2 = tree.add_child(0, entry("same", Some(1)));
    let x3 = tree.add_child(0, entry("Same", Some(1)));
    let mut sorter = Sorter::new();
    let mut ids = vec![x2, x1, x3];
    sorter.sort_by(&tree, &mut ids, SortField::Filename, SortOrder::Ascending);
    assert_eq!(ids, vec![x3, x1, x2]);
    let mut ids = vec![x3, x2, x1];
    sorter.sort_by(&tree, &mut ids, SortField::DateModified, SortOrder::Ascending);
    assert_eq!(ids, vec![x1, x2, x3]);
}

#[test]
fn sorting_a_sorted_list_changes_nothing() {
    let mut tree = FileTree::with_capacity(6);
    for name in ["d", "a", "c", "b", "e"] {
        tree.add_child(0, entry(name, None));
    }
    let mut sorter = Sorter::new();
    let mut ids = vec![5, 1, 3, 2];
    sorter.sort_by(&tree, &mut ids, SortField::Filename, SortOrder::Descending);
    let once = ids.clone();
    sorter.sort_by(&tree, &mut ids, SortField::Filename, SortOrder::Descending);
    assert_eq!(ids, once);
    assert_eq!(ids, vec![5, 1, 3, 2]);
}

#[test]
fn sorting_all_identifiers_orders_by_value_then_identifier() {
    let mut tree = FileTree::with_capacity(6);
    for name in ["m", "b", "m", "a"] {
        tree.add_child(0, entry(name, None));
    }
    let mut sorter = Sorter::new();
    let mut ids: Vec<usize> = (0..tree.len()).collect();
    sorter.sort_by(&tree, &mut ids, SortField::Filename, SortOrder::Ascending);
    // "Root" sorts before the lowercase names.
    assert_eq!(ids, vec![0, 4, 2, 1, 3]);
}

#[test]
fn empty_list_stays_empty() {
    let tree = FileTree::with_capacity(1);
    let mut sorter = Sorter::new();
    let mut ids: Vec<usize> = Vec::new();
    sorter.sort_by(&tree, &mut ids, SortField::DateCreated, SortOrder::Ascending);
    assert!(ids.is_empty());
}

#[test]
fn rank_vectors_are_permutations_in_stable_order() {
    let mut tree = FileTree::with_capacity(5);
    tree.add_child(0, entry("b", Some(2)));
    tree.add_child(0, entry("a", None));
    tree.add_child(0, entry("b", Some(2)));
    let mut sorter = Sorter::new();
    sorter.prepare_filename_order(&tree);
    // "Root" < "a" < "b" (id 1) < "b" (id 3).
    assert_eq!(sorter.filename_order.as_ref().unwrap(), &vec![0, 2, 1, 3]);
    sorter.prepare_size_order(&tree);
    // None (0), None (2), then 2 (1), 2 (3).
    assert_eq!(sorter.size_order.as_ref().unwrap(), &vec![0, 2, 1, 3]);
    sorter.prepare_date_modified_order(&tree);
    sorter.prepare_date_created_order(&tree);
    assert_eq!(sorter.date_created_order.as_ref().unwrap(), &vec![0, 1, 2, 3]);
    assert!(sorter.date_modified_order.is_some());
}
