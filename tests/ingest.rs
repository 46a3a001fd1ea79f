use tankseek::ingest::{split_components, Record, TreeBuilder};

fn record(path: &str, size: Option<i64>) -> Record {
    Record { filename: String::from(path), size, date_modified: Some(5), date_created: None, attributes: 32 }
}

#[test]
fn split_on_both_separators() {
    assert_eq!(split_components("C:\\Users/me\\a.txt"), vec!["C:", "Users", "me", "a.txt"]);
    assert_eq!(split_components(""), vec![""]);
    assert_eq!(split_components("dir\\"), vec!["dir", ""]);
}

#[test]
fn records_share_their_directories() {
    let mut b = TreeBuilder::new(10);
    let a = b.add_record(&record("C:\\docs\\a.txt", Some(10)));
    let c = b.add_record(&record("C:/docs/b.txt", Some(20)));
    let d = b.add_record(&record("C:\\docs", None));
    let tree = b.finish();
    assert_eq!(tree.len(), 5);
    assert_eq!((a, c, d), (3, 4, 2));
    assert_eq!(tree.get(a).unwrap().filename, "a.txt");
    assert_eq!(tree.get(a).unwrap().size, Some(10));
    assert_eq!(tree.get(c).unwrap().size, Some(20));
    assert_eq!(tree.get(c).unwrap().attributes, 32);
    assert_eq!(tree.get(1).unwrap().size, None);
    assert_eq!(tree.get(1).unwrap().attributes, 0);
    assert_eq!(tree.get(d).unwrap().date_modified, Some(5));
    assert_eq!(tree.get_full_path(c), "C:\\docs");
    assert_eq!(tree.get(2).unwrap().children, vec![3, 4]);
}

#[test]
fn one_entry_per_distinct_path_and_last_row_wins() {
    let mut b = TreeBuilder::new(4);
    let first = b.add_record(&record("a/b/c", Some(1)));
    let again = b.add_record(&record("a\\b\\c", Some(2)));
    let other = b.add_record(&record("a/x", Some(3)));
    let top = b.add_record(&record("a", Some(4)));
    let tree = b.finish();
    // Distinct prefixes: a, a/b, a/b/c, a/x.
    assert_eq!(tree.len(), 1 + 4);
    assert_eq!(first, again);
    assert_eq!(tree.get(first).unwrap().size, Some(2));
    assert_eq!(tree.get(other).unwrap().size, Some(3));
    assert_eq!(top, 1);
    assert_eq!(tree.get(top).unwrap().size, Some(4));
    let root = tree.get(0).unwrap();
    assert_eq!(root.filename, "Root");
    assert_eq!(root.size, None);
    assert_eq!(root.attributes, 0);
    assert_eq!(root.children, vec![1]);
}
