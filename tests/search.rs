use tankseek::bigram_index::BigramIndex;
use tankseek::file_tree::{Element, FileTree};
use tankseek::search::{parse_sort_field, parse_sort_order, search, LastSearchCache, PAGE_SIZE};
use tankseek::sorter::{SortField, SortOrder, Sorter};

fn entry(name: &str, size: Option<i64>) -> Element {
    Element {
        filename: String::from(name),
        size,
        date_modified: None,
        date_created: None,
        attributes: 7,
        parent: 0,
        children: Vec::new(),
    }
}

struct Engine {
    tree: FileTree,
    index: BigramIndex,
    sorter: Sorter,
    memo: LastSearchCache,
}

fn engine(tree: FileTree) -> Engine {
    let index = BigramIndex::new(&tree);
    Engine { tree, index, sorter: Sorter::new(), memo: LastSearchCache::new() }
}

fn ids(e: &mut Engine, q: &str, offset: Option<usize>, f: Option<SortField>, o: Option<SortOrder>) -> Vec<String> {
    let r = search(&e.tree, &e.index, &mut e.sorter, &mut e.memo, q, offset, f, o);
    r.results.into_iter().map(|x| x.name).collect()
}

#[test]
fn search_projects_page_with_paths() {
    let mut tree = FileTree::with_capacity(4);
    let dir = tree.add_child(0, entry("Music", None));
    let sub = tree.add_child(dir, entry("Jazz", None));
    tree.add_child(sub, entry("Take Five.mp3", Some(1234)));
    let mut e = engine(tree);
    let r = search(&e.tree, &e.index, &mut e.sorter, &mut e.memo, "FIVE", None, None, None);
    assert_eq!(r.total, 1);
    assert_eq!(r.offset, 0);
    assert_eq!(r.page_size, 100);
    assert_eq!(r.results.len(), 1);
    let f = &r.results[0];
    assert_eq!(f.name, "Take Five.mp3");
    assert_eq!(f.path, "Music\\Jazz");
    assert_eq!(f.size, Some(1234));
    assert_eq!(f.attributes, 7);
}

#[test]
fn search_paths_by_query_length() {
    let mut tree = FileTree::with_capacity(5);
    for name in ["abc", "xbcx", "bxc", "q"] {
        tree.add_child(0, entry(name, None));
    }
    let mut e = engine(tree);
    let all = search(&e.tree, &e.index, &mut e.sorter, &mut e.memo, "", None, None, None);
    assert_eq!(all.total, 5);
    assert_eq!(ids(&mut e, "B", None, None, None), vec!["abc", "xbcx", "bxc"]);
    assert_eq!(ids(&mut e, "bc", None, None, None), vec!["abc", "xbcx"]);
    assert_eq!(ids(&mut e, "xbc", None, None, None), vec!["xbcx"]);
    assert!(ids(&mut e, "zz", None, None, None).is_empty());
}

#[test]
fn search_result_equals_exact_substring_matches() {
    let names = ["report_2020.pdf", "2020-report.doc", "rep.ort", "REPORTS", "misc"];
    let mut tree = FileTree::with_capacity(6);
    for name in names {
        tree.add_child(0, entry(name, None));
    }
    let mut e = engine(tree);
    let got = ids(&mut e, "Report", None, None, None);
    let want: Vec<String> =
        names.iter().filter(|n| n.to_lowercase().contains("report")).map(|n| n.to_string()).collect();
    assert_eq!(got, want);
}

#[test]
fn sorted_search_and_memo_reuse() {
    let mut tree = FileTree::with_capacity(4);
    tree.add_child(0, entry("b.txt", Some(3)));
    tree.add_child(0, entry("a.txt", None));
    tree.add_child(0, entry("c.txt", Some(1)));
    let mut e = engine(tree);
    let asc = ids(&mut e, "txt", None, Some(SortField::Filename), None);
    assert_eq!(asc, vec!["a.txt", "b.txt", "c.txt"]);
    let again = ids(&mut e, "txt", None, Some(SortField::Filename), None);
    assert_eq!(again, asc);
    let memo = e.memo.search.as_ref().unwrap();
    assert_eq!(memo.query, "txt");
    assert_eq!(memo.indices, vec![2, 1, 3]);
    let desc = ids(&mut e, "TXT", None, Some(SortField::Filename), Some(SortOrder::Descending));
    assert_eq!(desc, vec!["c.txt", "b.txt", "a.txt"]);
    assert_eq!(e.memo.search.as_ref().unwrap().sort_order, Some(SortOrder::Descending));
    let by_size = ids(&mut e, "txt", None, Some(SortField::Size), None);
    assert_eq!(by_size, vec!["a.txt", "c.txt", "b.txt"]);
    let unsorted = ids(&mut e, "txt", None, None, Some(SortOrder::Descending));
    assert_eq!(unsorted, vec!["b.txt", "a.txt", "c.txt"]);
}

#[test]
fn pages_concatenate_to_the_whole_list() {
    let mut tree = FileTree::with_capacity(260);
    for i in 0..250 {
        tree.add_child(0, entry(&format!("file{:03}.dat", i), None));
    }
    let mut e = engine(tree);
    let mut joined = Vec::new();
    let mut offset = 0;
    loop {
        let r = search(&e.tree, &e.index, &mut e.sorter, &mut e.memo, "file", Some(offset), None, None);
        assert_eq!(r.total, 250);
        assert_eq!(r.offset, offset);
        if r.results.is_empty() {
            break;
        }
        assert!(r.results.len() <= PAGE_SIZE);
        joined.extend(r.results.into_iter().map(|x| x.name));
        offset += PAGE_SIZE;
    }
    let expected: Vec<String> = (0..250).map(|i| format!("file{:03}.dat", i)).collect();
    assert_eq!(joined, expected);
    let past = search(&e.tree, &e.index, &mut e.sorter, &mut e.memo, "file", Some(usize::MAX), None, None);
    assert!(past.results.is_empty());
    assert_eq!(past.total, 250);
}

#[test]
fn sort_parameters_are_parsed() {
    assert_eq!(parse_sort_field(Some("filename")), Some(SortField::Filename));
    assert_eq!(parse_sort_field(Some("date_modified")), Some(SortField::DateModified));
    assert_eq!(parse_sort_field(Some("date_created")), Some(SortField::DateCreated));
    assert_eq!(parse_sort_field(Some("size")), Some(SortField::Size));
    assert_eq!(parse_sort_field(Some("Size")), None);
    assert_eq!(parse_sort_field(None), None);
    assert_eq!(parse_sort_order(Some("ascending")), Some(SortOrder::Ascending));
    assert_eq!(parse_sort_order(Some("descending")), Some(SortOrder::Descending));
    assert_eq!(parse_sort_order(Some("up")), None);
    assert_eq!(parse_sort_order(None), None);
}
