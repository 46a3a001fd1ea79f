use tankseek::bigram_index::BigramIndex;
use tankseek::file_tree::{Element, FileTree};
use tankseek::post_filter::post_filter;

fn entry(name: &str) -> Element {
    Element {
        filename: String::from(name),
        size: None,
        date_modified: None,
        date_created: None,
        attributes: 0,
        parent: 0,
        children: Vec::new(),
    }
}

fn tree_of(names: &[&str]) -> FileTree {
    let mut tree = FileTree::with_capacity(names.len() + 1);
    for name in names {
        tree.add_child(0, entry(name));
    }
    tree
}

#[test]
fn bigram_query_ana_keeps_all_three() {
    let tree = tree_of(&["banana", "canada", "panama"]);
    let index = BigramIndex::new(&tree);
    let mut candidates = index.query_word("ana");
    assert_eq!(candidates, vec![1, 2, 3]);
    post_filter(&tree, &mut candidates, "ana");
    assert_eq!(candidates, vec![1, 2, 3]);
}

#[test]
fn bigram_query_nan_drops_canada_after_post_filter() {
    let tree = tree_of(&["banana", "canada", "panama"]);
    let index = BigramIndex::new(&tree);
    let mut candidates = index.query_word("nan");
    assert!(candidates.contains(&1));
    assert!(candidates.contains(&3));
    assert_eq!(candidates, vec![1, 2, 3]);
    post_filter(&tree, &mut candidates, "nan");
    // Of the three only "banana" holds "nan" as a run of characters.
    assert_eq!(candidates, vec![1]);
}

#[test]
fn query_word_lowercases_query_and_names() {
    let tree = tree_of(&["BaNaNa.TXT", "kiwi"]);
    let index = BigramIndex::new(&tree);
    assert_eq!(index.query_word("ANA"), vec![1]);
    assert_eq!(index.query_word("txt"), vec![1]);
    assert_eq!(index.query_word("wi"), vec![2]);
}

#[test]
fn missing_window_gives_empty_result() {
    let tree = tree_of(&["banana", "kiwi"]);
    let index = BigramIndex::new(&tree);
    assert!(index.query_word("bananaz").is_empty());
    assert!(index.query_word("zz").is_empty());
}

#[test]
fn every_name_containing_the_query_is_a_candidate() {
    let names = ["alpha.rs", "beta.rs", "gamma.txt", "rs", "xrsx", "r s"];
    let tree = tree_of(&names);
    let index = BigramIndex::new(&tree);
    let found = index.query_word("rs");
    for (i, name) in names.iter().enumerate() {
        if name.to_lowercase().contains("rs") {
            assert!(found.contains(&(i + 1)));
        }
    }
    assert_eq!(found, vec![1, 2, 4, 5]);
}

#[test]
fn query_char_finds_names_holding_the_character() {
    let tree = tree_of(&["ab", "b", "Ca"]);
    let index = BigramIndex::new(&tree);
    assert_eq!(index.query_char('b'), vec![1, 2]);
    assert_eq!(index.query_char('a'), vec![1, 3]);
    assert_eq!(index.query_char('c'), vec![3]);
    assert!(index.query_char('z').is_empty());
}

#[test]
fn len_counts_distinct_windows() {
    let tree = tree_of(&["abab", "ba"]);
    let index = BigramIndex::new(&tree);
    // "root" gives ro, oo, ot; the names give ab and ba.
    assert_eq!(index.len(), 5);
}

#[test]
fn short_query_selects_every_entry() {
    let tree = tree_of(&["a", "b"]);
    let index = BigramIndex::new(&tree);
    assert_eq!(index.query_lowered(&vec!['q']), vec![0, 1, 2]);
    assert_eq!(index.query_lowered(&Vec::new()), vec![0, 1, 2]);
}
