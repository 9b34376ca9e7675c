use mnemonist::bk_tree::{levenshtein, BkTree};

#[test]
fn radius_search_prunes_incompatible_edges() {
    let tree = BkTree::from_iter(&[
        "book", "back", "books", "cake", "cart", "cape", "cook", "cookie", "boon",
    ]);

    let (matches, visits) = tree.search_with_visits("book", 1);

    assert_eq!(
        matches,
        vec![
            ("book".to_owned(), 0),
            ("books".to_owned(), 1),
            ("boon".to_owned(), 1),
            ("cook".to_owned(), 1),
        ]
    );
    assert!(
        visits < tree.size(),
        "the BK search should skip impossible edge ranges"
    );
}

#[test]
fn duplicate_words_remain_observable_entries() {
    let tree = BkTree::from_iter(&["same", "same"]);
    assert_eq!(tree.size(), 2);
    assert_eq!(tree.search("same", 0).len(), 2);
}

#[test]
fn levenshtein_counts_single_edits() {
    assert_eq!(levenshtein("kitten", "sitting"), 3);
    assert_eq!(levenshtein("", "abc"), 3);
    assert_eq!(levenshtein("abc", ""), 3);
    assert_eq!(levenshtein("flaw", "lawn"), 2);
    assert_eq!(levenshtein("é", "e"), 1);
}

#[test]
fn bk_search_is_symmetric_in_edit_distance() {
    let mut tree = BkTree::new();
    tree.add("abc");
    tree.add("abd");
    tree.add("xyz");
    assert_eq!(
        tree.search("abe", 1),
        vec![("abc".to_owned(), 1), ("abd".to_owned(), 1)]
    );
    assert_eq!(tree.search("zzz", 0), Vec::<(String, usize)>::new());
    tree.clear();
    assert_eq!(tree.size(), 0);
    assert!(tree.search("abc", 5).is_empty());
}
