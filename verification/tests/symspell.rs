use mnemonist::symspell::{damerau_levenshtein, SymSpell};

#[test]
fn preserves_mnemonist_suggestion_order_and_counts() {
    let mut index = SymSpell::new();
    for word in [
        "Hello", "Mello", "John", "Book", "Back", "World", "Hello", "Jello", "Hell", "Trello",
    ] {
        index.add(word);
    }

    assert_eq!(index.size(), 10);
    assert_eq!(
        index
            .search("ello")
            .into_iter()
            .map(|suggestion| (suggestion.term, suggestion.distance, suggestion.count))
            .collect::<Vec<_>>(),
        vec![
            ("Hello".to_string(), 1, 2),
            ("Mello".to_string(), 1, 1),
            ("Jello".to_string(), 1, 1),
            ("Trello".to_string(), 2, 1),
            ("Hell".to_string(), 2, 1),
        ]
    );
}

#[test]
fn retains_suggestions_shared_by_multiple_delete_paths() {
    let mut index = SymSpell::with_options(2, 2).unwrap();
    for word in ["bem", "bwwhwcp", "wmw", ""] {
        index.add(word);
    }

    assert!(
        index.suggestions_of("b").unwrap().contains(&0),
        "delete dictionary lost bem: {:?}",
        index.suggestions_of("b")
    );
    assert_eq!(damerau_levenshtein("bem", "mb"), 2);
    assert!(
        index
            .search("mb")
            .iter()
            .any(|suggestion| suggestion.term == "bem"),
        "search lost bem: {:?}",
        index.search("mb")
    );
}

#[test]
fn symspell_rejects_invalid_options() {
    assert_eq!(
        SymSpell::with_options(0, 1).err(),
        Some("max_distance must be greater than zero")
    );
    assert_eq!(
        SymSpell::with_options(2, 3).err(),
        Some("verbosity must be 0, 1, or 2")
    );
    let index = SymSpell::with_options(3, 1).unwrap();
    assert_eq!(index.max_distance(), 3);
    assert_eq!(index.verbosity(), 1);
}

#[test]
fn symspell_damerau_counts_transpositions_once() {
    assert_eq!(damerau_levenshtein("", ""), 0);
    assert_eq!(damerau_levenshtein("abc", "abc"), 0);
    assert_eq!(damerau_levenshtein("ab", "ba"), 1);
    assert_eq!(damerau_levenshtein("ca", "abc"), 2);
    assert_eq!(damerau_levenshtein("kitten", "sitting"), 3);
    assert_eq!(damerau_levenshtein("", "abc"), 3);
}

#[test]
fn symspell_verbosity_zero_keeps_one_suggestion() {
    let mut index = SymSpell::with_options(2, 0).unwrap();
    for word in ["hello", "hallo", "hullo"] {
        index.add(word);
    }
    let found = index.search("hxllo");
    assert_eq!(found.len(), 1);
    assert_eq!(found[0].distance, 1);
}

#[test]
fn symspell_search_gives_up_on_overlong_input() {
    let mut index = SymSpell::new();
    index.add("ab");
    assert!(index.search("abcdefgh").is_empty());
}

#[test]
fn symspell_exact_hit_has_distance_zero() {
    let mut index = SymSpell::with_options(2, 1).unwrap();
    index.add("word");
    index.add("word");
    let found = index.search("word");
    assert_eq!(found.len(), 1);
    assert_eq!(found[0].term, "word");
    assert_eq!(found[0].distance, 0);
    assert_eq!(found[0].count, 2);
}

#[test]
fn symspell_lookup_sorts_by_distance_then_word() {
    let mut index = SymSpell::new();
    for word in ["cat", "bat", "cart", "dog"] {
        index.add(word);
    }
    assert_eq!(
        index.lookup("cat", 1),
        vec![
            ("cat".to_string(), 0),
            ("bat".to_string(), 1),
            ("cart".to_string(), 1),
        ]
    );
}

#[test]
fn symspell_clear_forgets_words() {
    let mut index = SymSpell::new();
    index.add("alpha");
    index.clear();
    assert_eq!(index.size(), 0);
    assert!(index.search("alpha").is_empty());
    assert_eq!(index.suggestions_of("alpha"), None);
}
