use mnemonist::trie_map::TrieMap;

#[test]
fn trie_map_set_get_and_overwrite() {
    let mut map = TrieMap::new();
    map.set("rat".to_string(), 1);
    map.set("rate".to_string(), 2);
    map.set("rat".to_string(), 3);
    assert_eq!(map.size(), 2);
    assert_eq!(map.get("rat"), Some(&3));
    assert_eq!(map.get("rate"), Some(&2));
    assert_eq!(map.get("ra"), None);
    assert!(map.has("rate"));
    assert!(!map.has("r"));
}

#[test]
fn trie_map_find_walks_node_then_latest_child_first() {
    let map = TrieMap::from_iter(vec![
        ("ab".to_string(), 1),
        ("abc".to_string(), 2),
        ("abd".to_string(), 3),
        ("b".to_string(), 4),
    ]);
    assert_eq!(
        map.find("ab"),
        vec![("ab".to_string(), &1), ("abd".to_string(), &3), ("abc".to_string(), &2)]
    );
    assert_eq!(map.find("x"), vec![]);
    assert_eq!(map.find("").len(), 4);
}

#[test]
fn trie_map_delete_prunes_and_reports() {
    let mut map = TrieMap::new();
    map.set("ab".to_string(), 1);
    map.set("ad".to_string(), 2);
    map.set("abc".to_string(), 3);
    assert!(map.delete("ab"));
    assert!(!map.delete("ab"));
    assert_eq!(map.size(), 2);
    assert_eq!(map.find("a"), vec![("ad".to_string(), &2), ("abc".to_string(), &3)]);
    assert!(map.delete("abc"));
    assert_eq!(map.find("ab"), vec![]);
    assert_eq!(map.keys(), vec!["ad"]);
}

#[test]
fn trie_map_prefix_listings_follow_insertion_order() {
    let map = TrieMap::from_iter(vec![
        ("tea".to_string(), 1),
        ("ten".to_string(), 2),
        ("to".to_string(), 3),
        ("tee".to_string(), 4),
    ]);
    assert_eq!(map.keys_with_prefix("te"), vec!["tea", "ten", "tee"]);
    assert_eq!(map.values_with_prefix("te"), vec![&1, &2, &4]);
    assert_eq!(
        map.entries_with_prefix("to"),
        vec![(&"to".to_string(), &3)]
    );
    assert_eq!(map.keys(), vec!["tea", "ten", "to", "tee"]);
    assert_eq!(map.prefixes(), vec!["tea", "ten", "to", "tee"]);
    assert_eq!(map.values(), vec![&1, &2, &3, &4]);
    assert_eq!(map.entries().len(), 4);
}

#[test]
fn trie_map_update_sees_current_value() {
    let mut map = TrieMap::new();
    map.update("n".to_string(), |current: Option<&i32>| current.copied().unwrap_or(0) + 1);
    map.update("n".to_string(), |current: Option<&i32>| current.copied().unwrap_or(0) + 1);
    assert_eq!(map.get("n"), Some(&2));
}

#[test]
fn trie_map_clear_empties() {
    let mut map = TrieMap::from_iter(vec![("a".to_string(), 1)]);
    map.clear();
    assert_eq!(map.size(), 0);
    assert_eq!(map.find(""), vec![]);
    assert_eq!(map.get("a"), None);
}
