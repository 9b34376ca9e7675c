use mnemonist::bi_map::BiMap;
use mnemonist::critbit_tree_map::CritBitTreeMap;
use mnemonist::default_map::DefaultMap;
use mnemonist::lru_cache::LruCache;
use mnemonist::multi_map::{MultiMap, MultiMapContainer};

fn s(text: &str) -> String {
    text.to_string()
}

#[test]
fn bi_map_keeps_both_directions_one_to_one() {
    let mut map = BiMap::new();
    map.set(s("a"), s("1"));
    map.set(s("b"), s("2"));
    assert_eq!(map.get("a"), Some(&s("1")));
    assert_eq!(map.inverse_get("2"), Some(&s("b")));
    map.set(s("a"), s("2"));
    assert_eq!(map.size(), 1);
    assert!(!map.has("b"));
    assert_eq!(map.inverse_get("2"), Some(&s("a")));
    assert!(map.inverse_delete("2"));
    assert_eq!(map.size(), 0);
    assert!(!map.delete("a"));
}

#[test]
fn default_map_creates_missing_keys_with_default() {
    let mut map = DefaultMap::new(0);
    assert_eq!(*map.get(s("x")), 0);
    map.set(s("y"), 5);
    assert_eq!(map.size(), 2);
    assert_eq!(map.peek("y"), Some(&5));
    assert_eq!(map.peek("z"), None);
    assert!(map.delete("x"));
    assert_eq!(map.keys(), vec!["y"]);
    assert_eq!(map.values(), vec![&5]);
}

#[test]
fn lru_cache_evicts_least_recent() {
    assert_eq!(
        LruCache::<i32>::new(0).err().unwrap().0,
        "mnemonist/lru-cache: capacity should be positive number."
    );
    let mut cache = LruCache::new(2).unwrap();
    cache.set(s("a"), 1);
    cache.set(s("b"), 2);
    assert_eq!(cache.get(&s("a")), Some(1));
    cache.set(s("c"), 3);
    assert!(!cache.has(&s("b")));
    assert_eq!(cache.keys(), vec!["c", "a"]);
    let popped = cache.setpop(s("d"), 4).unwrap();
    assert!(popped.evicted);
    assert_eq!(popped.key, "a");
    assert_eq!(popped.value, 1);
    let replaced = cache.setpop(s("d"), 5).unwrap();
    assert!(!replaced.evicted);
    assert_eq!(replaced.value, 4);
    assert_eq!(cache.peek(&s("d")), Some(&5));
    assert_eq!(cache.remove(&s("c")), Some(3));
    assert_eq!(cache.size(), 1);
}

#[test]
fn multi_map_groups_values_by_key() {
    let mut map = MultiMap::new(MultiMapContainer::Vec);
    map.set(s("k"), s("1"));
    map.set(s("k"), s("1"));
    map.set(s("j"), s("2"));
    assert_eq!(map.size(), 3);
    assert_eq!(map.dimension(), 2);
    assert_eq!(map.multiplicity("k"), 2);
    assert!(map.remove("k", &s("1")));
    assert_eq!(map.multiplicity("k"), 1);
    let mut set = MultiMap::new(MultiMapContainer::Distinct);
    set.set(s("k"), s("1"));
    set.set(s("k"), s("1"));
    assert_eq!(set.size(), 1);
    assert!(set.contains("k", &s("1")));
    assert!(set.delete("k"));
    assert!(!set.has("k"));
}

#[test]
fn critbit_map_lists_keys_in_order() {
    let mut map = CritBitTreeMap::new();
    map.set(s("banana"), 2);
    map.set(s("apple"), 1);
    map.set(s("band"), 3);
    assert_eq!(map.keys(), vec!["apple", "banana", "band"]);
    assert_eq!(map.keys_with_prefix("ban"), vec!["banana", "band"]);
    assert_eq!(map.get("band"), Some(&3));
    assert!(map.delete("apple"));
    assert!(!map.has("apple"));
    assert_eq!(map.size(), 2);
}
