use mnemonist::bloom_filter::{encode_utf16, sum32, BloomFilter, JsBloomFilter};
use mnemonist::fuzzy_map::FuzzyMap;
use mnemonist::fuzzy_multi_map::FuzzyMultiMap;
use mnemonist::hashed_array_tree::HashedArrayTree;
use mnemonist::multi_array::MultiArray;
use mnemonist::passjoin_index::PassjoinIndex;
use mnemonist::sparse_map::SparseMap;

#[test]
fn bloom_filters_never_forget_added_values() {
    assert_eq!(encode_utf16("aé"), vec![97, 233]);
    assert_eq!(sum32(u32::MAX, 2), 131071);
    let mut filter = JsBloomFilter::with_layout(100, 3, 1000).unwrap();
    filter.add("apple");
    assert!(filter.test("apple"));
    filter.clear();
    assert!(!filter.test("apple"));
    let mut rust_filter = BloomFilter::with_dimensions(512, 4);
    rust_filter.add(&"pear");
    assert!(rust_filter.contains(&"pear"));
    assert_eq!(rust_filter.hashes(), 4);
}

#[test]
fn fuzzy_maps_search_by_edit_distance() {
    let mut map = FuzzyMap::new();
    map.set("hello".to_string(), 1);
    map.set("help".to_string(), 2);
    map.set("world".to_string(), 3);
    let found: Vec<(String, i32, usize)> = map
        .search("hell", 1)
        .into_iter()
        .map(|(key, value, distance)| (key.clone(), *value, distance))
        .collect();
    assert_eq!(found, vec![("hello".to_string(), 1, 1), ("help".to_string(), 2, 1)]);
    assert_eq!(map.get("world"), Some(&3));

    let mut multi = FuzzyMultiMap::new();
    multi.set("cat".to_string(), 1);
    multi.set("cat".to_string(), 2);
    assert_eq!(multi.get("cat"), Some(&[1, 2][..]));
    assert_eq!(multi.size(), 2);
    assert_eq!(multi.dimension(), 1);
}

#[test]
fn passjoin_index_finds_near_keys() {
    let mut index = PassjoinIndex::new();
    index.add("kitten".to_string(), 1);
    index.add("sitting".to_string(), 2);
    index.add("mitten".to_string(), 3);
    let found: Vec<(String, usize)> = index
        .search("kitten", 1)
        .into_iter()
        .map(|(key, _, distance)| (key.clone(), distance))
        .collect();
    assert_eq!(found, vec![("kitten".to_string(), 0), ("mitten".to_string(), 1)]);
    assert_eq!(index.size(), 3);
}

#[test]
fn hashed_array_tree_grows_by_blocks() {
    let mut tree = HashedArrayTree::new(4);
    for value in 0..6 {
        tree.push(value);
    }
    assert_eq!(tree.length(), 6);
    assert_eq!(tree.capacity(), 8);
    assert_eq!(tree.get(5), Some(&5));
    assert!(tree.set(0, 9));
    assert_eq!(tree.pop(), Some(5));
    assert_eq!(tree.to_array(), vec![9, 1, 2, 3, 4]);
}

#[test]
fn multi_array_appends_to_containers() {
    let mut array = MultiArray::new(3);
    array.set(1, "a");
    array.set(1, "b");
    array.push("c");
    assert_eq!(array.count(1), 2);
    assert_eq!(array.get(1), Some(&["a", "b"][..]));
    assert!(!array.has(0));
    assert_eq!(array.size(), 3);
}

#[test]
fn sparse_map_keeps_members_dense() {
    let mut map = SparseMap::new(8);
    map.set(5, "five");
    map.set(2, "two");
    assert_eq!(map.get(5), Some(&"five"));
    assert!(map.delete(5));
    assert_eq!(map.keys(), vec![2]);
    assert_eq!(map.size(), 1);
}
