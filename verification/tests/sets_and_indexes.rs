use indexmap::IndexSet;
use mnemonist::generalized_suffix_array::GeneralizedSuffixArray;
use mnemonist::inverted_index::{tokenize, InvertedIndex};
use mnemonist::set_ops;
use mnemonist::sparse_queue_set::SparseQueueSet;
use mnemonist::sparse_set::SparseSet;
use mnemonist::static_disjoint_set::StaticDisjointSet;
use mnemonist::suffix_array::SuffixArray;
use mnemonist::trie::Trie;

fn set(items: &[&str]) -> IndexSet<String> {
    items.iter().map(|item| item.to_string()).collect()
}

#[test]
fn set_operations_follow_first_operand_order() {
    let a = set(&["a", "b", "c"]);
    let b = set(&["c", "d", "a"]);
    assert_eq!(set_ops::difference(&a, &b), set(&["b"]));
    assert_eq!(set_ops::symmetric_difference(&a, &b), set(&["b", "d"]));
    assert_eq!(set_ops::intersection_size(&a, &b), 2);
    assert_eq!(set_ops::union_size(&a, &b), 4);
    assert!(set_ops::is_subset(&set(&["a"]), &a));
    assert!(set_ops::is_superset(&a, &set(&["c"])));
    assert_eq!(
        set_ops::union(&[a.clone()]).err().unwrap(),
        "mnemonist/Set.union: needs at least two arguments."
    );
    assert_eq!(
        set_ops::intersection(&[a.clone()]).err().unwrap(),
        "mnemonist/Set.intersection: needs at least two arguments."
    );
    let union = set_ops::union(&[a.clone(), b.clone()]).unwrap();
    assert_eq!(union.iter().collect::<Vec<_>>(), vec!["a", "b", "c", "d"]);
    let mut c = a.clone();
    set_ops::intersect(&mut c, &b);
    assert_eq!(c.iter().collect::<Vec<_>>(), vec!["a", "c"]);
    let mut d = a.clone();
    set_ops::subtract(&mut d, &b);
    assert_eq!(d, set(&["b"]));
}

#[test]
fn sparse_sets_track_members() {
    let mut members = SparseSet::new(10);
    members.add(3);
    members.add(7);
    members.add(3);
    assert_eq!(members.size(), 2);
    assert!(members.has(7));
    assert!(members.delete(3));
    assert!(!members.delete(3));
    assert_eq!(members.values(), vec![7]);

    let mut queue = SparseQueueSet::new(5);
    assert!(queue.enqueue(4));
    assert!(queue.enqueue(1));
    assert!(!queue.enqueue(4));
    assert_eq!(queue.dequeue(), Some(4));
    assert_eq!(queue.values(), vec![1]);
    assert_eq!(queue.size(), 1);
}

#[test]
fn disjoint_set_numbers_classes_by_first_member() {
    let mut sets = StaticDisjointSet::new(5);
    sets.union(0, 3);
    sets.union(4, 1);
    assert!(sets.connected(3, 0));
    assert!(!sets.connected(1, 2));
    assert_eq!(sets.dimension(), 3);
    assert_eq!(sets.mapping(), vec![0, 1, 2, 0, 1]);
    assert_eq!(sets.compile(), vec![vec![0, 3], vec![1, 4], vec![2]]);
}

#[test]
fn trie_finds_words_by_prefix() {
    let mut trie = Trie::from_iter(&["car", "cart", "cat", "dog"]);
    assert!(!trie.add("car"));
    assert_eq!(trie.find("car"), vec!["car", "cart"]);
    assert!(trie.delete("cart"));
    assert_eq!(trie.keys_with_prefix("ca"), vec!["car", "cat"]);
    assert_eq!(trie.size(), 3);
}

#[test]
fn suffix_array_locates_patterns() {
    let array = SuffixArray::new("banana".to_string());
    assert_eq!(array.array(), &[5, 3, 1, 0, 4, 2]);
    assert_eq!(array.search("ana"), vec![1, 3]);
    assert_eq!(array.suffix(0), Some("a"));
    assert_eq!(array.length(), 6);
}

#[test]
fn generalized_suffix_array_finds_common_run() {
    let array = GeneralizedSuffixArray::new(&["xabcy", "zabcw"]);
    assert_eq!(array.size(), 2);
    assert_eq!(array.longest_common_subsequence(), "abc");
}

#[test]
fn inverted_index_intersects_token_postings() {
    assert_eq!(tokenize("Hello, brave new-world"), vec!["hello", "brave", "new", "world"]);
    let mut index = InvertedIndex::new();
    index.add("a".to_string(), "red apple", 1);
    index.add("b".to_string(), "green apple", 2);
    assert_eq!(index.search("apple"), vec![&1, &2]);
    assert_eq!(index.search("red APPLE"), vec![&1]);
    assert!(index.search("pear").is_empty());
    assert_eq!(index.size(), 2);
}
