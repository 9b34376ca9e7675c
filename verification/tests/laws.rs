use mnemonist::bit_vector::BitVector;
use mnemonist::bloom_filter::JsBloomFilter;
use mnemonist::fibonacci_heap::FibonacciHeap;
use mnemonist::generalized_suffix_array::GeneralizedSuffixArray;
use mnemonist::passjoin_index::{partition, segment_pos, segments};
use mnemonist::static_disjoint_set::StaticDisjointSet;
use mnemonist::trie::Trie;

#[test]
fn generalized_suffix_array_separates_with_distinct_control_characters() {
    let array = GeneralizedSuffixArray::new(&["ab", "cd", "ef"]);
    assert_eq!(array.string(), "ab\u{1}cd\u{2}ef");
    assert_eq!(array.length(), 8);
}

#[test]
fn generalized_suffix_array_shares_no_character_across_accents() {
    let array = GeneralizedSuffixArray::new(&["\u{e9}", "\u{e8}"]);
    assert_eq!(array.longest_common_subsequence(), "");
    let array = GeneralizedSuffixArray::new(&["xa\u{e9}", "ya\u{e8}"]);
    assert_eq!(array.longest_common_subsequence(), "a");
    let array = GeneralizedSuffixArray::new(&["a\u{20ac}xy", "a\u{2082}xy"]);
    assert_eq!(array.longest_common_subsequence(), "xy");
    let array = GeneralizedSuffixArray::new(&["banana", "ananas"]);
    assert_eq!(array.longest_common_subsequence(), "anana");
    let array = GeneralizedSuffixArray::new(&["abxcd", "cdyab", "zz"]);
    assert_eq!(array.longest_common_subsequence(), "ab");
}

#[test]
fn js_bloom_filter_keeps_values_through_later_adds() {
    let mut filter = JsBloomFilter::with_layout(10, 3, 4).unwrap();
    filter.add("first");
    assert!(filter.test("first"));
    for word in ["second", "third", "fourth", "fifth"] {
        filter.add(word);
        assert!(filter.test("first"));
    }
}

#[test]
fn segment_starts_sum_the_earlier_lengths() {
    let value = "abcdefghij";
    let parts = segments(3, value);
    for index in 0..=3 {
        let before: usize = parts[..index].iter().map(|s| s.chars().count()).sum();
        assert_eq!(segment_pos(3, index, value), before);
        assert_eq!(partition(3, 10)[index].0, before);
    }
}

#[test]
fn disjoint_set_dimension_counts_representatives() {
    let mut sets = StaticDisjointSet::new(6);
    sets.union(0, 5);
    sets.union(2, 3);
    sets.union(5, 3);
    let mut reps: Vec<usize> = (0..6).map(|x| sets.find(x)).collect();
    reps.sort();
    reps.dedup();
    assert_eq!(sets.dimension(), reps.len());
    assert_eq!(sets.dimension(), 3);
}

#[test]
fn bit_vector_pop_undoes_push() {
    let mut vector = BitVector::new();
    vector.push(true);
    vector.push(false);
    assert_eq!(vector.push(true), 3);
    assert_eq!(vector.pop(), Some(1));
    assert_eq!(vector.pop(), Some(0));
    assert_eq!(vector.pop(), Some(1));
    assert_eq!(vector.pop(), None);
}

#[test]
fn trie_from_iter_lists_words_in_order() {
    let trie = Trie::from_iter(&["b", "a", "b"]);
    assert_eq!(trie.size(), 2);
    assert_eq!(trie.values(), vec!["a", "b"]);
    assert!(trie.has("a"));
    assert!(!trie.has(""));
}

#[test]
fn fibonacci_pop_leaves_a_linked_tree() {
    let mut heap = FibonacciHeap::new_min();
    for value in [5, 1, 4, 2] {
        heap.push(value);
    }
    assert_eq!(heap.pop(), Some(1));
    assert!(heap.max_degree() > 0);
}
