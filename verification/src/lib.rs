//! Verified collections: stacks, queues, heaps, sets, maps, tries, metric
//! trees, suffix arrays and spelling indexes, each with its contract.
pub mod bi_map;
pub mod bit_model;
pub mod bit_set;
pub mod bit_vector;
pub mod bk_tree;
pub mod bloom_filter;
pub mod circular_buffer;
pub mod critbit_tree_map;
pub mod default_map;
pub mod fibonacci_heap;
pub mod fixed_deque;
pub mod fixed_reverse_heap;
pub mod fixed_stack;
pub mod fuzzy_map;
pub mod fuzzy_multi_map;
pub mod generalized_suffix_array;
pub mod hashed_array_tree;
pub mod heap;
pub mod id_map;
pub mod inverted_index;
pub mod linked_list;
pub mod lru_cache;
pub mod messages;
pub mod multi_array;
pub mod multi_map;
pub mod multi_set;
pub mod ordered_keys;
pub mod passjoin_index;
pub mod queue;
pub mod ranking;
pub mod seq_facts;
pub mod set_ops;
pub mod sparse_map;
pub mod sparse_queue_set;
pub mod sparse_set;
pub mod stack;
pub mod static_disjoint_set;
pub mod suffix_array;
pub mod std_wrappers;
pub mod symspell;
pub mod text;
pub mod trie;
pub mod trie_map;
pub mod vector;
pub mod vp_sort;
pub mod vp_tree;
