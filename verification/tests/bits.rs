use mnemonist::bit_set::BitSet;
use mnemonist::bit_vector::BitVector;

#[test]
fn bit_set_counts_ranks_and_selects() {
    let mut set = BitSet::new(70);
    assert_eq!(set.length(), 70);
    assert_eq!(set.word_len(), 3);
    set.set(3, true);
    set.set(40, true);
    set.set(69, true);
    assert_eq!(set.size(), 3);
    assert_eq!(set.get(3), 1);
    assert!(set.test(40));
    assert!(!set.test(41));
    assert_eq!(set.rank(4), 1);
    assert_eq!(set.rank(41), 2);
    assert_eq!(set.rank(1000), 3);
    assert_eq!(set.select(2), 40);
    assert_eq!(set.select(0), -1);
    assert_eq!(set.select(4), -1);
    set.flip(3);
    set.reset(40);
    assert_eq!(set.size(), 1);
    assert_eq!(set.to_json(), vec![0, 0, 32]);
    set.clear();
    assert_eq!(set.size(), 0);
}

#[test]
fn bit_set_values_list_every_position() {
    let mut set = BitSet::new(4);
    set.set(1, true);
    assert_eq!(set.values(), vec![0, 1, 0, 0]);
    assert_eq!(set.entries(), vec![(0, 0), (1, 1), (2, 0), (3, 0)]);
}

#[test]
fn bit_vector_pushes_pops_and_resizes() {
    let mut bits = BitVector::new();
    assert_eq!(bits.push(true), 1);
    assert_eq!(bits.push(false), 2);
    assert_eq!(bits.push(true), 3);
    assert_eq!(bits.size(), 2);
    assert_eq!(bits.values(), vec![1, 0, 1]);
    assert_eq!(bits.rank(2), 1);
    assert_eq!(bits.select(2), 2);
    assert_eq!(bits.pop(), Some(1));
    assert_eq!(bits.length(), 2);
    assert!(bits.set(1, true));
    assert!(!bits.set(1, true));
    bits.resize(40);
    assert_eq!(bits.length(), 40);
    assert_eq!(bits.size(), 2);
    bits.flip(39);
    assert_eq!(bits.to_json(), vec![3, 128]);
}
