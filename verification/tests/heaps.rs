use mnemonist::fixed_reverse_heap::FixedReverseHeap;
use mnemonist::heap::{self, Heap};

#[test]
fn heap_pops_in_order_and_reports_replace_errors() {
    let mut h = Heap::new_min();
    for value in [5, 1, 4, 1, 3] {
        h.push(value);
    }
    assert_eq!(h.peek(), Some(&1));
    assert_eq!(h.pop(), Some(1));
    assert_eq!(h.replace(9).unwrap(), 1);
    assert_eq!(h.pushpop(0), 0);
    assert_eq!(h.consume(), vec![3, 4, 5, 9]);
    assert_eq!(h.replace(1).err().unwrap(), "mnemonist/heap.replace: cannot pop an empty heap.");
}

#[test]
fn max_heap_and_helpers() {
    let h = Heap::from_iter(vec![2, 8, 5], true);
    assert_eq!(h.to_array(), vec![8, 5, 2]);
    assert_eq!(h.size(), 3);
    assert_eq!(Heap::nsmallest(2, vec![7, 3, 9, 1]), vec![1, 3]);
    assert_eq!(Heap::nlargest(2, vec![7, 3, 9, 1]), vec![9, 7]);
    let mut items = vec![4, 2, 6, 1];
    heap::heapify(false, &mut items);
    assert_eq!(heap::consume(false, &mut items), vec![1, 2, 4, 6]);
}

#[test]
fn fixed_reverse_heap_keeps_smallest() {
    let mut h = FixedReverseHeap::new(3);
    for value in [5, 1, 9, 3, 7] {
        h.push(value);
    }
    assert_eq!(h.size(), 3);
    assert_eq!(h.capacity(), 3);
    assert_eq!(h.peek(), Some(&1));
    assert_eq!(h.to_array(), vec![1, 3, 5]);
    assert_eq!(h.consume(), vec![1, 3, 5]);
    assert_eq!(h.size(), 0);
}
