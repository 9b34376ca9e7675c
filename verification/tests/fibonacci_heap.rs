use mnemonist::fibonacci_heap::FibonacciHeap;

#[test]
fn consolidates_roots_and_keeps_minimum_order() {
    let mut heap = FibonacciHeap::new_min();
    for value in [7, 3, 18, 39, 10, 1, 12, 4, 2] {
        heap.push(value);
    }

    assert_eq!(heap.pop(), Some(1));
    assert!(heap.max_degree() > 0);
    assert_eq!(heap.consume(), vec![2, 3, 4, 7, 10, 12, 18, 39]);
}

#[test]
fn max_heap_reverses_priority_without_changing_structure() {
    let mut heap = FibonacciHeap::new_max();
    for value in [2, 5, 1, 4] {
        heap.push(value);
    }

    assert_eq!(heap.consume(), vec![5, 4, 2, 1]);
}

#[test]
fn fibonacci_pop_on_empty_heap_gives_nothing() {
    let mut heap = FibonacciHeap::new_min();
    assert_eq!(heap.pop(), None);
    assert_eq!(heap.peek(), None);
    assert_eq!(heap.size(), 0);
}

#[test]
fn fibonacci_push_reports_size_and_peek_sees_minimum() {
    let mut heap = FibonacciHeap::new_min();
    assert_eq!(heap.push(5), 1);
    assert_eq!(heap.push(-3), 2);
    assert_eq!(heap.push(8), 3);
    assert_eq!(heap.peek(), Some(&-3));
    assert_eq!(heap.size(), 3);
}

#[test]
fn fibonacci_to_array_leaves_heap_intact() {
    let heap = FibonacciHeap::from_iter(vec![4, 1, 3, 1, 2], false);
    assert_eq!(heap.to_array(), vec![1, 1, 2, 3, 4]);
    assert_eq!(heap.size(), 5);
    assert_eq!(heap.to_array(), vec![1, 1, 2, 3, 4]);
}

#[test]
fn fibonacci_interleaved_pushes_and_pops() {
    let mut heap = FibonacciHeap::new_min();
    for value in [10, 20, 5, 15] {
        heap.push(value);
    }
    assert_eq!(heap.pop(), Some(5));
    heap.push(1);
    heap.push(30);
    assert_eq!(heap.pop(), Some(1));
    assert_eq!(heap.pop(), Some(10));
    heap.push(12);
    assert_eq!(heap.consume(), vec![12, 15, 20, 30]);
    assert_eq!(heap.size(), 0);
}

#[test]
fn fibonacci_clear_empties_the_heap() {
    let mut heap = FibonacciHeap::from_iter(vec![3, 2, 1], true);
    assert_eq!(heap.peek(), Some(&3));
    heap.clear();
    assert_eq!(heap.size(), 0);
    assert_eq!(heap.pop(), None);
    heap.push(7);
    assert_eq!(heap.pop(), Some(7));
}
