use mnemonist::circular_buffer::CircularBuffer;
use mnemonist::fixed_deque::FixedDeque;
use mnemonist::fixed_stack::FixedStack;
use mnemonist::linked_list::LinkedList;
use mnemonist::queue::Queue;
use mnemonist::stack::Stack;
use mnemonist::vector::Vector;

#[test]
fn stack_pops_last_pushed_first() {
    let mut stack = Stack::new();
    assert_eq!(stack.push(1), 1);
    assert_eq!(stack.push(2), 2);
    assert_eq!(stack.push(3), 3);
    assert_eq!(stack.peek(), Some(&3));
    assert_eq!(stack.pop(), Some(3));
    assert_eq!(stack.pop(), Some(2));
    assert_eq!(stack.size(), 1);
    stack.clear();
    assert_eq!(stack.pop(), None);
}

#[test]
fn stack_lists_top_first() {
    let stack = Stack::from_iter(vec![1, 2, 3]);
    assert_eq!(stack.to_array(), vec![3, 2, 1]);
    assert_eq!(stack.values(), vec![&3, &2, &1]);
    assert_eq!(stack.entries(), vec![(0, &3), (1, &2), (2, &1)]);
    let of = Stack::of(vec!["a", "b"]);
    assert_eq!(of.peek(), Some(&"b"));
}

#[test]
fn queue_dequeues_first_enqueued_first() {
    let mut queue = Queue::new();
    assert_eq!(queue.enqueue('a'), 1);
    assert_eq!(queue.enqueue('b'), 2);
    assert_eq!(queue.peek(), Some(&'a'));
    assert_eq!(queue.dequeue(), Some('a'));
    assert_eq!(queue.dequeue(), Some('b'));
    assert_eq!(queue.dequeue(), None);
    let queue = Queue::from_iter(vec![1, 2, 3]);
    assert_eq!(queue.to_array(), vec![1, 2, 3]);
    assert_eq!(queue.entries(), vec![(0, &1), (1, &2), (2, &3)]);
}

#[test]
fn fixed_stack_refuses_overflow_and_zero_capacity() {
    assert_eq!(
        FixedStack::<i32>::new(0).err().unwrap().0,
        "mnemonist/fixed-stack: `capacity` should be a positive number."
    );
    let mut stack = FixedStack::new(2).unwrap();
    assert_eq!(stack.push(1).unwrap(), 1);
    assert_eq!(stack.push(2).unwrap(), 2);
    assert_eq!(
        stack.push(3).err().unwrap().0,
        "mnemonist/fixed-stack.push: stack capacity (2) exceeded!"
    );
    assert_eq!(stack.pop(), Some(2));
    assert_eq!(stack.capacity(), 2);
    assert_eq!(stack.to_array(), vec![1]);
    let from = FixedStack::from_iter(vec![1, 2, 3], None).unwrap();
    assert_eq!(from.capacity(), 3);
    assert_eq!(from.peek(), Some(&3));
}

#[test]
fn fixed_deque_works_at_both_ends() {
    let mut deque = FixedDeque::new(3).unwrap();
    assert_eq!(deque.push(1).unwrap(), 1);
    assert_eq!(deque.unshift(0).unwrap(), 2);
    assert_eq!(deque.push(2).unwrap(), 3);
    assert_eq!(
        deque.push(9).err().unwrap().0,
        "mnemonist/fixed-deque.push: deque capacity (3) exceeded!"
    );
    assert_eq!(
        deque.unshift(9).err().unwrap().0,
        "mnemonist/fixed-deque.unshift: deque capacity (3) exceeded!"
    );
    assert_eq!(deque.to_array(), vec![0, 1, 2]);
    assert_eq!(deque.get(1), Some(&1));
    assert_eq!(deque.get(3), None);
    assert_eq!(deque.peek_first(), Some(&0));
    assert_eq!(deque.peek_last(), Some(&2));
    assert_eq!(deque.shift(), Some(0));
    assert_eq!(deque.pop(), Some(2));
    assert_eq!(deque.size(), 1);
    assert_eq!(
        FixedDeque::<i32>::new(0).err().unwrap().0,
        "mnemonist/fixed-deque: `capacity` should be a positive number."
    );
}

#[test]
fn circular_buffer_overwrites_oldest_when_full() {
    let mut buffer = CircularBuffer::new(3).unwrap();
    assert_eq!(buffer.push(1), 1);
    assert_eq!(buffer.push(2), 2);
    assert_eq!(buffer.push(3), 3);
    assert_eq!(buffer.push(4), 3);
    assert_eq!(buffer.to_array(), vec![2, 3, 4]);
    assert_eq!(buffer.unshift(0), 3);
    assert_eq!(buffer.to_array(), vec![0, 2, 3]);
    assert_eq!(buffer.shift(), Some(0));
    assert_eq!(buffer.pop(), Some(3));
    assert_eq!(buffer.values(), vec![&2]);
    assert_eq!(
        CircularBuffer::<i32>::new(0).err().unwrap().0,
        "mnemonist/circular-buffer: `capacity` should be a positive number."
    );
}

#[test]
fn linked_list_keeps_order_at_both_ends() {
    let mut list = LinkedList::new();
    assert_eq!(list.push(2), 1);
    assert_eq!(list.unshift(1), 2);
    assert_eq!(list.push(3), 3);
    assert_eq!(list.first(), Some(&1));
    assert_eq!(list.last(), Some(&3));
    assert_eq!(list.shift(), Some(1));
    assert_eq!(list.to_array(), vec![2, 3]);
    let list = LinkedList::from_iter(vec!["x", "y"]);
    assert_eq!(list.entries(), vec![(0, &"x"), (1, &"y")]);
}

#[test]
fn vector_grows_and_resizes() {
    let mut vector = Vector::new();
    assert_eq!(vector.push(5), 1);
    assert_eq!(vector.push(6), 2);
    assert!(vector.set(1, 7));
    assert!(!vector.set(2, 8));
    assert_eq!(vector.get(1), Some(&7));
    assert_eq!(vector.pop(), Some(7));
    vector.resize(3, 0);
    assert_eq!(vector.to_array(), vec![5, 0, 0]);
    assert_eq!(vector.length(), 3);
    let filled = Vector::with_initial_length(2, 'z');
    assert_eq!(filled.values(), vec![&'z', &'z']);
}
