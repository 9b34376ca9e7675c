//! A ring buffer of fixed capacity that overwrites the item at the other
//! end when it is full.
use vstd::prelude::*;
use crate::fixed_deque::{ring, ring_items, lemma_ring_wrap, FixedDequeError};

verus! {

/// A ring of `capacity` slots holding at most `capacity` items, where an
/// item added to a full buffer overwrites the one at the other end; the
/// slots outside the window may still hold items left by `clear`.
#[derive(Debug, Clone)]
pub struct CircularBuffer<T> {
    capacity: usize,
    items: Vec<Option<T>>,
    start: usize,
    size: usize,
}

impl<T> View for CircularBuffer<T> {
    type V = Seq<T>;

    /// The items from the front to the back.
    closed spec fn view(&self) -> Seq<T> {
        ring_items(self.items@, self.start as int, self.size as int)
    }
}

impl<T> CircularBuffer<T> {
    /// Every slot of the ring.
    pub closed spec fn slots(&self) -> Seq<Option<T>> {
        self.items@
    }

    /// The slot of the front item.
    pub closed spec fn front(&self) -> nat {
        self.start as nat
    }

    /// The capacity.
    pub closed spec fn cap(&self) -> nat {
        self.capacity as nat
    }

    /// One slot per unit of capacity, the window filled.
    pub closed spec fn wf(&self) -> bool {
        &&& 0 < self.capacity < usize::MAX / 2
        &&& self.items@.len() == self.capacity
        &&& self.start < self.capacity
        &&& self.size <= self.capacity
        &&& forall|i: int| 0 <= i < self.size ==> #[trigger] self.items@[ring(self.start as int, i, self.capacity as int)] is Some
    }

    /// An empty buffer of `capacity` slots; a capacity of 0 is an error.
    pub fn new(capacity: usize) -> (r: Result<Self, FixedDequeError>)
        requires
            capacity < usize::MAX / 2,
        ensures
            capacity == 0 <==> r is Err,
            r matches Err(e) ==> e.0@ == "mnemonist/circular-buffer: `capacity` should be a positive number."@,
            r matches Ok(d) ==> d.wf() && d@ == Seq::<T>::empty() && d.cap() == capacity && d.front() == 0
                && d.slots() == Seq::new(capacity as nat, |i: int| None::<T>),
    {
        if capacity == 0 {
            return Err(FixedDequeError("mnemonist/circular-buffer: `capacity` should be a positive number.".to_string()));
        }
        let mut items: Vec<Option<T>> = Vec::new();
        let mut i: usize = 0;
        while i < capacity
            invariant
                i <= capacity,
                items@ == Seq::new(i as nat, |k: int| None::<T>),
            decreases capacity - i,
        {
            items.push(None);
            i = i + 1;
            proof {
                assert(items@ =~= Seq::new(i as nat, |k: int| None::<T>));
            }
        }
        let r = CircularBuffer { capacity, items, start: 0, size: 0 };
        proof {
            assert(r@ =~= Seq::<T>::empty());
        }
        Ok(r)
    }

    /// The capacity.
    pub fn capacity(&self) -> (r: usize)
        ensures
            r == self.cap(),
    {
        self.capacity
    }

    /// The number of items.
    pub fn size(&self) -> (r: usize)
        requires
            self.wf(),
        ensures
            r == self@.len(),
    {
        self.size
    }

    /// The slot of the front item.
    pub fn start(&self) -> (r: usize)
        ensures
            r == self.front(),
    {
        self.start
    }

    /// Forgets every item; the slots keep their contents.
    pub fn clear(&mut self)
        requires
            old(self).wf(),
        ensures
            final(self).wf(),
            final(self)@ == Seq::<T>::empty(),
            final(self).slots() == old(self).slots(),
            final(self).cap() == old(self).cap(),
            final(self).front() == 0,
    {
        self.start = 0;
        self.size = 0;
        proof {
            assert(self@ =~= Seq::<T>::empty());
        }
    }

    /// The slot of the back item.
    fn tail_index(&self) -> (r: usize)
        requires
            self.wf(),
            self.size > 0,
        ensures
            r == ring(self.start as int, self.size - 1, self.capacity as int),
            r < self.capacity,
    {
        proof {
            lemma_ring_wrap(self.start as int, self.size - 1, self.capacity as int);
        }
        let mut index = self.start + self.size - 1;
        if index >= self.capacity {
            index = index - self.capacity;
        }
        index
    }

    /// The slot after the back item.
    fn push_index(&self) -> (r: usize)
        requires
            self.wf(),
        ensures
            r == ring(self.start as int, self.size as int, self.capacity as int),
            r < self.capacity,
    {
        proof {
            lemma_ring_wrap(self.start as int, self.size as int, self.capacity as int);
        }
        let mut index = self.start + self.size;
        if index >= self.capacity {
            index = index - self.capacity;
        }
        index
    }

    /// Adds `item` at the back and returns the new size; on a full buffer
    /// it takes the slot of the front item, which is dropped.
    pub fn push(&mut self, item: T) -> (r: usize)
        requires
            old(self).wf(),
        ensures
            final(self).wf(),
            final(self).cap() == old(self).cap(),
            r == final(self)@.len(),
            final(self).slots() == old(self).slots().update(
                ring(old(self).front() as int, old(self)@.len() as int, old(self).cap() as int),
                Some(item),
            ),
            old(self)@.len() < old(self).cap() ==> final(self)@ == old(self)@.push(item)
                && final(self).front() == old(self).front(),
            old(self)@.len() == old(self).cap() ==> final(self)@ == old(self)@.drop_first().push(item)
                && final(self).front() == (if old(self).front() + 1 == old(self).cap() { 0 } else { old(self).front() + 1 }),
    {
        let index = self.push_index();
        self.items.set(index, Some(item));
        let ghost c = self.capacity as int;
        if self.size == self.capacity {
            let next_start = index + 1;
            if next_start >= self.capacity {
                self.start = 0;
            } else {
                self.start = next_start;
            }
            proof {
                let s0 = old(self).start as int;
                lemma_ring_wrap(s0, c, c);
                assert(index == s0);
                assert forall|k: int| 0 <= k < c implies ring(self.start as int, k, c) == ring(s0, k + 1, c) by {
                    lemma_ring_wrap(self.start as int, k, c);
                    lemma_ring_wrap(s0, k + 1, c);
                }
                assert forall|k: int| 0 <= k < c implies #[trigger] self.items@[ring(self.start as int, k, c)] is Some by {
                    lemma_ring_wrap(s0, k + 1, c);
                    if k + 1 < c {
                        lemma_ring_wrap(s0, k + 1, c);
                    }
                }
                assert(self@ =~= old(self)@.drop_first().push(item)) by {
                    assert forall|k: int| 0 <= k < c implies self@[k] == old(self)@.drop_first().push(item)[k] by {
                        lemma_ring_wrap(s0, k + 1, c);
                    }
                }
            }
            return self.size;
        }
        self.size = self.size + 1;
        proof {
            let s0 = old(self).size as int;
            lemma_ring_wrap(self.start as int, s0, c);
            assert forall|k: int| 0 <= k < s0 implies #[trigger] self@[k] == old(self)@[k] by {
                lemma_ring_wrap(self.start as int, k, c);
            }
            assert(self@ =~= old(self)@.push(item));
        }
        self.size
    }

    /// Slots of different window positions differ.
    proof fn lemma_window_distinct(&self, n: int)
        requires
            0 < self.capacity,
            self.start < self.capacity,
            n <= self.capacity,
        ensures
            forall|i: int, j: int|
                0 <= i < j < n ==> ring(self.start as int, i, self.capacity as int) != ring(
                    self.start as int,
                    j,
                    self.capacity as int,
                ),
    {
        assert forall|i: int, j: int| 0 <= i < j < n implies ring(self.start as int, i, self.capacity as int) != ring(
            self.start as int,
            j,
            self.capacity as int,
        ) by {
            lemma_ring_wrap(self.start as int, i, self.capacity as int);
            lemma_ring_wrap(self.start as int, j, self.capacity as int);
        }
    }

    /// Adds `item` at the front and returns the new size; on a full buffer
    /// it takes the slot of the back item, which is dropped.
    pub fn unshift(&mut self, item: T) -> (r: usize)
        requires
            old(self).wf(),
        ensures
            final(self).wf(),
            final(self).cap() == old(self).cap(),
            r == final(self)@.len(),
            final(self).front() == (if old(self).front() == 0 { old(self).cap() - 1 } else { old(self).front() - 1 }),
            final(self).slots() == old(self).slots().update(final(self).front() as int, Some(item)),
            old(self)@.len() < old(self).cap() ==> final(self)@ == seq![item] + old(self)@,
            old(self)@.len() == old(self).cap() ==> final(self)@ == seq![item] + old(self)@.drop_last(),
    {
        let index = if self.start == 0 {
            self.capacity - 1
        } else {
            self.start - 1
        };
        self.items.set(index, Some(item));
        let full = self.size == self.capacity;
        self.start = index;
        if !full {
            self.size = self.size + 1;
        }
        proof {
            let c = self.capacity as int;
            assert forall|i: int| 0 <= i < self.size implies ring(index as int, i, c) == if i == 0 {
                index as int
            } else {
                ring(old(self).start as int, i - 1, c)
            } by {
                lemma_ring_wrap(index as int, i, c);
                if i > 0 {
                    lemma_ring_wrap(old(self).start as int, i - 1, c);
                }
            }
            assert forall|i: int| 0 <= i < self.size implies #[trigger] self.items@[ring(self.start as int, i, c)] is Some by {
                if i > 0 {
                    lemma_ring_wrap(old(self).start as int, i - 1, c);
                }
            }
            let expected = if full { seq![item] + old(self)@.drop_last() } else { seq![item] + old(self)@ };
            assert(self@ =~= expected) by {
                assert forall|i: int| 0 <= i < self.size implies self@[i] == expected[i] by {
                    if i > 0 {
                        lemma_ring_wrap(old(self).start as int, i - 1, c);
                    }
                }
            }
        }
        self.size
    }

    /// Takes the back item off, if there is one, emptying its slot.
    pub fn pop(&mut self) -> (r: Option<T>)
        requires
            old(self).wf(),
        ensures
            final(self).wf(),
            final(self).cap() == old(self).cap(),
            final(self).front() == old(self).front(),
            old(self)@.len() == 0 ==> r is None && final(self)@ == old(self)@ && final(self).slots() == old(self).slots(),
            old(self)@.len() > 0 ==> r == Some(old(self)@.last()) && final(self)@ == old(self)@.drop_last()
                && final(self).slots() == old(self).slots().update(
                ring(old(self).front() as int, old(self)@.len() - 1, old(self).cap() as int),
                None,
            ),
    {
        if self.size == 0 {
            return None;
        }
        self.size = self.size - 1;
        proof {
            lemma_ring_wrap(self.start as int, self.size as int, self.capacity as int);
        }
        let mut index = self.start + self.size;
        if index >= self.capacity {
            index = index - self.capacity;
        }
        let r = self.items[index].take();
        proof {
            self.lemma_window_distinct(old(self).size as int);
            assert(self.items@ =~= old(self).items@.update(index as int, None));
            assert(self@ =~= old(self)@.drop_last());
        }
        r
    }

    /// Takes the front item off, if there is one, emptying its slot.
    pub fn shift(&mut self) -> (r: Option<T>)
        requires
            old(self).wf(),
        ensures
            final(self).wf(),
            final(self).cap() == old(self).cap(),
            old(self)@.len() == 0 ==> r is None && final(self)@ == old(self)@ && final(self).slots() == old(self).slots()
                && final(self).front() == old(self).front(),
            old(self)@.len() > 0 ==> r == Some(old(self)@[0]) && final(self)@ == old(self)@.drop_first()
                && final(self).slots() == old(self).slots().update(old(self).front() as int, None)
                && final(self).front() == (if old(self).front() + 1 == old(self).cap() { 0 } else { old(self).front() + 1 }),
    {
        if self.size == 0 {
            return None;
        }
        let index = self.start;
        self.size = self.size - 1;
        self.start = self.start + 1;
        if self.start == self.capacity {
            self.start = 0;
        }
        let r = self.items[index].take();
        proof {
            let c = self.capacity as int;
            assert forall|i: int| 0 <= i < self.size implies ring(self.start as int, i, c) == ring(index as int, i + 1, c) by {
                lemma_ring_wrap(self.start as int, i, c);
                lemma_ring_wrap(index as int, i + 1, c);
            }
            assert(ring(index as int, 0, c) == index) by {
                lemma_ring_wrap(index as int, 0, c);
            }
            old(self).lemma_window_distinct(old(self).size as int);
            assert(self.items@ =~= old(self).items@.update(index as int, None));
            assert forall|i: int| 0 <= i < self.size implies #[trigger] self.items@[ring(self.start as int, i, c)] is Some by {
                assert(ring(index as int, i + 1, c) != ring(index as int, 0, c));
            }
            assert(self@ =~= old(self)@.drop_first()) by {
                assert forall|i: int| 0 <= i < self.size implies self@[i] == old(self)@.drop_first()[i] by {
                    assert(ring(index as int, i + 1, c) != ring(index as int, 0, c));
                }
            }
        }
        r
    }

    /// The front item, if there is one.
    pub fn peek_first(&self) -> (r: Option<&T>)
        requires
            self.wf(),
        ensures
            self@.len() == 0 ==> r is None,
            self@.len() > 0 ==> r == Some(&self@[0]),
    {
        if self.size == 0 {
            return None;
        }
        proof {
            lemma_ring_wrap(self.start as int, 0, self.capacity as int);
            assert(self.items@[ring(self.start as int, 0, self.capacity as int)] is Some);
        }
        self.items[self.start].as_ref()
    }

    /// The back item, if there is one.
    pub fn peek_last(&self) -> (r: Option<&T>)
        requires
            self.wf(),
        ensures
            self@.len() == 0 ==> r is None,
            self@.len() > 0 ==> r == Some(&self@.last()),
    {
        if self.size == 0 {
            return None;
        }
        let i = self.tail_index();
        proof {
            assert(self.items@[ring(self.start as int, self.size - 1, self.capacity as int)] is Some);
        }
        self.items[i].as_ref()
    }

    /// The slot `index` places after the front, read as it is, for any
    /// index below the capacity of a nonempty buffer.
    pub fn get(&self, index: usize) -> (r: Option<&T>)
        requires
            self.wf(),
        ensures
            self@.len() == 0 || index >= self.cap() ==> r is None,
            self@.len() > 0 && index < self.cap() ==> r == match self.slots()[ring(self.front() as int, index as int, self.cap() as int)] {
                Some(x) => Some(&x),
                None => None,
            },
    {
        if self.size == 0 || index >= self.capacity {
            return None;
        }
        proof {
            lemma_ring_wrap(self.start as int, index as int, self.capacity as int);
        }
        let mut idx = self.start + index;
        if idx >= self.capacity {
            idx = idx - self.capacity;
        }
        self.items[idx].as_ref()
    }

    /// Calls `callback` on every item from the front, with its rank.
    pub fn for_each<F: Fn(&T, usize)>(&self, callback: F)
        requires
            self.wf(),
            forall|x: &T, i: usize| #[trigger] call_requires(callback, (x, i)),
    {
        let c = self.capacity;
        let l = self.size;
        let mut i = self.start;
        let mut j: usize = 0;
        while j < l
            invariant
                self.wf(),
                c == self.capacity,
                l == self.size,
                i < c,
                j <= l,
                forall|x: &T, k: usize| #[trigger] call_requires(callback, (x, k)),
            decreases l - j,
        {
            match &self.items[i] {
                Some(item) => {
                    callback(item, j);
                },
                None => {},
            }
            i = i + 1;
            j = j + 1;
            if i == c {
                i = 0;
            }
        }
    }

    /// The items from the front.
    pub fn values(&self) -> (r: Vec<&T>)
        requires
            self.wf(),
        ensures
            r@.len() == self@.len(),
            forall|k: int| 0 <= k < r@.len() ==> *r@[k] == self@[k],
    {
        let c = self.capacity;
        let l = self.size;
        let mut out: Vec<&T> = Vec::new();
        let mut i = self.start;
        let mut j: usize = 0;
        proof {
            lemma_ring_wrap(self.start as int, 0, c as int);
        }
        while j < l
            invariant
                self.wf(),
                c == self.capacity,
                l == self.size,
                j <= l,
                i == ring(self.start as int, j as int, c as int),
                out@.len() == j,
                forall|k: int| 0 <= k < j ==> *out@[k] == self@[k],
            decreases l - j,
        {
            proof {
                lemma_ring_wrap(self.start as int, j as int, c as int);
                lemma_ring_wrap(self.start as int, j + 1, c as int);
                assert(self.items@[ring(self.start as int, j as int, c as int)] is Some);
            }
            match self.items[i].as_ref() {
                Some(item) => {
                    out.push(item);
                },
                None => {},
            }
            i = i + 1;
            j = j + 1;
            if i == c {
                i = 0;
            }
        }
        out
    }

    /// The items from the front, each with its rank.
    pub fn entries(&self) -> (r: Vec<(usize, &T)>)
        requires
            self.wf(),
        ensures
            r@.len() == self@.len(),
            forall|k: int| 0 <= k < r@.len() ==> r@[k].0 == k && *r@[k].1 == self@[k],
    {
        let c = self.capacity;
        let l = self.size;
        let mut out: Vec<(usize, &T)> = Vec::new();
        let mut i = self.start;
        let mut j: usize = 0;
        proof {
            lemma_ring_wrap(self.start as int, 0, c as int);
        }
        while j < l
            invariant
                self.wf(),
                c == self.capacity,
                l == self.size,
                j <= l,
                i == ring(self.start as int, j as int, c as int),
                out@.len() == j,
                forall|k: int| 0 <= k < j ==> #[trigger] out@[k].0 == k,
                forall|k: int| 0 <= k < j ==> *(#[trigger] out@[k]).1 == self@[k],
            decreases l - j,
        {
            proof {
                lemma_ring_wrap(self.start as int, j as int, c as int);
                lemma_ring_wrap(self.start as int, j + 1, c as int);
                assert(self.items@[ring(self.start as int, j as int, c as int)] is Some);
            }
            match self.items[i].as_ref() {
                Some(item) => {
                    out.push((j, item));
                },
                None => {},
            }
            i = i + 1;
            j = j + 1;
            if i == c {
                i = 0;
            }
        }
        out
    }

    /// A buffer of `items`, the first at the front, with the given capacity
    /// or, by default, as many slots as items; no capacity at all is an
    /// error.
    pub fn from_iter(items: Vec<T>, capacity: Option<usize>) -> (r: Result<Self, FixedDequeError>)
        requires
            capacity matches Some(c) ==> items@.len() <= c && c < usize::MAX / 2,
            capacity is None ==> items@.len() < usize::MAX / 2,
        ensures
            ({
                let cap = match capacity {
                    Some(c) => c as int,
                    None => items@.len() as int,
                };
                &&& cap == 0 <==> r is Err
                &&& r matches Err(e) ==> e.0@
                    == "mnemonist/circular-buffer.from: could not guess iterable length. Please provide desired capacity as last argument."@
                &&& r matches Ok(d) ==> d.wf() && d@ == items@ && d.cap() == cap && d.front() == 0
            }),
    {
        let cap = match capacity {
            Some(c) => c,
            None => items.len(),
        };
        if cap == 0 {
            return Err(
                FixedDequeError(
                    "mnemonist/circular-buffer.from: could not guess iterable length. Please provide desired capacity as last argument.".to_string(),
                ),
            );
        }
        let mut buffer: CircularBuffer<T> = match Self::new(cap) {
            Ok(d) => d,
            Err(e) => {
                return Err(e);
            },
        };
        let n = items.len();
        let mut rest = items;
        let ghost all = rest@;
        let mut tail: Vec<T> = Vec::new();
        while rest.len() > 0
            invariant
                rest@ + tail@.reverse() == all,
            decreases rest@.len(),
        {
            let v = rest.pop().unwrap();
            tail.push(v);
            proof {
                assert(rest@ + tail@.reverse() =~= all);
            }
        }
        let mut i: usize = 0;
        proof {
            assert(buffer@.len() == buffer.size);
            assert(tail@.reverse() =~= all);
            assert(all.subrange(0, 0) =~= Seq::<T>::empty());
        }
        while tail.len() > 0
            invariant
                buffer.wf(),
                buffer.capacity == cap,
                buffer.start == 0,
                n == all.len(),
                n <= cap,
                i == buffer.size,
                i + tail@.len() == n,
                tail@.reverse() == all.subrange(i as int, n as int),
                buffer@ == all.subrange(0, i as int),
            decreases tail@.len(),
        {
            let ghost t0 = tail@;
            let v = tail.pop().unwrap();
            proof {
                assert(t0.reverse()[0] == t0[t0.len() - 1]);
                assert(all.subrange(i as int, n as int)[0] == all[i as int]);
                assert(tail@ =~= t0.drop_last());
                assert(tail@.reverse() =~= t0.reverse().drop_first());
            }
            buffer.items.set(i, Some(v));
            buffer.size = i + 1;
            i = i + 1;
            proof {
                assert forall|k: int| 0 <= k < i implies ring(0, k, cap as int) == k by {
                    lemma_ring_wrap(0, k, cap as int);
                }
                assert(buffer@ =~= all.subrange(0, i as int));
            }
        }
        proof {
            assert(all.subrange(0, n as int) =~= all);
        }
        Ok(buffer)
    }
}

impl<T: Clone> CircularBuffer<T> {
    /// Copies of the items from the front.
    pub fn to_array(&self) -> (r: Vec<T>)
        requires
            self.wf(),
        ensures
            r@.len() == self@.len(),
            forall|k: int| 0 <= k < r@.len() ==> cloned(self@[k], #[trigger] r@[k]),
    {
        let c = self.capacity;
        let l = self.size;
        let mut array: Vec<T> = Vec::new();
        let mut i = self.start;
        let mut j: usize = 0;
        proof {
            lemma_ring_wrap(self.start as int, 0, c as int);
        }
        while j < l
            invariant
                self.wf(),
                c == self.capacity,
                l == self.size,
                j <= l,
                i == ring(self.start as int, j as int, c as int),
                array@.len() == j,
                forall|k: int| 0 <= k < j ==> cloned(self@[k], #[trigger] array@[k]),
            decreases l - j,
        {
            proof {
                lemma_ring_wrap(self.start as int, j as int, c as int);
                lemma_ring_wrap(self.start as int, j + 1, c as int);
                assert(self.items@[ring(self.start as int, j as int, c as int)] is Some);
            }
            match &self.items[i] {
                Some(item) => {
                    array.push(item.clone());
                },
                None => {},
            }
            i = i + 1;
            j = j + 1;
            if i == c {
                i = 0;
            }
        }
        array
    }
}

} // verus!
