//! A first-in first-out queue that compacts its storage as it drains.
use vstd::prelude::*;

verus! {

/// A queue; its view lists the items from the front to the back. Dequeued
/// items stay in storage before `offset` until half the storage is spent.
#[derive(Debug, Clone)]
pub struct Queue<T> {
    items: Vec<T>,
    offset: usize,
    size: usize,
}

impl<T> View for Queue<T> {
    type V = Seq<T>;

    closed spec fn view(&self) -> Seq<T> {
        self.items@.subrange(self.offset as int, self.items@.len() as int)
    }
}

impl<T> Queue<T> {
    /// The number of slots in storage, dequeued ones included.
    pub closed spec fn storage_len(&self) -> nat {
        self.items@.len()
    }

    /// The offset lies in the storage and the size counts what follows it.
    pub closed spec fn wf(&self) -> bool {
        &&& self.offset <= self.items@.len()
        &&& self.size == self.items@.len() - self.offset
    }

    /// An empty queue.
    pub fn new() -> (r: Self)
        ensures
            r.wf(),
            r@ == Seq::<T>::empty(),
    {
        Queue { items: Vec::new(), offset: 0, size: 0 }
    }

    /// Removes every item.
    pub fn clear(&mut self)
        ensures
            final(self).wf(),
            final(self)@ == Seq::<T>::empty(),
    {
        self.items.clear();
        self.offset = 0;
        self.size = 0;
    }

    /// Adds `item` at the back and returns the new size.
    pub fn enqueue(&mut self, item: T) -> (r: usize)
        requires
            old(self).wf(),
            old(self).storage_len() < usize::MAX,
        ensures
            final(self).wf(),
            final(self)@ == old(self)@.push(item),
            r == final(self)@.len(),
    {
        self.items.push(item);
        self.size = self.size + 1;
        proof {
            assert(self.items@.subrange(self.offset as int, self.items@.len() as int) =~= old(self)@.push(item));
        }
        self.size
    }

    /// The number of items.
    pub fn size(&self) -> (r: usize)
        requires
            self.wf(),
        ensures
            r == self@.len(),
    {
        self.size
    }

    /// The front item, if there is one.
    pub fn peek(&self) -> (r: Option<&T>)
        requires
            self.wf(),
        ensures
            self@.len() == 0 ==> r is None,
            self@.len() > 0 ==> r == Some(&self@[0]),
    {
        if self.size == 0 {
            return None;
        }
        Some(&self.items[self.offset])
    }

    /// Calls `callback` on every item from the front, with its rank.
    pub fn for_each<F: Fn(&T, usize)>(&self, callback: F)
        requires
            forall|x: &T, i: usize| #[trigger] call_requires(callback, (x, i)),
    {
        let n = self.items.len();
        let mut i: usize = self.offset;
        let mut j: usize = 0;
        while i < n
            invariant
                n == self.items@.len(),
                j <= i,
                forall|x: &T, k: usize| #[trigger] call_requires(callback, (x, k)),
            decreases n - i,
        {
            callback(&self.items[i], j);
            i = i + 1;
            j = j + 1;
        }
    }

    /// The items from the front.
    pub fn values(&self) -> (r: Vec<&T>)
        requires
            self.wf(),
        ensures
            r@.len() == self@.len(),
            forall|i: int| 0 <= i < r@.len() ==> *r@[i] == self@[i],
    {
        let n = self.items.len();
        let mut out: Vec<&T> = Vec::new();
        let mut i: usize = self.offset;
        while i < n
            invariant
                self.wf(),
                n == self.items@.len(),
                self.offset <= i <= n,
                out@.len() == i - self.offset,
                forall|k: int| 0 <= k < out@.len() ==> *out@[k] == self.items@[self.offset + k],
            decreases n - i,
        {
            out.push(&self.items[i]);
            i = i + 1;
        }
        out
    }

    /// The items from the front, each with its rank.
    pub fn entries(&self) -> (r: Vec<(usize, &T)>)
        requires
            self.wf(),
        ensures
            r@.len() == self@.len(),
            forall|i: int| 0 <= i < r@.len() ==> r@[i].0 == i && *r@[i].1 == self@[i],
    {
        let n = self.items.len();
        let mut out: Vec<(usize, &T)> = Vec::new();
        let mut i: usize = self.offset;
        while i < n
            invariant
                self.wf(),
                n == self.items@.len(),
                self.offset <= i <= n,
                out@.len() == i - self.offset,
                forall|k: int| 0 <= k < out@.len() ==> out@[k].0 == k && *out@[k].1 == self.items@[self.offset + k],
            decreases n - i,
        {
            out.push((i - self.offset, &self.items[i]));
            i = i + 1;
        }
        out
    }

    /// A queue of `items`, the first at the front.
    pub fn from_iter(items: Vec<T>) -> (r: Self)
        ensures
            r.wf(),
            r@ == items@,
    {
        let size = items.len();
        let r = Queue { items, offset: 0, size };
        proof {
            assert(r.items@.subrange(0, r.items@.len() as int) =~= items@);
        }
        r
    }

    /// A queue of `items`, the first at the front.
    pub fn of(items: Vec<T>) -> (r: Self)
        ensures
            r.wf(),
            r@ == items@,
    {
        Self::from_iter(items)
    }
}

impl<T: Clone> Queue<T> {
    /// Takes the front item off, if there is one, as a copy; the storage
    /// before the front is released once it makes up half of it.
    pub fn dequeue(&mut self) -> (r: Option<T>)
        requires
            old(self).wf(),
        ensures
            final(self).wf(),
            old(self)@.len() == 0 ==> r is None && final(self)@ == old(self)@,
            old(self)@.len() > 0 ==> (r matches Some(x) && cloned(old(self)@[0], x)) && final(self)@ == old(self)@.drop_first(),
    {
        if self.size == 0 {
            return None;
        }
        let item = self.items[self.offset].clone();
        proof {
            assert(self.items@.len() == self.items.len());
        }
        self.offset = self.offset + 1;
        if self.offset >= self.items.len() - self.offset {
            let rest = self.items.split_off(self.offset);
            self.items = rest;
            self.offset = 0;
        }
        self.size = self.size - 1;
        proof {
            assert(self@ =~= old(self)@.drop_first());
        }
        Some(item)
    }

    /// Copies of the items from the front.
    pub fn to_array(&self) -> (r: Vec<T>)
        requires
            self.wf(),
        ensures
            r@.len() == self@.len(),
            forall|i: int| 0 <= i < r@.len() ==> cloned(self@[i], #[trigger] r@[i]),
    {
        let n = self.items.len();
        let mut out: Vec<T> = Vec::new();
        let mut i: usize = self.offset;
        while i < n
            invariant
                self.wf(),
                n == self.items@.len(),
                self.offset <= i <= n,
                out@.len() == i - self.offset,
                forall|k: int| 0 <= k < out@.len() ==> cloned(self.items@[self.offset + k], #[trigger] out@[k]),
            decreases n - i,
        {
            out.push(self.items[i].clone());
            i = i + 1;
        }
        out
    }
}

} // verus!
