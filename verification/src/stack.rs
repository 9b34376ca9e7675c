//! A last-in first-out stack.
use vstd::prelude::*;

verus! {

/// A stack; its view lists the items from the bottom to the top.
#[derive(Debug, Clone)]
pub struct Stack<T> {
    items: Vec<T>,
    size: usize,
}

impl<T> View for Stack<T> {
    type V = Seq<T>;

    closed spec fn view(&self) -> Seq<T> {
        self.items@
    }
}

impl<T> Stack<T> {
    /// The size is the number of items.
    pub closed spec fn wf(&self) -> bool {
        self.size == self.items@.len()
    }

    /// An empty stack.
    pub fn new() -> (r: Self)
        ensures
            r.wf(),
            r@ == Seq::<T>::empty(),
    {
        Stack { items: Vec::new(), size: 0 }
    }

    /// Removes every item.
    pub fn clear(&mut self)
        ensures
            final(self).wf(),
            final(self)@ == Seq::<T>::empty(),
    {
        self.items.clear();
        self.size = 0;
    }

    /// Puts `item` on top and returns the new size.
    pub fn push(&mut self, item: T) -> (r: usize)
        requires
            old(self).wf(),
            old(self)@.len() < usize::MAX,
        ensures
            final(self).wf(),
            final(self)@ == old(self)@.push(item),
            r == final(self)@.len(),
    {
        self.items.push(item);
        self.size = self.size + 1;
        self.size
    }

    /// Takes the top item off, if there is one.
    pub fn pop(&mut self) -> (r: Option<T>)
        requires
            old(self).wf(),
        ensures
            final(self).wf(),
            old(self)@.len() == 0 ==> r is None && final(self)@ == old(self)@,
            old(self)@.len() > 0 ==> r == Some(old(self)@.last()) && final(self)@ == old(self)@.drop_last(),
    {
        if self.size == 0 {
            return None;
        }
        self.size = self.size - 1;
        self.items.pop()
    }

    /// The top item, if there is one.
    pub fn peek(&self) -> (r: Option<&T>)
        requires
            self.wf(),
        ensures
            self@.len() == 0 ==> r is None,
            self@.len() > 0 ==> r == Some(&self@.last()),
    {
        if self.size == 0 {
            return None;
        }
        Some(&self.items[self.size - 1])
    }

    /// The number of items.
    pub fn size(&self) -> (r: usize)
        requires
            self.wf(),
        ensures
            r == self@.len(),
    {
        self.size
    }

    /// Calls `callback` on every item from the top down, with its rank.
    pub fn for_each<F: Fn(&T, usize)>(&self, callback: F)
        requires
            forall|x: &T, i: usize| #[trigger] call_requires(callback, (x, i)),
    {
        let n = self.items.len();
        let mut i: usize = 0;
        while i < n
            invariant
                n == self.items@.len(),
                forall|x: &T, j: usize| #[trigger] call_requires(callback, (x, j)),
            decreases n - i,
        {
            callback(&self.items[n - 1 - i], i);
            i = i + 1;
        }
    }

    /// The items from the top down.
    pub fn values(&self) -> (r: Vec<&T>)
        ensures
            r@.len() == self@.len(),
            forall|i: int| 0 <= i < r@.len() ==> *r@[i] == self@[self@.len() - 1 - i],
    {
        let n = self.items.len();
        let mut out: Vec<&T> = Vec::new();
        let mut i: usize = 0;
        while i < n
            invariant
                n == self.items@.len(),
                i <= n,
                out@.len() == i,
                forall|k: int| 0 <= k < i ==> *out@[k] == self.items@[n - 1 - k],
            decreases n - i,
        {
            out.push(&self.items[n - 1 - i]);
            i = i + 1;
        }
        out
    }

    /// The items from the top down, each with its rank.
    pub fn entries(&self) -> (r: Vec<(usize, &T)>)
        ensures
            r@.len() == self@.len(),
            forall|i: int| 0 <= i < r@.len() ==> r@[i].0 == i && *r@[i].1 == self@[self@.len() - 1 - i],
    {
        let n = self.items.len();
        let mut out: Vec<(usize, &T)> = Vec::new();
        let mut i: usize = 0;
        while i < n
            invariant
                n == self.items@.len(),
                i <= n,
                out@.len() == i,
                forall|k: int| 0 <= k < i ==> out@[k].0 == k && *out@[k].1 == self.items@[n - 1 - k],
            decreases n - i,
        {
            out.push((i, &self.items[n - 1 - i]));
            i = i + 1;
        }
        out
    }

    /// A stack of `items`, pushed in order, so that the last is on top.
    pub fn from_iter(items: Vec<T>) -> (r: Self)
        ensures
            r.wf(),
            r@ == items@,
    {
        let size = items.len();
        Stack { items, size }
    }

    /// A stack of `items`, the last on top.
    pub fn of(items: Vec<T>) -> (r: Self)
        ensures
            r.wf(),
            r@ == items@,
    {
        Self::from_iter(items)
    }
}

impl<T: Clone> Stack<T> {
    /// Copies of the items from the top down.
    pub fn to_array(&self) -> (r: Vec<T>)
        ensures
            r@.len() == self@.len(),
            forall|i: int| 0 <= i < r@.len() ==> cloned(self@[self@.len() - 1 - i], #[trigger] r@[i]),
    {
        let n = self.items.len();
        let mut out: Vec<T> = Vec::new();
        let mut i: usize = 0;
        while i < n
            invariant
                n == self.items@.len(),
                i <= n,
                out@.len() == i,
                forall|k: int| 0 <= k < i ==> cloned(self.items@[n - 1 - k], #[trigger] out@[k]),
            decreases n - i,
        {
            out.push(self.items[n - 1 - i].clone());
            i = i + 1;
        }
        out
    }
}

} // verus!
