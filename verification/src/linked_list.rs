//! A list with cheap insertion at both ends and removal at the front.
use vstd::prelude::*;
use std::collections::VecDeque;

verus! {

/// A list of items, first to last.
#[derive(Debug, Clone)]
pub struct LinkedList<T> {
    items: VecDeque<T>,
    size: usize,
}

impl<T> View for LinkedList<T> {
    type V = Seq<T>;

    /// The items, first to last.
    closed spec fn view(&self) -> Seq<T> {
        self.items@
    }
}

impl<T> LinkedList<T> {
    /// The count matches the items.
    pub closed spec fn wf(&self) -> bool {
        self.size == self.items@.len()
    }

    /// An empty list.
    pub fn new() -> (r: Self)
        ensures
            r.wf(),
            r@ == Seq::<T>::empty(),
    {
        LinkedList { items: VecDeque::new(), size: 0 }
    }

    /// Removes every item.
    pub fn clear(&mut self)
        ensures
            final(self).wf(),
            final(self)@ == Seq::<T>::empty(),
    {
        self.items.clear();
        self.size = 0;
    }

    /// The first item, if any.
    pub fn first(&self) -> (r: Option<&T>)
        requires
            self.wf(),
        ensures
            self@.len() == 0 ==> r is None,
            self@.len() > 0 ==> r == Some(&self@[0]),
    {
        if self.size == 0 {
            None
        } else {
            Some(&self.items[0])
        }
    }

    /// The first item, if any.
    pub fn peek(&self) -> (r: Option<&T>)
        requires
            self.wf(),
        ensures
            self@.len() == 0 ==> r is None,
            self@.len() > 0 ==> r == Some(&self@[0]),
    {
        self.first()
    }

    /// The last item, if any.
    pub fn last(&self) -> (r: Option<&T>)
        requires
            self.wf(),
        ensures
            self@.len() == 0 ==> r is None,
            self@.len() > 0 ==> r == Some(&self@.last()),
    {
        if self.size == 0 {
            None
        } else {
            Some(&self.items[self.size - 1])
        }
    }

    /// Adds `item` at the end and returns the new size.
    pub fn push(&mut self, item: T) -> (r: usize)
        requires
            old(self).wf(),
            old(self)@.len() < usize::MAX,
        ensures
            final(self).wf(),
            final(self)@ == old(self)@.push(item),
            r == final(self)@.len(),
    {
        self.items.push_back(item);
        self.size = self.size + 1;
        self.size
    }

    /// Adds `item` at the front and returns the new size.
    pub fn unshift(&mut self, item: T) -> (r: usize)
        requires
            old(self).wf(),
            old(self)@.len() < usize::MAX,
        ensures
            final(self).wf(),
            final(self)@ == seq![item] + old(self)@,
            r == final(self)@.len(),
    {
        self.items.push_front(item);
        self.size = self.size + 1;
        self.size
    }

    /// Takes the first item off, if any.
    pub fn shift(&mut self) -> (r: Option<T>)
        requires
            old(self).wf(),
        ensures
            final(self).wf(),
            old(self)@.len() == 0 ==> r is None && final(self)@ == old(self)@,
            old(self)@.len() > 0 ==> r == Some(old(self)@[0]) && final(self)@ == old(self)@.drop_first(),
    {
        if self.size == 0 {
            return None;
        }
        self.size = self.size - 1;
        let r = self.items.pop_front();
        proof {
            assert(self.items@ =~= old(self)@.drop_first());
        }
        r
    }

    /// The number of items.
    pub fn size(&self) -> (r: usize)
        requires
            self.wf(),
        ensures
            r == self@.len(),
    {
        self.size
    }

    /// Calls `callback` on every item, first to last, with its rank.
    pub fn for_each<F: Fn(&T, usize)>(&self, callback: F)
        requires
            self.wf(),
            forall|x: &T, i: usize| #[trigger] call_requires(callback, (x, i)),
    {
        let mut i: usize = 0;
        while i < self.size
            invariant
                self.wf(),
                forall|x: &T, k: usize| #[trigger] call_requires(callback, (x, k)),
            decreases self.size - i,
        {
            callback(&self.items[i], i);
            i = i + 1;
        }
    }

    /// The items, first to last.
    pub fn values(&self) -> (r: Vec<&T>)
        requires
            self.wf(),
        ensures
            r@.len() == self@.len(),
            forall|k: int| 0 <= k < r@.len() ==> *r@[k] == self@[k],
    {
        let mut out: Vec<&T> = Vec::new();
        let mut i: usize = 0;
        while i < self.size
            invariant
                self.wf(),
                i <= self.size,
                out@.len() == i,
                forall|k: int| 0 <= k < i ==> *out@[k] == self@[k],
            decreases self.size - i,
        {
            out.push(&self.items[i]);
            i = i + 1;
        }
        out
    }

    /// The items, first to last, each with its rank.
    pub fn entries(&self) -> (r: Vec<(usize, &T)>)
        requires
            self.wf(),
        ensures
            r@.len() == self@.len(),
            forall|k: int| 0 <= k < r@.len() ==> r@[k].0 == k && *r@[k].1 == self@[k],
    {
        let mut out: Vec<(usize, &T)> = Vec::new();
        let mut i: usize = 0;
        while i < self.size
            invariant
                self.wf(),
                i <= self.size,
                out@.len() == i,
                forall|k: int| 0 <= k < i ==> #[trigger] out@[k].0 == k,
                forall|k: int| 0 <= k < i ==> *(#[trigger] out@[k]).1 == self@[k],
            decreases self.size - i,
        {
            out.push((i, &self.items[i]));
            i = i + 1;
        }
        out
    }

    /// A list of `items`, in order.
    pub fn from_iter(items: Vec<T>) -> (r: Self)
        ensures
            r.wf(),
            r@ == items@,
    {
        let mut list = Self::new();
        let n = items.len();
        let mut rest = items;
        let ghost all = rest@;
        let mut tail: Vec<T> = Vec::new();
        while rest.len() > 0
            invariant
                rest@ + tail@.reverse() == all,
            decreases rest@.len(),
        {
            let v = rest.pop().unwrap();
            tail.push(v);
            proof {
                assert(rest@ + tail@.reverse() =~= all);
            }
        }
        proof {
            assert(tail@.reverse() =~= all);
        }
        while tail.len() > 0
            invariant
                list.wf(),
                all.len() == n,
                list@ + tail@.reverse() == all,
            decreases tail@.len(),
        {
            let ghost t0 = tail@;
            let v = tail.pop().unwrap();
            proof {
                assert(t0.reverse() =~= seq![v] + tail@.reverse());
                assert(list@.len() + t0.len() == all.len());
            }
            list.push(v);
            proof {
                assert(list@ + tail@.reverse() =~= all);
            }
        }
        proof {
            assert(list@ =~= all);
        }
        list
    }
}

impl<T: Clone> LinkedList<T> {
    /// Copies of the items, first to last.
    pub fn to_array(&self) -> (r: Vec<T>)
        requires
            self.wf(),
        ensures
            r@.len() == self@.len(),
            forall|k: int| 0 <= k < r@.len() ==> cloned(self@[k], #[trigger] r@[k]),
    {
        let mut out: Vec<T> = Vec::new();
        let mut i: usize = 0;
        while i < self.size
            invariant
                self.wf(),
                i <= self.size,
                out@.len() == i,
                forall|k: int| 0 <= k < i ==> cloned(self@[k], #[trigger] out@[k]),
            decreases self.size - i,
        {
            out.push(self.items[i].clone());
            i = i + 1;
        }
        out
    }
}

} // verus!
