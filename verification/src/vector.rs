//! A growable array with explicit control of its capacity.
use vstd::prelude::*;
use vstd::layout::size_of;
use crate::std_wrappers::{vec_capacity, vec_reserve_exact, vec_shrink_to_fit};

verus! {

/// A growable array of items.
#[derive(Debug, Clone)]
pub struct Vector<T> {
    items: Vec<T>,
}

impl<T> View for Vector<T> {
    type V = Seq<T>;

    /// The items, in order.
    closed spec fn view(&self) -> Seq<T> {
        self.items@
    }
}

impl<T> Vector<T> {
    /// An empty array.
    pub fn new() -> (r: Self)
        ensures
            r@ == Seq::<T>::empty(),
    {
        Vector { items: Vec::new() }
    }

    /// An empty array with room for `capacity` items.
    pub fn with_capacity(capacity: usize) -> (r: Self)
        ensures
            r@ == Seq::<T>::empty(),
    {
        Vector { items: Vec::with_capacity(capacity) }
    }

    /// The number of items the array holds without reallocating, never less
    /// than its length.
    pub fn capacity(&self) -> (r: usize)
        ensures
            r >= self@.len(),
    {
        vec_capacity(&self.items)
    }

    /// The number of items.
    pub fn size(&self) -> (r: usize)
        ensures
            r == self@.len(),
    {
        self.items.len()
    }

    /// The number of items.
    pub fn length(&self) -> (r: usize)
        ensures
            r == self@.len(),
    {
        self.size()
    }

    /// Sets the capacity to `new_capacity`, dropping the items beyond it.
    pub fn reallocate(&mut self, new_capacity: usize)
        requires
            new_capacity * size_of::<T>() <= isize::MAX,
        ensures
            final(self)@ == if new_capacity < old(self)@.len() {
                old(self)@.subrange(0, new_capacity as int)
            } else {
                old(self)@
            },
    {
        let current_len = self.items.len();
        if new_capacity < current_len {
            self.items.truncate(new_capacity);
        }
        vec_shrink_to_fit(&mut self.items);
        if new_capacity > vec_capacity(&self.items) {
            let additional = new_capacity - self.items.len();
            vec_reserve_exact(&mut self.items, additional);
        }
    }

    /// Makes room for at least `desired_capacity` items; the items are
    /// unchanged.
    pub fn grow(&mut self, desired_capacity: usize)
        requires
            desired_capacity * size_of::<T>() <= isize::MAX,
        ensures
            final(self)@ == old(self)@,
    {
        if desired_capacity > vec_capacity(&self.items) {
            let additional = desired_capacity - self.items.len();
            vec_reserve_exact(&mut self.items, additional);
        }
    }

    /// Removes every item.
    pub fn clear(&mut self)
        ensures
            final(self)@ == Seq::<T>::empty(),
    {
        self.items.clear();
    }

    /// Adds `value` at the end and returns the new length.
    pub fn push(&mut self, value: T) -> (r: usize)
        ensures
            final(self)@ == old(self)@.push(value),
            r == final(self)@.len(),
    {
        self.items.push(value);
        self.items.len()
    }

    /// Takes the last item off, if any.
    pub fn pop(&mut self) -> (r: Option<T>)
        ensures
            old(self)@.len() == 0 ==> r is None && final(self)@ == old(self)@,
            old(self)@.len() > 0 ==> r == Some(old(self)@.last()) && final(self)@ == old(self)@.drop_last(),
    {
        let r = self.items.pop();
        proof {
            if old(self)@.len() > 0 {
                assert(self.items@ =~= old(self)@.drop_last());
            }
        }
        r
    }

    /// The item at `index`, if there is one.
    pub fn get(&self, index: usize) -> (r: Option<&T>)
        ensures
            index < self@.len() ==> r == Some(&self@[index as int]),
            index >= self@.len() ==> r is None,
    {
        if index < self.items.len() {
            Some(&self.items[index])
        } else {
            None
        }
    }

    /// Replaces the item at `index`; an index past the end changes nothing
    /// and gives `false`.
    pub fn set(&mut self, index: usize, value: T) -> (r: bool)
        ensures
            r == (index < old(self)@.len()),
            r ==> final(self)@ == old(self)@.update(index as int, value),
            !r ==> final(self)@ == old(self)@,
    {
        if index >= self.items.len() {
            return false;
        }
        self.items.set(index, value);
        true
    }

    /// The items, in order.
    pub fn values(&self) -> (r: Vec<&T>)
        ensures
            r@.len() == self@.len(),
            forall|k: int| 0 <= k < r@.len() ==> *r@[k] == self@[k],
    {
        let mut out: Vec<&T> = Vec::new();
        let mut i: usize = 0;
        while i < self.items.len()
            invariant
                i <= self.items@.len(),
                out@.len() == i,
                forall|k: int| 0 <= k < i ==> *out@[k] == self@[k],
            decreases self.items@.len() - i,
        {
            out.push(&self.items[i]);
            i = i + 1;
        }
        out
    }

    /// The items, in order, each with its index.
    pub fn entries(&self) -> (r: Vec<(usize, &T)>)
        ensures
            r@.len() == self@.len(),
            forall|k: int| 0 <= k < r@.len() ==> r@[k].0 == k && *r@[k].1 == self@[k],
    {
        let mut out: Vec<(usize, &T)> = Vec::new();
        let mut i: usize = 0;
        while i < self.items.len()
            invariant
                i <= self.items@.len(),
                out@.len() == i,
                forall|k: int| 0 <= k < i ==> #[trigger] out@[k].0 == k,
                forall|k: int| 0 <= k < i ==> *(#[trigger] out@[k]).1 == self@[k],
            decreases self.items@.len() - i,
        {
            out.push((i, &self.items[i]));
            i = i + 1;
        }
        out
    }

    /// An array of `items`, in order.
    pub fn from_iter(items: Vec<T>) -> (r: Self)
        ensures
            r@ == items@,
    {
        Vector { items }
    }
}

impl<T: Clone> Vector<T> {
    /// An array of `length` copies of `value`.
    pub fn with_initial_length(length: usize, value: T) -> (r: Self)
        ensures
            r@.len() == length,
            forall|k: int| 0 <= k < length ==> cloned(value, #[trigger] r@[k]),
    {
        Vector { items: vec![value; length] }
    }

    /// Truncates to `new_length` items or extends with copies of `value`.
    pub fn resize(&mut self, new_length: usize, value: T)
        ensures
            final(self)@.len() == new_length,
            new_length <= old(self)@.len() ==> final(self)@ == old(self)@.subrange(0, new_length as int),
            new_length > old(self)@.len() ==> final(self)@.subrange(0, old(self)@.len() as int) == old(self)@
                && forall|k: int| old(self)@.len() <= k < new_length ==> cloned(value, #[trigger] final(self)@[k]),
    {
        self.items.resize(new_length, value);
    }

    /// Copies of the items, in order.
    pub fn to_array(&self) -> (r: Vec<T>)
        ensures
            r@.len() == self@.len(),
            forall|k: int| 0 <= k < r@.len() ==> cloned(self@[k], #[trigger] r@[k]),
    {
        self.items.clone()
    }
}

} // verus!
