//! A stack of fixed capacity over preallocated slots.
use vstd::prelude::*;
use crate::messages::{decimal, with_number};

verus! {

/// The error of a fixed stack, with its message.
#[derive(Debug, Clone, PartialEq, Eq)]
pub struct FixedStackError(pub String);

/// A stack of at most `capacity` items stored in preallocated slots; the
/// slots above the top may still hold items left by `clear`.
#[derive(Debug, Clone)]
pub struct FixedStack<T> {
    capacity: usize,
    items: Vec<Option<T>>,
    size: usize,
}

/// The items held by the first `size` slots.
pub open spec fn filled<T>(slots: Seq<Option<T>>, size: int) -> Seq<T> {
    Seq::new(size as nat, |i: int| slots[i]->0)
}

impl<T> View for FixedStack<T> {
    type V = Seq<T>;

    /// The items from the bottom to the top.
    closed spec fn view(&self) -> Seq<T> {
        filled(self.items@, self.size as int)
    }
}

impl<T> FixedStack<T> {
    /// Every slot, the top ones included.
    pub closed spec fn slots(&self) -> Seq<Option<T>> {
        self.items@
    }

    /// The capacity.
    pub closed spec fn cap(&self) -> nat {
        self.capacity as nat
    }

    /// One slot per unit of capacity, the slots below the top filled.
    pub closed spec fn wf(&self) -> bool {
        &&& self.capacity > 0
        &&& self.items@.len() == self.capacity
        &&& self.size <= self.capacity
        &&& forall|i: int| 0 <= i < self.size ==> self.items@[i] is Some
    }

    /// An empty stack of `capacity` slots; a capacity of 0 is an error.
    pub fn new(capacity: usize) -> (r: Result<Self, FixedStackError>)
        ensures
            capacity == 0 <==> r is Err,
            r matches Err(e) ==> e.0@ == "mnemonist/fixed-stack: `capacity` should be a positive number."@,
            r matches Ok(s) ==> s.wf() && s@ == Seq::<T>::empty() && s.cap() == capacity && s.slots() == Seq::new(
                capacity as nat,
                |i: int| None::<T>,
            ),
    {
        if capacity == 0 {
            return Err(FixedStackError("mnemonist/fixed-stack: `capacity` should be a positive number.".to_string()));
        }
        let mut items: Vec<Option<T>> = Vec::new();
        let mut i: usize = 0;
        while i < capacity
            invariant
                i <= capacity,
                items@ == Seq::new(i as nat, |k: int| None::<T>),
            decreases capacity - i,
        {
            items.push(None);
            i = i + 1;
            proof {
                assert(items@ =~= Seq::new(i as nat, |k: int| None::<T>));
            }
        }
        let r = FixedStack { capacity, items, size: 0 };
        proof {
            assert(r@ =~= Seq::<T>::empty());
        }
        Ok(r)
    }

    /// The capacity.
    pub fn capacity(&self) -> (r: usize)
        ensures
            r == self.cap(),
    {
        self.capacity
    }

    /// The number of items.
    pub fn size(&self) -> (r: usize)
        requires
            self.wf(),
        ensures
            r == self@.len(),
    {
        self.size
    }

    /// Forgets every item; the slots keep their contents.
    pub fn clear(&mut self)
        requires
            old(self).wf(),
        ensures
            final(self).wf(),
            final(self)@ == Seq::<T>::empty(),
            final(self).slots() == old(self).slots(),
            final(self).cap() == old(self).cap(),
    {
        self.size = 0;
        proof {
            assert(self@ =~= Seq::<T>::empty());
        }
    }

    /// Puts `item` on top and returns the new size; a full stack is an error.
    pub fn push(&mut self, item: T) -> (r: Result<usize, FixedStackError>)
        requires
            old(self).wf(),
        ensures
            final(self).wf(),
            final(self).cap() == old(self).cap(),
            old(self)@.len() == old(self).cap() <==> r is Err,
            r matches Err(e) ==> e.0@ == "mnemonist/fixed-stack.push: stack capacity ("@ + decimal(old(self).cap())
                + ") exceeded!"@ && final(self)@ == old(self)@ && final(self).slots() == old(self).slots(),
            r matches Ok(n) ==> n == final(self)@.len() && final(self)@ == old(self)@.push(item)
                && final(self).slots() == old(self).slots().update(old(self)@.len() as int, Some(item)),
    {
        if self.size == self.capacity {
            return Err(FixedStackError(with_number("mnemonist/fixed-stack.push: stack capacity (", self.capacity, ") exceeded!")));
        }
        let ghost before = self.items@;
        self.items.set(self.size, Some(item));
        self.size = self.size + 1;
        proof {
            assert(self@ =~= old(self)@.push(item));
        }
        Ok(self.size)
    }

    /// Takes the top item off, if there is one, emptying its slot.
    pub fn pop(&mut self) -> (r: Option<T>)
        requires
            old(self).wf(),
        ensures
            final(self).wf(),
            final(self).cap() == old(self).cap(),
            old(self)@.len() == 0 ==> r is None && final(self)@ == old(self)@ && final(self).slots() == old(self).slots(),
            old(self)@.len() > 0 ==> r == Some(old(self)@.last()) && final(self)@ == old(self)@.drop_last()
                && final(self).slots() == old(self).slots().update(old(self)@.len() - 1, None),
    {
        if self.size == 0 {
            return None;
        }
        self.size = self.size - 1;
        let r = self.items[self.size].take();
        proof {
            assert(self@ =~= old(self)@.drop_last());
            assert(self.items@ =~= old(self).items@.update(self.size as int, None));
        }
        r
    }

    /// The top item, if there is one.
    pub fn peek(&self) -> (r: Option<&T>)
        requires
            self.wf(),
        ensures
            self@.len() == 0 ==> r is None,
            self@.len() > 0 ==> r == Some(&self@.last()),
    {
        if self.size == 0 {
            return None;
        }
        self.items[self.size - 1].as_ref()
    }

    /// Calls `callback` on every slot from the last down, with its rank:
    /// the item in it, or `None` for an empty slot.
    pub fn for_each<F: Fn(Option<&T>, usize)>(&self, callback: F)
        requires
            self.wf(),
            forall|x: Option<&T>, i: usize| #[trigger] call_requires(callback, (x, i)),
    {
        let l = self.capacity;
        let mut i: usize = 0;
        while i < l
            invariant
                self.wf(),
                l == self.capacity,
                forall|x: Option<&T>, k: usize| #[trigger] call_requires(callback, (x, k)),
            decreases l - i,
        {
            let idx = l - i - 1;
            callback(self.items[idx].as_ref(), i);
            i = i + 1;
        }
    }

    /// The items from the top down.
    pub fn values(&self) -> (r: Vec<&T>)
        requires
            self.wf(),
        ensures
            r@.len() == self@.len(),
            forall|i: int| 0 <= i < r@.len() ==> *r@[i] == self@[self@.len() - 1 - i],
    {
        let n = self.size;
        let mut out: Vec<&T> = Vec::new();
        let mut i: usize = 0;
        while i < n
            invariant
                self.wf(),
                n == self.size,
                i <= n,
                out@.len() == i,
                forall|k: int| 0 <= k < i ==> *out@[k] == self@[n - 1 - k],
            decreases n - i,
        {
            match self.items[n - 1 - i].as_ref() {
                Some(v) => {
                    out.push(v);
                },
                None => {},
            }
            i = i + 1;
        }
        out
    }

    /// The items from the top down, each with its rank.
    pub fn entries(&self) -> (r: Vec<(usize, &T)>)
        requires
            self.wf(),
        ensures
            r@.len() == self@.len(),
            forall|i: int| 0 <= i < r@.len() ==> r@[i].0 == i && *r@[i].1 == self@[self@.len() - 1 - i],
    {
        let n = self.size;
        let mut out: Vec<(usize, &T)> = Vec::new();
        let mut i: usize = 0;
        while i < n
            invariant
                self.wf(),
                n == self.size,
                i <= n,
                out@.len() == i,
                forall|k: int| 0 <= k < i ==> out@[k].0 == k && *out@[k].1 == self@[n - 1 - k],
            decreases n - i,
        {
            match self.items[n - 1 - i].as_ref() {
                Some(v) => {
                    out.push((i, v));
                },
                None => {},
            }
            i = i + 1;
        }
        out
    }

    /// A stack of `items`, the last on top, with the given capacity or, by
    /// default, as many slots as items; no capacity at all is an error.
    pub fn from_iter(items: Vec<T>, capacity: Option<usize>) -> (r: Result<Self, FixedStackError>)
        requires
            capacity matches Some(c) ==> items@.len() <= c,
        ensures
            ({
                let cap = match capacity {
                    Some(c) => c as int,
                    None => items@.len() as int,
                };
                &&& cap == 0 <==> r is Err
                &&& r matches Err(e) ==> e.0@
                    == "mnemonist/fixed-stack.from: could not guess iterable length. Please provide desired capacity as last argument."@
                &&& r matches Ok(s) ==> s.wf() && s@ == items@ && s.cap() == cap
            }),
    {
        let cap = match capacity {
            Some(c) => c,
            None => items.len(),
        };
        if cap == 0 {
            return Err(
                FixedStackError(
                    "mnemonist/fixed-stack.from: could not guess iterable length. Please provide desired capacity as last argument.".to_string(),
                ),
            );
        }
        let mut stack: FixedStack<T> = match Self::new(cap) {
            Ok(s) => s,
            Err(e) => {
                return Err(e);
            },
        };
        let n = items.len();
        let mut rest = items;
        let ghost all = rest@;
        let mut tail: Vec<T> = Vec::new();
        while rest.len() > 0
            invariant
                rest@ + tail@.reverse() == all,
            decreases rest@.len(),
        {
            let v = rest.pop().unwrap();
            tail.push(v);
            proof {
                assert(rest@ + tail@.reverse() =~= all);
            }
        }
        let mut i: usize = 0;
        proof {
            assert(stack@.len() == stack.size);
            assert(rest@ =~= Seq::<T>::empty());
            assert(tail@.reverse() =~= all);
            assert(all.subrange(0, 0) =~= Seq::<T>::empty());
            assert(all.subrange(0, n as int) =~= all);
        }
        while tail.len() > 0
            invariant
                stack.wf(),
                stack.capacity == cap,
                n == all.len(),
                n <= cap,
                i == stack.size,
                i + tail@.len() == n,
                tail@.reverse() == all.subrange(i as int, n as int),
                stack@ == all.subrange(0, i as int),
            decreases tail@.len(),
        {
            let ghost t0 = tail@;
            let v = tail.pop().unwrap();
            proof {
                assert(t0.reverse()[0] == t0[t0.len() - 1]);
                assert(all.subrange(i as int, n as int)[0] == all[i as int]);
                assert(v == all[i as int]);
                assert(tail@ =~= t0.drop_last());
                assert(tail@.reverse() =~= t0.reverse().drop_first());
            }
            stack.items.set(i, Some(v));
            stack.size = i + 1;
            i = i + 1;
            proof {
                assert(stack@ =~= all.subrange(0, i as int));
                assert(tail@.reverse() =~= all.subrange(i as int, n as int));
            }
        }
        proof {
            assert(all.subrange(0, n as int) =~= all);
        }
        Ok(stack)
    }
}

impl<T: Clone> FixedStack<T> {
    /// Copies of the items from the top down.
    pub fn to_array(&self) -> (r: Vec<T>)
        requires
            self.wf(),
        ensures
            r@.len() == self@.len(),
            forall|i: int| 0 <= i < r@.len() ==> cloned(self@[self@.len() - 1 - i], #[trigger] r@[i]),
    {
        let mut array: Vec<T> = Vec::new();
        let mut i = self.size;
        while i > 0
            invariant
                self.wf(),
                i <= self.size,
                array@.len() == self.size - i,
                forall|k: int| 0 <= k < array@.len() ==> cloned(self@[self.size - 1 - k], #[trigger] array@[k]),
            decreases i,
        {
            i = i - 1;
            match &self.items[i] {
                Some(v) => {
                    array.push(v.clone());
                },
                None => {},
            }
        }
        array
    }
}

} // verus!
