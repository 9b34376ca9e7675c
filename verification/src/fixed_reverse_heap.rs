//! A bounded collection that keeps the smallest keys pushed into it, in
//! ascending order.
use vstd::prelude::*;
use crate::heap::{kept_before, rank, selects_first, sorted_by};

verus! {

broadcast use vstd::multiset::group_multiset_axioms;

/// Keeps at most `capacity` keys: the smallest of those pushed, ascending.
#[derive(Debug, Clone)]
pub struct FixedReverseHeap {
    capacity: usize,
    items: Vec<i64>,
}

impl View for FixedReverseHeap {
    type V = Seq<i64>;

    /// The keys kept, ascending.
    closed spec fn view(&self) -> Seq<i64> {
        self.items@
    }
}

impl FixedReverseHeap {
    /// The capacity.
    pub closed spec fn cap(&self) -> nat {
        self.capacity as nat
    }

    /// The keys are ascending and within capacity.
    pub closed spec fn wf(&self) -> bool {
        &&& sorted_by(false, self.items@)
        &&& self.items@.len() <= self.capacity
    }

    /// An empty collection of the given capacity.
    pub fn new(capacity: usize) -> (r: Self)
        ensures
            r.wf(),
            r@ == Seq::<i64>::empty(),
            r.cap() == capacity,
    {
        FixedReverseHeap { capacity, items: Vec::new() }
    }

    /// The capacity.
    pub fn capacity(&self) -> (r: usize)
        ensures
            r == self.cap(),
    {
        self.capacity
    }

    /// The number of keys kept.
    pub fn size(&self) -> (r: usize)
        ensures
            r == self@.len(),
    {
        self.items.len()
    }

    /// Forgets every key.
    pub fn clear(&mut self)
        ensures
            final(self).wf(),
            final(self)@ == Seq::<i64>::empty(),
            final(self).cap() == old(self).cap(),
    {
        self.items.clear();
    }

    /// Adds `item` among the keys in order and, beyond capacity, drops the
    /// largest; returns the number of keys kept.
    pub fn push(&mut self, item: i64) -> (r: usize)
        requires
            old(self).wf(),
        ensures
            final(self).wf(),
            final(self).cap() == old(self).cap(),
            r == final(self)@.len(),
            old(self).cap() == 0 ==> final(self)@ == old(self)@,
            old(self).cap() > 0 ==> selects_first(false, old(self).cap(), old(self)@.push(item), final(self)@),
    {
        broadcast use vstd::seq_lib::group_to_multiset_ensures;
        broadcast use vstd::multiset::group_multiset_properties;

        if self.capacity == 0 {
            return 0;
        }
        let ghost s0 = self.items@;
        let n = self.items.len();
        let mut pos: usize = 0;
        while pos < n && self.items[pos] <= item
            invariant
                pos <= n,
                n == self.items@.len(),
                self.items@ == s0,
                forall|k: int| 0 <= k < pos ==> #[trigger] s0[k] <= item,
            decreases n - pos,
        {
            pos = pos + 1;
        }
        self.items.insert(pos, item);
        let ghost s1 = self.items@;
        proof {
            vstd::seq_lib::to_multiset_insert(s0, pos as int, item);
            assert(s1.to_multiset() == s0.to_multiset().insert(item));
            assert(s0.push(item).to_multiset() == s0.to_multiset().insert(item));
            assert forall|i: int, j: int| 0 <= i <= j < s1.len() implies rank(false, s1[i]) <= rank(false, s1[j]) by {
                if pos < n {
                    assert(item < s0[pos as int]);
                }
            }
        }
        if self.items.len() > self.capacity {
            let dropped = self.items.pop();
            proof {
                let z = s1.last();
                assert(s1 =~= self.items@.push(z));
                let m1 = s1.to_multiset();
                let m2 = self.items@.to_multiset();
                assert(m1 == m2.insert(z));
                assert forall|x: i64, y: i64|
                    #![trigger m1.count(x), m2.count(y)]
                    m1.count(x) > m2.count(x) && m2.count(y) > 0 implies rank(false, y) <= rank(false, x) by {
                    assert(x == z);
                    assert(self.items@.contains(y));
                    let w = choose|w: int| 0 <= w < self.items@.len() && self.items@[w] == y;
                    assert(s1[w] == y);
                }
                assert(kept_before(false, s0.push(item).to_multiset(), m2));
            }
        } else {
            proof {
                let m1 = s1.to_multiset();
                assert forall|x: i64, y: i64|
                    #![trigger m1.count(x), m1.count(y)]
                    m1.count(x) > m1.count(x) && m1.count(y) > 0 implies rank(false, y) <= rank(false, x) by {
                }
            }
        }
        self.items.len()
    }

    /// The smallest key kept, if any.
    pub fn peek(&self) -> (r: Option<&i64>)
        ensures
            self@.len() == 0 ==> r is None,
            self@.len() > 0 ==> r == Some(&self@[0]),
    {
        self.items.first()
    }

    /// Hands out the keys kept, ascending, and keeps none.
    pub fn consume(&mut self) -> (r: Vec<i64>)
        requires
            old(self).wf(),
        ensures
            final(self).wf(),
            final(self)@ == Seq::<i64>::empty(),
            final(self).cap() == old(self).cap(),
            r@ == old(self)@,
    {
        let mut items: Vec<i64> = Vec::new();
        std::mem::swap(&mut items, &mut self.items);
        items
    }

    /// The keys kept, ascending.
    pub fn to_array(&self) -> (r: Vec<i64>)
        ensures
            r@ == self@,
    {
        let r = self.items.clone();
        proof {
            assert(r@ =~= self.items@);
        }
        r
    }
}

} // verus!
