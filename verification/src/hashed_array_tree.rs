//! A growable array whose capacity grows by whole blocks.
use vstd::prelude::*;

verus! {

/// `c` rounded up to a multiple of `b`.
pub open spec fn round_up(c: int, b: int) -> int {
    if c % b == 0 {
        c
    } else {
        c - c % b + b
    }
}

/// `c` rounded up to a multiple of `b`, when that fits.
fn round_up_exec(c: usize, b: usize) -> (r: usize)
    requires
        b > 0,
        round_up(c as int, b as int) <= usize::MAX,
    ensures
        r == round_up(c as int, b as int),
        r % b == 0,
        r >= c,
{
    let q = c / b;
    let rem = c % b;
    proof {
        let ci = c as int;
        let bi = b as int;
        let qi = q as int;
        vstd::arithmetic::div_mod::lemma_fundamental_div_mod(ci, bi);
        assert(qi * bi == ci - rem) by (nonlinear_arith)
            requires
                ci == bi * (ci / bi) + (ci % bi),
                qi == ci / bi,
                rem == ci % bi,
        ;
        assert((qi + 1) * bi == qi * bi + bi) by (nonlinear_arith);
        vstd::arithmetic::div_mod::lemma_mod_multiples_basic(qi, bi);
        vstd::arithmetic::div_mod::lemma_mod_multiples_basic(qi + 1, bi);
        assert((qi * bi) % bi == 0) by {
            vstd::arithmetic::mul::lemma_mul_is_commutative(qi, bi);
        }
        assert(((qi + 1) * bi) % bi == 0) by {
            vstd::arithmetic::mul::lemma_mul_is_commutative(qi + 1, bi);
        }
    }
    if rem == 0 {
        q * b
    } else {
        (q + 1) * b
    }
}

/// A growable array of items with a capacity kept to whole blocks.
#[derive(Debug, Clone)]
pub struct HashedArrayTree<T> {
    block_size: usize,
    capacity: usize,
    items: Vec<T>,
}

impl<T> View for HashedArrayTree<T> {
    type V = Seq<T>;

    /// The items, in order.
    closed spec fn view(&self) -> Seq<T> {
        self.items@
    }
}

impl<T> HashedArrayTree<T> {
    /// The block size.
    pub closed spec fn block(&self) -> nat {
        self.block_size as nat
    }

    /// The capacity.
    pub closed spec fn cap(&self) -> nat {
        self.capacity as nat
    }

    /// Blocks are nonempty, the capacity is whole blocks and holds the items.
    pub closed spec fn wf(&self) -> bool {
        &&& self.block_size >= 1
        &&& self.capacity % self.block_size == 0
        &&& self.items@.len() <= self.capacity
    }

    /// An empty array with the given block size, at least 1.
    pub fn new(block_size: usize) -> (r: Self)
        ensures
            r.wf(),
            r@ == Seq::<T>::empty(),
            r.block() == if block_size == 0 { 1 } else { block_size as nat },
            r.cap() == 0,
    {
        let b = if block_size < 1 { 1 } else { block_size };
        proof {
            vstd::arithmetic::div_mod::lemma_small_mod(0, b as nat);
        }
        HashedArrayTree { block_size: b, capacity: 0, items: Vec::new() }
    }

    /// The block size.
    pub fn block_size(&self) -> (r: usize)
        ensures
            r == self.block(),
    {
        self.block_size
    }

    /// The number of items.
    pub fn size(&self) -> (r: usize)
        ensures
            r == self@.len(),
    {
        self.items.len()
    }

    /// The number of items.
    pub fn length(&self) -> (r: usize)
        ensures
            r == self@.len(),
    {
        self.size()
    }

    /// The capacity.
    pub fn capacity(&self) -> (r: usize)
        ensures
            r == self.cap(),
    {
        self.capacity
    }

    /// Removes every item; the capacity stays.
    pub fn clear(&mut self)
        requires
            old(self).wf(),
        ensures
            final(self).wf(),
            final(self)@ == Seq::<T>::empty(),
            final(self).cap() == old(self).cap(),
            final(self).block() == old(self).block(),
    {
        self.items.clear();
    }

    /// Raises the capacity to `capacity` rounded up to whole blocks, if that
    /// is more; the items are unchanged.
    pub fn grow(&mut self, capacity: usize)
        requires
            old(self).wf(),
            capacity > old(self).cap() ==> round_up(capacity as int, old(self).block() as int) <= usize::MAX,
        ensures
            final(self).wf(),
            final(self)@ == old(self)@,
            final(self).block() == old(self).block(),
            final(self).cap() == if capacity <= old(self).cap() {
                old(self).cap() as int
            } else {
                round_up(capacity as int, old(self).block() as int)
            },
    {
        if capacity <= self.capacity {
            return;
        }
        self.capacity = round_up_exec(capacity, self.block_size);
        let additional = if self.capacity > self.items.len() {
            self.capacity - self.items.len()
        } else {
            0
        };
        self.items.reserve(additional);
    }

    /// Adds `value` at the end, growing by a block when full, and returns
    /// the new length.
    pub fn push(&mut self, value: T) -> (r: usize)
        requires
            old(self).wf(),
            old(self)@.len() == old(self).cap() ==> old(self).cap() + old(self).block() <= usize::MAX,
        ensures
            final(self).wf(),
            final(self)@ == old(self)@.push(value),
            r == final(self)@.len(),
            final(self).block() == old(self).block(),
            final(self).cap() == if old(self)@.len() == old(self).cap() {
                (old(self).cap() + old(self).block()) as int
            } else {
                old(self).cap() as int
            },
    {
        if self.items.len() == self.capacity {
            proof {
                let c = self.capacity as int;
                let b = self.block_size as int;
                vstd::arithmetic::div_mod::lemma_mod_add_multiples_vanish(c, b);
                assert((c + b) % b == 0);
            }
            self.grow(self.capacity + self.block_size);
        }
        self.items.push(value);
        self.items.len()
    }

    /// Takes the last item off, if any.
    pub fn pop(&mut self) -> (r: Option<T>)
        requires
            old(self).wf(),
        ensures
            final(self).wf(),
            final(self).cap() == old(self).cap(),
            final(self).block() == old(self).block(),
            old(self)@.len() == 0 ==> r is None && final(self)@ == old(self)@,
            old(self)@.len() > 0 ==> r == Some(old(self)@.last()) && final(self)@ == old(self)@.drop_last(),
    {
        let r = self.items.pop();
        proof {
            if old(self)@.len() > 0 {
                assert(self.items@ =~= old(self)@.drop_last());
            }
        }
        r
    }

    /// The item at `index`, if there is one.
    pub fn get(&self, index: usize) -> (r: Option<&T>)
        ensures
            index < self@.len() ==> r == Some(&self@[index as int]),
            index >= self@.len() ==> r is None,
    {
        if index < self.items.len() {
            Some(&self.items[index])
        } else {
            None
        }
    }

    /// Replaces the item at `index`; an index past the end changes nothing
    /// and gives `false`.
    pub fn set(&mut self, index: usize, value: T) -> (r: bool)
        requires
            old(self).wf(),
        ensures
            final(self).wf(),
            final(self).cap() == old(self).cap(),
            final(self).block() == old(self).block(),
            r == (index < old(self)@.len()),
            r ==> final(self)@ == old(self)@.update(index as int, value),
            !r ==> final(self)@ == old(self)@,
    {
        if index >= self.items.len() {
            return false;
        }
        self.items.set(index, value);
        true
    }

    /// The items, in order.
    pub fn values(&self) -> (r: Vec<&T>)
        ensures
            r@.len() == self@.len(),
            forall|k: int| 0 <= k < r@.len() ==> *r@[k] == self@[k],
    {
        let mut out: Vec<&T> = Vec::new();
        let mut i: usize = 0;
        while i < self.items.len()
            invariant
                i <= self.items@.len(),
                out@.len() == i,
                forall|k: int| 0 <= k < i ==> *out@[k] == self@[k],
            decreases self.items@.len() - i,
        {
            out.push(&self.items[i]);
            i = i + 1;
        }
        out
    }
}

impl<T: Clone> HashedArrayTree<T> {
    /// An array of `initial_length` copies of `fill`, with room for at
    /// least `initial_capacity` items.
    pub fn with_dimensions(block_size: usize, initial_capacity: usize, initial_length: usize, fill: T) -> (r: Self)
        requires
            round_up(
                if initial_capacity < initial_length { initial_length as int } else { initial_capacity as int },
                if block_size == 0 { 1 } else { block_size as int },
            ) <= usize::MAX,
        ensures
            r.wf(),
            r.block() == if block_size == 0 { 1 } else { block_size as nat },
            r@.len() == initial_length,
            forall|k: int| 0 <= k < initial_length ==> cloned(fill, #[trigger] r@[k]),
    {
        let mut tree = Self::new(block_size);
        let wanted = if initial_capacity < initial_length {
            initial_length
        } else {
            initial_capacity
        };
        tree.grow(wanted);
        tree.resize(initial_length, fill);
        tree
    }

    /// Truncates to `size` items or extends with copies of `value`, growing
    /// the capacity first when it is short.
    pub fn resize(&mut self, size: usize, value: T)
        requires
            old(self).wf(),
            size > old(self).cap() ==> round_up(size as int, old(self).block() as int) <= usize::MAX,
        ensures
            final(self).wf(),
            final(self).block() == old(self).block(),
            final(self).cap() == if size <= old(self).cap() {
                old(self).cap() as int
            } else {
                round_up(size as int, old(self).block() as int)
            },
            final(self)@.len() == size,
            size <= old(self)@.len() ==> final(self)@ == old(self)@.subrange(0, size as int),
            size > old(self)@.len() ==> final(self)@.subrange(0, old(self)@.len() as int) == old(self)@
                && forall|k: int| old(self)@.len() <= k < size ==> cloned(value, #[trigger] final(self)@[k]),
    {
        if size > self.capacity {
            self.grow(size);
        }
        self.items.resize(size, value);
    }

    /// Copies of the items, in order.
    pub fn to_array(&self) -> (r: Vec<T>)
        ensures
            r@.len() == self@.len(),
            forall|k: int| 0 <= k < r@.len() ==> cloned(self@[k], #[trigger] r@[k]),
    {
        self.items.clone()
    }
}

} // verus!
