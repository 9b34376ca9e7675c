//! A map from integers below a fixed bound to values, held in a dense
//! array and a sparse index into it.
use vstd::prelude::*;
use crate::sparse_set::position_of;

verus! {

/// A sparse map over the keys `0..length`.
#[derive(Debug, Clone)]
pub struct SparseMap<T> {
    length: usize,
    dense: Vec<usize>,
    sparse: Vec<usize>,
    values: Vec<T>,
}

impl<T> SparseMap<T> {
    /// The keys in insertion order, as rearranged by deletions.
    pub closed spec fn keys_seq(&self) -> Seq<usize> {
        self.dense@.take(self.values@.len() as int)
    }

    /// The values, in the order of their keys.
    pub closed spec fn values_seq(&self) -> Seq<T> {
        self.values@
    }

    /// The bound on keys.
    pub closed spec fn bound(&self) -> nat {
        self.length as nat
    }

    /// The dense prefix lists the keys, each below the length, and the
    /// sparse index points every key at its place in that prefix.
    pub closed spec fn wf(&self) -> bool {
        &&& self.dense@.len() == self.length
        &&& self.sparse@.len() == self.length
        &&& self.values@.len() <= self.length
        &&& forall|i: int| 0 <= i < self.values@.len() ==> (#[trigger] self.dense@[i]) < self.length
            && self.sparse@[self.dense@[i] as int] == i
    }

    /// The keys are distinct and below the bound, one per value.
    pub proof fn lemma_keys(&self)
        requires
            self.wf(),
        ensures
            self.keys_seq().no_duplicates(),
            self.keys_seq().len() == self.values_seq().len(),
            forall|i: int| 0 <= i < self.keys_seq().len() ==> #[trigger] self.keys_seq()[i] < self.bound(),
    {
        assert forall|i: int, j: int|
            0 <= i < self.keys_seq().len() && 0 <= j < self.keys_seq().len() && i != j implies self.keys_seq()[i]
            != self.keys_seq()[j] by {
            assert(self.sparse@[self.dense@[i] as int] == i);
            assert(self.sparse@[self.dense@[j] as int] == j);
        }
    }

    /// An empty map over `0..length`.
    pub fn new(length: usize) -> (r: Self)
        ensures
            r.wf(),
            r.bound() == length,
            r.keys_seq() == Seq::<usize>::empty(),
            r.values_seq() == Seq::<T>::empty(),
    {
        let mut dense: Vec<usize> = Vec::new();
        let mut sparse: Vec<usize> = Vec::new();
        let mut i: usize = 0;
        while i < length
            invariant
                i <= length,
                dense@.len() == i,
                sparse@.len() == i,
            decreases length - i,
        {
            dense.push(0);
            sparse.push(0);
            i = i + 1;
        }
        let r = SparseMap { length, dense, sparse, values: Vec::new() };
        assert(r.keys_seq() =~= Seq::<usize>::empty());
        r
    }

    /// The bound on keys.
    pub fn length(&self) -> (r: usize)
        ensures
            r == self.bound(),
    {
        self.length
    }

    /// The number of keys.
    pub fn size(&self) -> (r: usize)
        ensures
            r == self.values_seq().len(),
    {
        self.values.len()
    }

    /// Removes every key.
    pub fn clear(&mut self)
        requires
            old(self).wf(),
        ensures
            final(self).wf(),
            final(self).bound() == old(self).bound(),
            final(self).keys_seq() == Seq::<usize>::empty(),
            final(self).values_seq() == Seq::<T>::empty(),
    {
        self.values.clear();
        assert(self.keys_seq() =~= Seq::<usize>::empty());
    }

    /// Whether `member` is a key.
    pub fn has(&self, member: usize) -> (r: bool)
        requires
            self.wf(),
        ensures
            r == self.keys_seq().contains(member),
    {
        if member >= self.length {
            proof {
                if self.keys_seq().contains(member) {
                    let i = choose|i: int| 0 <= i < self.keys_seq().len() && self.keys_seq()[i] == member;
                    assert(self.dense@[i] < self.length);
                }
            }
            return false;
        }
        let index = self.sparse[member];
        let r = index < self.values.len() && self.dense[index] == member;
        proof {
            if self.keys_seq().contains(member) {
                let i = choose|i: int| 0 <= i < self.keys_seq().len() && self.keys_seq()[i] == member;
                assert(self.sparse@[self.dense@[i] as int] == i);
            }
            if r {
                assert(self.keys_seq()[index as int] == member);
            }
        }
        r
    }

    /// A map missing a key below the bound has room for it.
    proof fn lemma_room(&self, member: usize)
        requires
            self.wf(),
            member < self.length,
            !self.keys_seq().contains(member),
        ensures
            self.values@.len() < self.length,
    {
        self.lemma_keys();
        let s = self.keys_seq().push(member);
        assert forall|i: int, j: int| 0 <= i < s.len() && 0 <= j < s.len() && i != j implies s[i] != s[j] by {
            if i == self.keys_seq().len() as int {
                assert(self.keys_seq()[j] != member);
            } else if j == self.keys_seq().len() as int {
                assert(self.keys_seq()[i] != member);
            }
        }
        crate::seq_facts::lemma_no_dup_usize_len(s, self.length as int);
    }

    /// Maps `member` to `value` when it is below the bound: in place for a
    /// key, or as a new last key.
    pub fn set(&mut self, member: usize, value: T)
        requires
            old(self).wf(),
        ensures
            final(self).wf(),
            final(self).bound() == old(self).bound(),
            member >= old(self).bound() ==> final(self).keys_seq() == old(self).keys_seq()
                && final(self).values_seq() == old(self).values_seq(),
            member < old(self).bound() && old(self).keys_seq().contains(member) ==> final(self).keys_seq()
                == old(self).keys_seq() && final(self).values_seq() == old(self).values_seq().update(
                position_of(old(self).keys_seq(), member),
                value,
            ),
            member < old(self).bound() && !old(self).keys_seq().contains(member) ==> final(self).keys_seq()
                == old(self).keys_seq().push(member) && final(self).values_seq() == old(self).values_seq().push(value),
    {
        if member >= self.length {
            return;
        }
        if self.has(member) {
            let index = self.sparse[member];
            proof {
                self.lemma_keys();
                let p = position_of(old(self).keys_seq(), member);
                assert(self.sparse@[self.dense@[p] as int] == p);
            }
            self.values.set(index, value);
            proof {
                assert(self.keys_seq() =~= old(self).keys_seq());
            }
            return;
        }
        proof {
            self.lemma_keys();
            self.lemma_room(member);
        }
        let index = self.values.len();
        self.dense.set(index, member);
        self.sparse.set(member, index);
        self.values.push(value);
        proof {
            assert(self.keys_seq() =~= old(self).keys_seq().push(member));
            assert forall|i: int| 0 <= i < self.values@.len() implies (#[trigger] self.dense@[i]) < self.length
                && self.sparse@[self.dense@[i] as int] == i by {
                if i < index {
                    assert(old(self).keys_seq()[i] == old(self).dense@[i]);
                    assert(old(self).dense@[i] != member);
                }
            }
        }
    }

    /// The value of `member`, if it is a key.
    pub fn get(&self, member: usize) -> (r: Option<&T>)
        requires
            self.wf(),
        ensures
            !self.keys_seq().contains(member) ==> r is None,
            self.keys_seq().contains(member) ==> r == Some(&self.values_seq()[position_of(self.keys_seq(), member)]),
    {
        if !self.has(member) {
            return None;
        }
        proof {
            self.lemma_keys();
            let p = position_of(self.keys_seq(), member);
            assert(self.sparse@[self.dense@[p] as int] == p);
        }
        Some(&self.values[self.sparse[member]])
    }

    /// Removes `member`, moving the last key and its value into its place.
    /// Returns whether it was a key.
    pub fn delete(&mut self, member: usize) -> (r: bool)
        requires
            old(self).wf(),
        ensures
            final(self).wf(),
            final(self).bound() == old(self).bound(),
            r == old(self).keys_seq().contains(member),
            !r ==> final(self).keys_seq() == old(self).keys_seq() && final(self).values_seq() == old(self).values_seq(),
            r ==> final(self).keys_seq() == old(self).keys_seq().update(
                position_of(old(self).keys_seq(), member),
                old(self).keys_seq().last(),
            ).drop_last() && final(self).values_seq() == old(self).values_seq().update(
                position_of(old(self).keys_seq(), member),
                old(self).values_seq().last(),
            ).drop_last(),
    {
        if !self.has(member) {
            return false;
        }
        let index = self.sparse[member];
        let size = self.values.len();
        let last_member = self.dense[size - 1];
        proof {
            self.lemma_keys();
            let p = position_of(old(self).keys_seq(), member);
            assert(self.sparse@[self.dense@[p] as int] == p);
            assert(index as int == p);
        }
        self.dense.set(index, last_member);
        self.sparse.set(last_member, index);
        self.values.swap_remove(index);
        proof {
            let o = old(self).keys_seq();
            assert(self.keys_seq() =~= o.update(index as int, o.last()).drop_last());
            assert(self.values@ =~= old(self).values@.update(index as int, old(self).values@.last()).drop_last());
            assert forall|i: int| 0 <= i < self.values@.len() implies (#[trigger] self.dense@[i]) < self.length
                && self.sparse@[self.dense@[i] as int] == i by {
                if i != index as int {
                    assert(old(self).dense@[i] != last_member);
                }
            }
        }
        true
    }

    /// The keys, in order.
    pub fn keys(&self) -> (r: Vec<usize>)
        requires
            self.wf(),
        ensures
            r@ == self.keys_seq(),
    {
        let mut out: Vec<usize> = Vec::new();
        let mut i: usize = 0;
        while i < self.values.len()
            invariant
                self.wf(),
                i <= self.values@.len(),
                out@ == self.keys_seq().take(i as int),
            decreases self.values@.len() - i,
        {
            out.push(self.dense[i]);
            i = i + 1;
            proof {
                assert(out@ =~= self.keys_seq().take(i as int));
            }
        }
        proof {
            assert(self.keys_seq().take(self.values@.len() as int) =~= self.keys_seq());
        }
        out
    }

    /// The values, in the order of their keys.
    pub fn values(&self) -> (r: Vec<&T>)
        ensures
            r@.len() == self.values_seq().len(),
            forall|k: int| 0 <= k < r@.len() ==> *r@[k] == self.values_seq()[k],
    {
        let mut out: Vec<&T> = Vec::new();
        let mut i: usize = 0;
        while i < self.values.len()
            invariant
                i <= self.values@.len(),
                out@.len() == i,
                forall|k: int| 0 <= k < i ==> *out@[k] == self.values_seq()[k],
            decreases self.values@.len() - i,
        {
            out.push(&self.values[i]);
            i = i + 1;
        }
        out
    }

    /// The keys with their values, in order.
    pub fn entries(&self) -> (r: Vec<(usize, &T)>)
        requires
            self.wf(),
        ensures
            r@.len() == self.values_seq().len(),
            forall|k: int| 0 <= k < r@.len() ==> r@[k].0 == self.keys_seq()[k] && *r@[k].1 == self.values_seq()[k],
    {
        let mut out: Vec<(usize, &T)> = Vec::new();
        let mut i: usize = 0;
        while i < self.values.len()
            invariant
                self.wf(),
                i <= self.values@.len(),
                out@.len() == i,
                forall|k: int| 0 <= k < i ==> #[trigger] out@[k].0 == self.keys_seq()[k],
                forall|k: int| 0 <= k < i ==> *(#[trigger] out@[k]).1 == self.values_seq()[k],
            decreases self.values@.len() - i,
        {
            out.push((self.dense[i], &self.values[i]));
            i = i + 1;
        }
        out
    }

    /// Calls `callback` on every value with its key, in order.
    pub fn for_each<F: Fn(&T, usize)>(&self, callback: F)
        requires
            self.wf(),
            forall|x: &T, i: usize| #[trigger] call_requires(callback, (x, i)),
    {
        let mut i: usize = 0;
        while i < self.values.len()
            invariant
                self.wf(),
                forall|x: &T, k: usize| #[trigger] call_requires(callback, (x, k)),
            decreases self.values@.len() - i,
        {
            callback(&self.values[i], self.dense[i]);
            i = i + 1;
        }
    }
}

} // verus!
