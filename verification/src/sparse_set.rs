//! A set of integers below a fixed bound, held in a dense array and a
//! sparse index into it.
use vstd::prelude::*;

verus! {

/// The position of `m` in `s` (meaningful when `s` holds it).
pub open spec fn position_of(s: Seq<usize>, m: usize) -> int {
    choose|i: int| 0 <= i < s.len() && s[i] == m
}

/// A sparse set over `0..length`.
#[derive(Debug, Clone)]
pub struct SparseSet {
    length: usize,
    dense: Vec<usize>,
    sparse: Vec<usize>,
    size: usize,
}

impl View for SparseSet {
    type V = Seq<usize>;

    /// The members in insertion order, as rearranged by deletions.
    closed spec fn view(&self) -> Seq<usize> {
        self.dense@.take(self.size as int)
    }
}

impl SparseSet {
    /// The dense prefix lists the members, each below the length, and the
    /// sparse index points every member at its place in that prefix.
    pub closed spec fn wf(&self) -> bool {
        &&& self.dense@.len() == self.length
        &&& self.sparse@.len() == self.length
        &&& self.size <= self.length
        &&& forall|i: int| 0 <= i < self.size ==> (#[trigger] self.dense@[i]) < self.length
            && self.sparse@[self.dense@[i] as int] == i
    }

    /// The bound on members.
    pub closed spec fn bound(&self) -> nat {
        self.length as nat
    }

    /// The members are distinct and below the bound.
    pub proof fn lemma_members(&self)
        requires
            self.wf(),
        ensures
            self@.no_duplicates(),
            forall|i: int| 0 <= i < self@.len() ==> #[trigger] self@[i] < self.bound(),
    {
        assert forall|i: int, j: int| 0 <= i < self@.len() && 0 <= j < self@.len() && i != j implies self@[i]
            != self@[j] by {
            assert(self.sparse@[self.dense@[i] as int] == i);
            assert(self.sparse@[self.dense@[j] as int] == j);
        }
    }

    /// An empty set over `0..length`.
    pub fn new(length: usize) -> (r: Self)
        ensures
            r.wf(),
            r.bound() == length,
            r@ == Seq::<usize>::empty(),
    {
        let mut dense: Vec<usize> = Vec::new();
        let mut sparse: Vec<usize> = Vec::new();
        let mut i: usize = 0;
        while i < length
            invariant
                i <= length,
                dense@.len() == i,
                sparse@.len() == i,
            decreases length - i,
        {
            dense.push(0);
            sparse.push(0);
            i = i + 1;
        }
        let r = SparseSet { length, dense, sparse, size: 0 };
        assert(r@ =~= Seq::<usize>::empty());
        r
    }

    /// The bound on members.
    pub fn length(&self) -> (r: usize)
        ensures
            r == self.bound(),
    {
        self.length
    }

    /// The number of members.
    pub fn size(&self) -> (r: usize)
        requires
            self.wf(),
        ensures
            r == self@.len(),
    {
        self.size
    }

    /// Removes every member.
    pub fn clear(&mut self)
        requires
            old(self).wf(),
        ensures
            final(self).wf(),
            final(self).bound() == old(self).bound(),
            final(self)@ == Seq::<usize>::empty(),
    {
        self.size = 0;
        assert(self@ =~= Seq::<usize>::empty());
    }

    /// Whether `member` belongs to the set.
    pub fn has(&self, member: usize) -> (r: bool)
        requires
            self.wf(),
        ensures
            r == self@.contains(member),
    {
        if member >= self.length {
            proof {
                if self@.contains(member) {
                    let i = choose|i: int| 0 <= i < self@.len() && self@[i] == member;
                    assert(self.dense@[i] < self.length);
                }
            }
            return false;
        }
        let index = self.sparse[member];
        let r = index < self.size && self.dense[index] == member;
        proof {
            if self@.contains(member) {
                let i = choose|i: int| 0 <= i < self@.len() && self@[i] == member;
                assert(self.sparse@[self.dense@[i] as int] == i);
            }
            if r {
                assert(self@[index as int] == member);
            }
        }
        r
    }

    /// Adds `member` when it is below the bound and not yet a member.
    pub fn add(&mut self, member: usize)
        requires
            old(self).wf(),
        ensures
            final(self).wf(),
            final(self).bound() == old(self).bound(),
            (member < old(self).bound() && !old(self)@.contains(member)) ==> final(self)@ == old(self)@.push(member),
            !(member < old(self).bound() && !old(self)@.contains(member)) ==> final(self)@ == old(self)@,
    {
        if member >= self.length || self.has(member) {
            return;
        }
        proof {
            self.lemma_members();
            self.lemma_room(member);
        }
        let size = self.size;
        self.dense.set(size, member);
        self.sparse.set(member, size);
        self.size = size + 1;
        proof {
            assert(self@ =~= old(self)@.push(member));
            assert forall|i: int| 0 <= i < self.size implies (#[trigger] self.dense@[i]) < self.length
                && self.sparse@[self.dense@[i] as int] == i by {
                if i < size {
                    assert(old(self)@[i] == old(self).dense@[i]);
                    assert(old(self).dense@[i] != member);
                }
            }
        }
    }

    /// A set missing a value below the bound has room for it.
    proof fn lemma_room(&self, member: usize)
        requires
            self.wf(),
            member < self.length,
            !self@.contains(member),
        ensures
            self.size < self.length,
    {
        self.lemma_members();
        let s = self@.push(member);
        assert forall|i: int, j: int| 0 <= i < s.len() && 0 <= j < s.len() && i != j implies s[i] != s[j] by {
            if i == self@.len() as int {
                assert(self@[j] != member);
            } else if j == self@.len() as int {
                assert(self@[i] != member);
            }
        }
        crate::seq_facts::lemma_no_dup_usize_len(s, self.length as int);
    }

    /// Removes `member`, moving the last member into its place. Returns
    /// whether it was a member.
    pub fn delete(&mut self, member: usize) -> (r: bool)
        requires
            old(self).wf(),
        ensures
            final(self).wf(),
            final(self).bound() == old(self).bound(),
            r == old(self)@.contains(member),
            !r ==> final(self)@ == old(self)@,
            r ==> final(self)@ == old(self)@.update(position_of(old(self)@, member), old(self)@.last()).drop_last(),
    {
        if !self.has(member) {
            return false;
        }
        let index = self.sparse[member];
        let size = self.size;
        let last = self.dense[size - 1];
        proof {
            self.lemma_members();
            let p = position_of(old(self)@, member);
            assert(self.sparse@[self.dense@[p] as int] == p);
            assert(index as int == p);
        }
        self.dense.set(index, last);
        self.sparse.set(last, index);
        self.size = size - 1;
        proof {
            let o = old(self)@;
            assert(self@ =~= o.update(index as int, o.last()).drop_last());
            assert forall|i: int| 0 <= i < self.size implies (#[trigger] self.dense@[i]) < self.length
                && self.sparse@[self.dense@[i] as int] == i by {
                if i != index as int {
                    assert(old(self).dense@[i] != last);
                }
            }
        }
        true
    }

    /// The members, in order.
    pub fn values(&self) -> (r: Vec<usize>)
        requires
            self.wf(),
        ensures
            r@ == self@,
    {
        let mut out: Vec<usize> = Vec::new();
        let mut i: usize = 0;
        while i < self.size
            invariant
                self.wf(),
                i <= self.size,
                out@ == self@.take(i as int),
            decreases self.size - i,
        {
            out.push(self.dense[i]);
            i = i + 1;
            proof {
                assert(out@ =~= self@.take(i as int));
            }
        }
        proof {
            assert(self@.take(self.size as int) =~= self@);
        }
        out
    }
}

} // verus!
