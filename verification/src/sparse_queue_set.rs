//! A first-in first-out queue of distinct integers below a fixed bound.
use vstd::prelude::*;
use std::collections::VecDeque;

verus! {

broadcast use vstd::std_specs::vecdeque::group_vec_dequeue_axioms;

/// A queue of distinct members of `0..length`, with constant-time
/// membership tests through a dense array and a sparse index.
#[derive(Debug, Clone)]
pub struct SparseQueueSet {
    length: usize,
    dense: Vec<usize>,
    sparse: Vec<usize>,
    queue: VecDeque<usize>,
}

impl View for SparseQueueSet {
    type V = Seq<usize>;

    /// The members, oldest first.
    closed spec fn view(&self) -> Seq<usize> {
        self.queue@
    }
}

impl SparseQueueSet {
    /// Every queued member is below the length, sits at the same place in
    /// the dense array, and the sparse index points at that place.
    pub closed spec fn wf(&self) -> bool {
        &&& self.dense@.len() == self.length
        &&& self.sparse@.len() == self.length
        &&& self.queue@.len() <= self.length
        &&& forall|i: int|
            0 <= i < self.queue@.len() ==> (#[trigger] self.queue@[i]) < self.length && self.dense@[i]
                == self.queue@[i] && self.sparse@[self.queue@[i] as int] == i
    }

    /// The bound on members.
    pub closed spec fn bound(&self) -> nat {
        self.length as nat
    }

    /// The members are distinct and below the bound.
    pub proof fn lemma_members(&self)
        requires
            self.wf(),
        ensures
            self@.no_duplicates(),
            forall|i: int| 0 <= i < self@.len() ==> #[trigger] self@[i] < self.bound(),
    {
        assert forall|i: int, j: int| 0 <= i < self@.len() && 0 <= j < self@.len() && i != j implies self@[i]
            != self@[j] by {
            assert(self.sparse@[self.queue@[i] as int] == i);
            assert(self.sparse@[self.queue@[j] as int] == j);
        }
    }

    /// An empty queue over `0..length`.
    pub fn new(length: usize) -> (r: Self)
        ensures
            r.wf(),
            r.bound() == length,
            r@ == Seq::<usize>::empty(),
    {
        let mut dense: Vec<usize> = Vec::new();
        let mut sparse: Vec<usize> = Vec::new();
        let mut i: usize = 0;
        while i < length
            invariant
                i <= length,
                dense@.len() == i,
                sparse@.len() == i,
            decreases length - i,
        {
            dense.push(0);
            sparse.push(0);
            i = i + 1;
        }
        SparseQueueSet { length, dense, sparse, queue: VecDeque::new() }
    }

    /// The bound on members.
    pub fn length(&self) -> (r: usize)
        ensures
            r == self.bound(),
    {
        self.length
    }

    /// The bound on members.
    pub fn capacity(&self) -> (r: usize)
        ensures
            r == self.bound(),
    {
        self.length
    }

    /// The number of members.
    pub fn size(&self) -> (r: usize)
        ensures
            r == self@.len(),
    {
        self.queue.len()
    }

    /// Removes every member.
    pub fn clear(&mut self)
        requires
            old(self).wf(),
        ensures
            final(self).wf(),
            final(self).bound() == old(self).bound(),
            final(self)@ == Seq::<usize>::empty(),
    {
        self.queue.clear();
    }

    /// Whether `member` is queued.
    pub fn has(&self, member: usize) -> (r: bool)
        requires
            self.wf(),
        ensures
            r == self@.contains(member),
    {
        if member >= self.length {
            proof {
                if self@.contains(member) {
                    let i = choose|i: int| 0 <= i < self@.len() && self@[i] == member;
                    assert(self.queue@[i] < self.length);
                }
            }
            return false;
        }
        let index = self.sparse[member];
        let r = index < self.queue.len() && self.dense[index] == member;
        proof {
            if self@.contains(member) {
                let i = choose|i: int| 0 <= i < self@.len() && self@[i] == member;
                assert(self.sparse@[self.queue@[i] as int] == i);
            }
            if r {
                assert(self.queue@[index as int] == self.dense@[index as int]);
            }
        }
        r
    }

    /// Queues `member` when it is below the bound and not yet queued;
    /// returns whether it was queued.
    pub fn enqueue(&mut self, member: usize) -> (r: bool)
        requires
            old(self).wf(),
        ensures
            final(self).wf(),
            final(self).bound() == old(self).bound(),
            r == (member < old(self).bound() && !old(self)@.contains(member)),
            r ==> final(self)@ == old(self)@.push(member),
            !r ==> final(self)@ == old(self)@,
    {
        if member >= self.length || self.has(member) {
            return false;
        }
        proof {
            self.lemma_members();
            let s = self@.push(member);
            assert forall|i: int, j: int| 0 <= i < s.len() && 0 <= j < s.len() && i != j implies s[i] != s[j] by {
                if i == self@.len() as int {
                    assert(self@[j] != member);
                } else if j == self@.len() as int {
                    assert(self@[i] != member);
                }
            }
            crate::seq_facts::lemma_no_dup_usize_len(s, self.length as int);
        }
        let index = self.queue.len();
        self.dense.set(index, member);
        self.sparse.set(member, index);
        self.queue.push_back(member);
        proof {
            assert forall|i: int| 0 <= i < self.queue@.len() implies (#[trigger] self.queue@[i]) < self.length
                && self.dense@[i] == self.queue@[i] && self.sparse@[self.queue@[i] as int] == i by {
                if i < index {
                    assert(old(self).queue@[i] != member);
                }
            }
        }
        true
    }

    /// Removes and returns the oldest member.
    pub fn dequeue(&mut self) -> (r: Option<usize>)
        requires
            old(self).wf(),
        ensures
            final(self).wf(),
            final(self).bound() == old(self).bound(),
            old(self)@.len() == 0 ==> r == None::<usize> && final(self)@ == old(self)@,
            old(self)@.len() > 0 ==> r == Some(old(self)@[0]) && final(self)@ == old(self)@.drop_first(),
    {
        proof {
            self.lemma_members();
        }
        let member = match self.queue.pop_front() {
            Some(m) => m,
            None => {
                return None;
            },
        };
        proof {
            assert(self.queue@ =~= old(self)@.drop_first());
        }
        self.rebuild_sparse();
        Some(member)
    }

    /// The members, oldest first.
    pub fn values(&self) -> (r: Vec<usize>)
        ensures
            r@ == self@,
    {
        let mut out: Vec<usize> = Vec::new();
        let mut i: usize = 0;
        while i < self.queue.len()
            invariant
                i <= self.queue@.len(),
                out@ == self.queue@.take(i as int),
            decreases self.queue@.len() - i,
        {
            out.push(self.queue[i]);
            i = i + 1;
            proof {
                assert(out@ =~= self.queue@.take(i as int));
            }
        }
        proof {
            assert(self.queue@.take(self.queue@.len() as int) =~= self.queue@);
        }
        out
    }

    /// Calls `callback` on every member, oldest first.
    pub fn for_each<F: Fn(usize)>(&self, callback: F)
        requires
            forall|m: usize| #[trigger] call_requires(callback, (m,)),
    {
        let mut i: usize = 0;
        while i < self.queue.len()
            invariant
                forall|m: usize| #[trigger] call_requires(callback, (m,)),
            decreases self.queue@.len() - i,
        {
            callback(self.queue[i]);
            i = i + 1;
        }
    }

    /// Points the dense array and the sparse index at the members' current
    /// places in the queue.
    fn rebuild_sparse(&mut self)
        requires
            old(self).dense@.len() == old(self).length,
            old(self).sparse@.len() == old(self).length,
            old(self).queue@.len() <= old(self).length,
            old(self).queue@.no_duplicates(),
            forall|i: int| 0 <= i < old(self).queue@.len() ==> (#[trigger] old(self).queue@[i]) < old(self).length,
        ensures
            final(self).wf(),
            final(self).queue@ == old(self).queue@,
            final(self).length == old(self).length,
    {
        let n = self.queue.len();
        let mut index: usize = 0;
        while index < n
            invariant
                n == self.queue@.len(),
                self.queue@ == old(self).queue@,
                self.length == old(self).length,
                self.dense@.len() == self.length,
                self.sparse@.len() == self.length,
                n <= self.length,
                self.queue@.no_duplicates(),
                forall|i: int| 0 <= i < n ==> (#[trigger] self.queue@[i]) < self.length,
                index <= n,
                forall|i: int|
                    0 <= i < index ==> self.dense@[i] == #[trigger] self.queue@[i] && self.sparse@[self.queue@[i] as int]
                        == i,
            decreases n - index,
        {
            let member = self.queue[index];
            self.dense.set(index, member);
            self.sparse.set(member, index);
            proof {
                assert forall|i: int| 0 <= i < index + 1 implies self.dense@[i] == #[trigger] self.queue@[i]
                    && self.sparse@[self.queue@[i] as int] == i by {
                    if i < index {
                        assert(self.queue@[i] != member);
                    }
                }
            }
            index = index + 1;
        }
    }
}

} // verus!
