//! A Fibonacci heap of integer keys. Its nodes live in an arena and refer to
//! one another by position: each node knows its parent and its children,
//! and the roots of the forest are kept in a list of their own.
use vstd::prelude::*;
use vstd::multiset::Multiset;
use crate::heap::{first_of, rank, sorted_by, HeapKey};
use crate::seq_facts::{lemma_insert_facts, lemma_push_facts, lemma_remove_facts};

verus! {

/// A Fibonacci heap: a forest of trees in heap order whose roots are
/// merged by degree after each removal.
pub struct FibonacciHeap {
    items: Vec<i64>,
    parent: Vec<Option<usize>>,
    children: Vec<Vec<usize>>,
    roots: Vec<usize>,
    best: Option<usize>,
    size: usize,
    max: bool,
    live: Ghost<Seq<usize>>,
    paths: Ghost<Map<usize, Seq<usize>>>,
}

impl View for FibonacciHeap {
    type V = Multiset<i64>;

    /// The keys of the nodes still in the heap.
    closed spec fn view(&self) -> Multiset<i64> {
        self.live@.map_values(|i: usize| self.items@[i as int]).to_multiset()
    }
}

impl FibonacciHeap {
    /// The largest key comes first.
    pub closed spec fn descending(&self) -> bool {
        self.max
    }

    /// The number of nodes ever made since the heap was last emptied.
    pub closed spec fn slots(&self) -> nat {
        self.items@.len()
    }

    /// The place of node `i` in the heap order.
    closed spec fn k(&self, i: usize) -> int {
        rank(self.max, self.items@[i as int])
    }

    /// The path from a root down to the live node `x` runs through live
    /// nodes that are parent and child in turn, none later than `x`.
    #[verifier::opaque]
    closed spec fn path_ok(&self, x: usize) -> bool {
        let p = self.paths@[x];
        &&& self.paths@.contains_key(x)
        &&& p.len() >= 1
        &&& self.roots@.contains(p[0])
        &&& p.last() == x
        &&& forall|i: int| 0 <= i < p.len() ==> self.live@.contains(#[trigger] p[i]) && self.k(p[i]) <= self.k(x)
        &&& forall|i: int| 1 <= i < p.len() ==> self.children@[p[i - 1] as int]@.contains(#[trigger] p[i])
    }

    /// The arena, the live nodes and the roots fit together.
    closed spec fn shape(&self) -> bool {
        &&& self.parent@.len() == self.items@.len()
        &&& self.children@.len() == self.items@.len()
        &&& self.live@.no_duplicates()
        &&& forall|j: int| 0 <= j < self.live@.len() ==> (#[trigger] self.live@[j]) < self.items@.len()
        &&& self.size == self.live@.len()
        &&& self.size <= self.items@.len()
        &&& self.roots@.no_duplicates()
        &&& forall|j: int| 0 <= j < self.roots@.len() ==> self.live@.contains(#[trigger] self.roots@[j])
    }

    /// A live node is a root exactly when it has no parent.
    #[verifier::opaque]
    closed spec fn roots_ok(&self) -> bool {
        forall|x: usize| #[trigger]
            self.live@.contains(x) ==> (self.parent@[x as int] is None <==> self.roots@.contains(x))
    }

    /// The children of a live node are distinct live nodes that name it as
    /// their parent.
    #[verifier::opaque]
    closed spec fn children_ok(&self) -> bool {
        &&& forall|y: usize| #[trigger] self.live@.contains(y) ==> self.children@[y as int]@.no_duplicates()
        &&& forall|y: usize, t: int|
            self.live@.contains(y) && 0 <= t < self.children@[y as int]@.len() ==> {
                let x = #[trigger] self.children@[y as int]@[t];
                self.live@.contains(x) && self.parent@[x as int] == Some(y)
            }
    }

    /// Every live node hangs below a root in heap order.
    #[verifier::opaque]
    closed spec fn paths_ok(&self) -> bool {
        forall|x: usize| #[trigger] self.live@.contains(x) ==> self.path_ok(x)
    }

    /// The forest is well formed.
    closed spec fn wf_forest(&self) -> bool {
        &&& self.shape()
        &&& self.roots_ok()
        &&& self.children_ok()
        &&& self.paths_ok()
    }

    /// No two roots have the same number of children.
    pub closed spec fn consolidated(&self) -> bool {
        forall|i: int, j: int|
            0 <= i < j < self.roots@.len() ==> self.children@[#[trigger] self.roots@[i] as int]@.len()
                != self.children@[#[trigger] self.roots@[j] as int]@.len()
    }

    /// The heap is well formed and `best` is a root no later than any
    /// other.
    pub closed spec fn wf(&self) -> bool {
        &&& self.wf_forest()
        &&& (self.roots@.len() == 0 <==> self.best is None)
        &&& self.best matches Some(b) ==> self.roots@.contains(b) && forall|j: int|
            0 <= j < self.roots@.len() ==> self.k(b) <= self.k(#[trigger] self.roots@[j])
    }

    /// No live node comes before the best root.
    proof fn lemma_best_first(&self, x: usize)
        requires
            self.wf(),
            self.live@.contains(x),
        ensures
            self.best matches Some(b) && self.k(b) <= self.k(x),
    {
        reveal(FibonacciHeap::paths_ok);
        reveal(FibonacciHeap::path_ok);
        assert(self.path_ok(x));
        let p = self.paths@[x];
        assert(self.live@.contains(p[0]));
        let j = choose|j: int| 0 <= j < self.roots@.len() && self.roots@[j] == p[0];
        assert(self.k(p[0]) <= self.k(x));
    }

    /// An empty heap, smallest first unless `max`.
    pub fn new(max: bool) -> (r: Self)
        ensures
            r.wf(),
            r@ == Multiset::<i64>::empty(),
            r.descending() == max,
            r.slots() == 0,
    {
        let r = FibonacciHeap {
            items: Vec::new(),
            parent: Vec::new(),
            children: Vec::new(),
            roots: Vec::new(),
            best: None,
            size: 0,
            max,
            live: Ghost(Seq::empty()),
            paths: Ghost(Map::empty()),
        };
        proof {
            broadcast use vstd::seq_lib::group_to_multiset_ensures;

            reveal(FibonacciHeap::roots_ok);
            reveal(FibonacciHeap::children_ok);
            reveal(FibonacciHeap::paths_ok);
            assert(r@.len() == 0);
        }
        r
    }

    /// An empty heap, smallest first.
    pub fn new_min() -> (r: Self)
        ensures
            r.wf(),
            r@ == Multiset::<i64>::empty(),
            !r.descending(),
            r.slots() == 0,
    {
        FibonacciHeap::new(false)
    }

    /// An empty heap, largest first.
    pub fn new_max() -> (r: Self)
        ensures
            r.wf(),
            r@ == Multiset::<i64>::empty(),
            r.descending(),
            r.slots() == 0,
    {
        FibonacciHeap::new(true)
    }

    /// The number of keys.
    pub fn size(&self) -> (r: usize)
        requires
            self.wf(),
        ensures
            r == self@.len(),
    {
        broadcast use vstd::seq_lib::group_to_multiset_ensures;

        self.size
    }

    /// Removes every key.
    pub fn clear(&mut self)
        ensures
            final(self).wf(),
            final(self)@ == Multiset::<i64>::empty(),
            final(self).descending() == old(self).descending(),
            final(self).slots() == 0,
    {
        *self = FibonacciHeap::new(self.max);
    }

    /// Node `l` comes strictly before node `r`.
    fn better(&self, l: usize, r: usize) -> (b: bool)
        requires
            l < self.items@.len(),
            r < self.items@.len(),
        ensures
            b == (self.k(l) < self.k(r)),
    {
        self.items[l].key_precedes(&self.items[r], self.max)
    }

    /// Puts `node` in the root list, right after the first root, and makes
    /// it the best root when it comes strictly first.
    fn add_root(&mut self, node: usize)
        requires
            node < old(self).items@.len(),
            old(self).parent@.len() == old(self).items@.len(),
            !old(self).roots@.contains(node),
            old(self).roots@.len() > 0 ==> old(self).best is Some,
            old(self).best matches Some(b) ==> b < old(self).items@.len(),
        ensures
            final(self).roots@ == (if old(self).roots@.len() == 0 {
                seq![node]
            } else {
                old(self).roots@.insert(1, node)
            }),
            final(self).parent@ == old(self).parent@.update(node as int, None),
            final(self).best == (if old(self).roots@.len() == 0 {
                Some(node)
            } else if old(self).k(node) < old(self).k(old(self).best->0) {
                Some(node)
            } else {
                old(self).best
            }),
            final(self).items == old(self).items,
            final(self).children == old(self).children,
            final(self).size == old(self).size,
            final(self).max == old(self).max,
            final(self).live == old(self).live,
            final(self).paths == old(self).paths,
    {
        self.parent.set(node, None);
        if self.roots.len() == 0 {
            self.roots.push(node);
            self.best = Some(node);
        } else {
            self.roots.insert(1, node);
            match self.best {
                Some(b) => {
                    if self.better(node, b) {
                        self.best = Some(node);
                    }
                },
                None => {},
            }
        }
    }

    /// Takes `node` out of the root list and returns where it was.
    fn remove_root(&mut self, node: usize) -> (pos: usize)
        requires
            old(self).roots@.contains(node),
        ensures
            pos < old(self).roots@.len(),
            old(self).roots@[pos as int] == node,
            final(self).roots@ == old(self).roots@.remove(pos as int),
            final(self).items == old(self).items,
            final(self).parent == old(self).parent,
            final(self).children == old(self).children,
            final(self).best == old(self).best,
            final(self).size == old(self).size,
            final(self).max == old(self).max,
            final(self).live == old(self).live,
            final(self).paths == old(self).paths,
    {
        let mut pos: usize = 0;
        while pos < self.roots.len() && self.roots[pos] != node
            invariant
                pos <= self.roots@.len(),
                self.roots@.contains(node),
                forall|j: int| 0 <= j < pos ==> self.roots@[j] != node,
            decreases self.roots@.len() - pos,
        {
            pos = pos + 1;
        }
        proof {
            if pos == self.roots@.len() {
                let j = choose|j: int| 0 <= j < self.roots@.len() && self.roots@[j] == node;
                assert(self.roots@[j] != node);
            }
        }
        self.roots.remove(pos);
        pos
    }

    /// Adds `item` and returns the new size.
    pub fn push(&mut self, item: i64) -> (r: usize)
        requires
            old(self).wf(),
            old(self).slots() < usize::MAX,
        ensures
            final(self).wf(),
            final(self)@ == old(self)@.insert(item),
            final(self).descending() == old(self).descending(),
            final(self).slots() == old(self).slots() + 1,
            r == final(self)@.len(),
    {
        broadcast use vstd::seq_lib::group_to_multiset_ensures;

        let index = self.items.len();
        proof {
            assert(!self.live@.contains(index)) by {
                if self.live@.contains(index) {
                    let j = choose|j: int| 0 <= j < self.live@.len() && self.live@[j] == index;
                }
            }
            assert(!self.roots@.contains(index));
        }
        let ghost a = *self;
        self.items.push(item);
        self.parent.push(None);
        self.children.push(Vec::new());
        self.live = Ghost(self.live@.push(index));
        self.paths = Ghost(self.paths@.insert(index, seq![index]));
        self.add_root(index);
        self.size = self.size + 1;
        proof {
            assert(self.parent@ =~= a.parent@.push(None));
            assert(pushed(a, *self, index, item));
            lemma_push_wf(a, *self, index, item);
        }
        self.size
    }

    /// Hangs the root `child` below the root `p`, as the second child of
    /// `p` when it has one already; returns where `child` stood among the
    /// roots.
    fn link(&mut self, child: usize, p: usize) -> (pos: usize)
        requires
            old(self).wf_forest(),
            child != p,
            old(self).roots@.contains(child),
            old(self).roots@.contains(p),
            old(self).k(p) <= old(self).k(child),
        ensures
            linked(*old(self), *final(self), child, p, pos),
            final(self).wf_forest(),
    {
        let ghost a = *self;
        let pos = self.remove_root(child);
        self.parent.set(child, Some(p));
        proof {
            lemma_live_below(a, p);
            lemma_live_below(a, child);
        }
        let mut kids: Vec<usize> = Vec::new();
        std::mem::swap(&mut kids, &mut self.children[p]);
        let ghost k0 = kids@;
        if kids.len() == 0 {
            kids.push(child);
            assert(kids@ =~= seq![child]);
        } else {
            kids.insert(1, child);
        }
        let ghost k1 = kids@;
        assert(k1 == (if k0.len() == 0 {
            seq![child]
        } else {
            k0.insert(1, child)
        }));
        std::mem::swap(&mut kids, &mut self.children[p]);
        assert(self.children@[p as int]@ == k1);
        assert(k0 == a.children@[p as int]@);
        assert(forall|y: int| 0 <= y < a.children@.len() && y != p ==> self.children@[y] == a.children@[y]);
        let ghost old_paths = self.paths@;
        self.paths = Ghost(relinked(old_paths, child, p));
        proof {
            assert(self.parent@ == a.parent@.update(child as int, Some(p)));
            assert(self.roots@ == a.roots@.remove(pos as int));
            assert(self.items == a.items && self.live == a.live && self.size == a.size && self.best == a.best);
            assert(linked(a, *self, child, p, pos));
            lemma_link_wf(a, *self, child, p, pos);
        }
        pos
    }

    /// Merges roots of equal degree until no two roots have the same
    /// degree, then rebuilds the root list in order of degree and finds the
    /// best root again.
    fn consolidate(&mut self)
        requires
            old(self).wf_forest(),
            old(self).roots@.len() > 0,
        ensures
            final(self).wf(),
            final(self).consolidated(),
            final(self).items == old(self).items,
            final(self).live == old(self).live,
            final(self).size == old(self).size,
            final(self).max == old(self).max,
    {
        let snapshot = self.roots.clone();
        proof {
            assert(snapshot@ =~= self.roots@);
            assert(snapshot@.skip(0) =~= snapshot@);
        }
        let ghost snap = snapshot@;
        let mut by_degree: Vec<Option<usize>> = Vec::new();
        let mut j: usize = 0;
        while j < snapshot.len()
            invariant
                old(self).wf_forest(),
                self.wf_forest(),
                self.items == old(self).items,
                self.live == old(self).live,
                self.size == old(self).size,
                self.max == old(self).max,
                snap == snapshot@,
                snap == old(self).roots@,
                j <= snap.len(),
                distinct_slots(by_degree@),
                degree_slots(by_degree@, self.children@),
                forall|y: usize|
                    #[trigger] by_degree@.contains(Some(y)) ==> self.roots@.contains(y) && snap.take(j as int).contains(y),
                forall|r: usize|
                    #[trigger] self.roots@.contains(r) ==> by_degree@.contains(Some(r)) || snap.skip(j as int).contains(r),
            decreases snap.len() - j,
        {
            let mut node = snapshot[j];
            proof {
                lemma_step_take_skip(snap, j as int);
                lemma_live_below(*old(self), node);
            }
            if self.parent[node].is_none() {
                proof {
                    reveal(FibonacciHeap::roots_ok);
                    assert(self.roots@.contains(node));
                    if by_degree@.contains(Some(node)) {
                        let s = choose|s: int| 0 <= s < by_degree@.len() && by_degree@[s] == Some(node);
                        assert(snap.take(j as int).contains(node));
                    }
                }
                let mut placed = false;
                while !placed
                    invariant
                        self.wf_forest(),
                        self.items == old(self).items,
                        self.live == old(self).live,
                        self.size == old(self).size,
                        self.max == old(self).max,
                        snap == old(self).roots@,
                        j < snap.len(),
                        distinct_slots(by_degree@),
                        degree_slots(by_degree@, self.children@),
                        forall|y: usize|
                            #[trigger] by_degree@.contains(Some(y)) ==> self.roots@.contains(y) && snap.take(j + 1).contains(y),
                        forall|r: usize|
                            #[trigger] self.roots@.contains(r) ==> by_degree@.contains(Some(r)) || snap.skip(j + 1).contains(r)
                                || (!placed && r == node),
                        !placed ==> self.roots@.contains(node) && !by_degree@.contains(Some(node)) && snap.take(j + 1).contains(node),
                    decreases self.roots@.len() + (if placed { 0int } else { 1int }),
                {
                    proof {
                        lemma_live_below(*self, node);
                    }
                    let degree = self.children[node].len();
                    while by_degree.len() <= degree
                        invariant
                            distinct_slots(by_degree@),
                            degree_slots(by_degree@, self.children@),
                            forall|y: usize|
                                #[trigger] by_degree@.contains(Some(y)) ==> self.roots@.contains(y) && snap.take(j + 1).contains(y),
                            forall|r: usize|
                                #[trigger] self.roots@.contains(r) ==> by_degree@.contains(Some(r)) || snap.skip(j + 1).contains(r)
                                    || r == node,
                            !by_degree@.contains(Some(node)),
                        decreases degree + 1 - by_degree@.len(),
                    {
                        let ghost b0 = by_degree@;
                        by_degree.push(None);
                        proof {
                            lemma_push_facts(b0, None);
                            assert forall|s: int| 0 <= s < by_degree@.len() && (#[trigger] by_degree@[s]) is Some implies {
                                let y = by_degree@[s]->0;
                                (y as int) < self.children@.len() && self.children@[y as int]@.len() == s
                            } by {
                                assert(by_degree@[s] == b0[s]);
                            }
                            assert forall|r: usize| #[trigger] self.roots@.contains(r) implies by_degree@.contains(Some(r))
                                || snap.skip(j + 1).contains(r) || r == node by {
                                if b0.contains(Some(r)) {
                                    assert(by_degree@.contains(Some(r)));
                                }
                            }
                        }
                    }
                    let slot = by_degree[degree];
                    let ghost b0 = by_degree@;
                    by_degree.set(degree, None);
                    match slot {
                        None => {
                            by_degree.set(degree, Some(node));
                            placed = true;
                            proof {
                                assert(by_degree@ == b0.update(degree as int, Some(node)));
                                lemma_slots_update(b0, degree as int, Some(node));
                                assert forall|s: int| 0 <= s < by_degree@.len() && (#[trigger] by_degree@[s]) is Some implies {
                                    let y = by_degree@[s]->0;
                                    (y as int) < self.children@.len() && self.children@[y as int]@.len() == s
                                } by {
                                    if s != degree {
                                        assert(by_degree@[s] == b0[s]);
                                    }
                                }
                            }
                        },
                        Some(other) => {
                            proof {
                                assert(by_degree@ == b0.update(degree as int, None));
                                lemma_slots_update(b0, degree as int, None);
                                assert(b0[degree as int] == Some(other));
                                assert(b0.contains(Some(other)));
                                assert(self.roots@.contains(other));
                                assert(other != node);
                                assert(snap.take(j + 1).contains(other));
                            }
                            let ghost r0 = self.roots@;
                            let ghost c0 = self.children@;
                            let ghost h0 = *self;
                            proof {
                                assert forall|s: int| 0 <= s < by_degree@.len() && (#[trigger] by_degree@[s]) is Some implies {
                                    let y = by_degree@[s]->0;
                                    (y as int) < c0.len() && c0[y as int]@.len() == s
                                } by {
                                    assert(by_degree@[s] == b0[s]);
                                }
                                assert(!by_degree@.contains(Some(other)));
                            }
                            if self.better(other, node) {
                                let pos = self.link(node, other);
                                proof {
                                    lemma_remove_facts(r0, pos as int);
                                    lemma_degree_slots_kept(by_degree@, c0, self.children@, other);
                                }
                                node = other;
                            } else {
                                let pos = self.link(other, node);
                                proof {
                                    lemma_remove_facts(r0, pos as int);
                                    lemma_degree_slots_kept(by_degree@, c0, self.children@, node);
                                }
                            }
                        },
                    }
                }
            } else {
                proof {
                    reveal(FibonacciHeap::roots_ok);
                    assert(!self.roots@.contains(node));
                }
            }
            j = j + 1;
        }
        proof {
            assert(snap.skip(snap.len() as int) =~= Seq::<usize>::empty());
            assert forall|y: usize| self.roots@.contains(y) <==> #[trigger] by_degree@.contains(Some(y)) by {
                if by_degree@.contains(Some(y)) {
                    let s = choose|s: int| 0 <= s < by_degree@.len() && by_degree@[s] == Some(y);
                    assert(by_degree@[s] is Some);
                }
            }
        }
        self.rebuild_roots(&by_degree);
        proof {
            lemma_rebuilt_consolidated(*self, by_degree@);
        }
    }

    /// Empties the root list and adds back, in order, the roots held by
    /// `by_degree`, which are exactly the current roots.
    fn rebuild_roots(&mut self, by_degree: &Vec<Option<usize>>)
        requires
            old(self).wf_forest(),
            distinct_slots(by_degree@),
            forall|y: usize| old(self).roots@.contains(y) <==> #[trigger] by_degree@.contains(Some(y)),
        ensures
            final(self).wf(),
            final(self).items == old(self).items,
            final(self).live == old(self).live,
            final(self).size == old(self).size,
            final(self).max == old(self).max,
            final(self).children == old(self).children,
            final(self).roots@.no_duplicates(),
            forall|y: usize| #[trigger] final(self).roots@.contains(y) <==> by_degree@.contains(Some(y)),
    {
        let ghost a = *self;
        self.roots = Vec::new();
        self.best = None;
        let mut t: usize = 0;
        proof {
            assert(by_degree@.take(0) =~= Seq::<Option<usize>>::empty());
        }
        while t < by_degree.len()
            invariant
                a.wf_forest(),
                distinct_slots(by_degree@),
                forall|y: usize| a.roots@.contains(y) <==> #[trigger] by_degree@.contains(Some(y)),
                t <= by_degree@.len(),
                self.roots@.no_duplicates(),
                forall|y: usize| #[trigger] self.roots@.contains(y) <==> by_degree@.take(t as int).contains(Some(y)),
                self.roots@.len() == 0 <==> self.best is None,
                self.best matches Some(b) ==> self.roots@.contains(b) && forall|i: int|
                    0 <= i < self.roots@.len() ==> self.k(b) <= self.k(#[trigger] self.roots@[i]),
                self.parent@ == a.parent@,
                self.items == a.items,
                self.children == a.children,
                self.live == a.live,
                self.paths == a.paths,
                self.size == a.size,
                self.max == a.max,
            decreases by_degree@.len() - t,
        {
            proof {
                assert(by_degree@.take(t + 1) =~= by_degree@.take(t as int).push(by_degree@[t as int]));
                lemma_push_facts(by_degree@.take(t as int), by_degree@[t as int]);
            }
            match by_degree[t] {
                Some(x) => {
                    proof {
                        assert(by_degree@.contains(Some(x)));
                        assert(a.roots@.contains(x));
                        lemma_live_below(a, x);
                        reveal(FibonacciHeap::roots_ok);
                        assert(a.parent@[x as int] is None);
                        if by_degree@.take(t as int).contains(Some(x)) {
                            let s = choose|s: int| 0 <= s < t && by_degree@.take(t as int)[s] == Some(x);
                            assert(by_degree@[s] == by_degree@[t as int]);
                        }
                        if let Some(b) = self.best {
                            assert(by_degree@.take(t as int).contains(Some(b)));
                            let s = choose|s: int| 0 <= s < t && by_degree@.take(t as int)[s] == Some(b);
                            assert(by_degree@.contains(Some(b)));
                            lemma_live_below(a, b);
                        }
                    }
                    let ghost r0 = self.roots@;
                    let ghost best0 = self.best;
                    self.add_root(x);
                    proof {
                        assert(self.parent@ =~= a.parent@);
                        if r0.len() == 0 {
                            assert(self.roots@ =~= seq![x]);
                            lemma_push_facts(Seq::<usize>::empty(), x);
                            assert(seq![x] =~= Seq::<usize>::empty().push(x));
                        } else {
                            lemma_insert_facts(r0, 1, x);
                            let b = best0->0;
                            assert forall|i: int| 0 <= i < self.roots@.len() implies self.k(self.best->0) <= self.k(
                                #[trigger] self.roots@[i],
                            ) by {
                                if i >= 2 {
                                    assert(self.roots@[i] == r0[i - 1]);
                                } else if i == 0 {
                                    assert(self.roots@[i] == r0[0]);
                                }
                            }
                        }
                        assert forall|y: usize| #[trigger] self.roots@.contains(y) <==> by_degree@.take(t + 1).contains(
                            Some(y),
                        ) by {
                            assert(by_degree@.take(t + 1).contains(Some(y)) <==> by_degree@.take(t as int).contains(Some(y))
                                || Some(y) == by_degree@[t as int]);
                            assert(r0.contains(y) <==> by_degree@.take(t as int).contains(Some(y)));
                            if r0.len() == 0 {
                                assert(Seq::<usize>::empty().push(x).contains(y) <==> y == x);
                            }
                            assert(self.roots@.contains(y) <==> r0.contains(y) || y == x);
                        }
                    }
                },
                None => {},
            }
            t = t + 1;
        }
        proof {
            assert(by_degree@.take(by_degree@.len() as int) =~= by_degree@);
            lemma_same_roots(a, *self);
        }
    }

    /// Takes the first key off, if any: the children of the best root
    /// become roots, the best root goes, and the roots are consolidated.
    pub fn pop(&mut self) -> (r: Option<i64>)
        requires
            old(self).wf(),
        ensures
            final(self).wf(),
            final(self).descending() == old(self).descending(),
            final(self).slots() == old(self).slots(),
            old(self)@.len() == 0 ==> r is None && final(self)@ == old(self)@,
            old(self)@.len() > 0 ==> (r matches Some(x) && first_of(old(self).descending(), old(self)@, x)
                && final(self)@ == old(self)@.remove(x)),
            old(self)@.len() > 0 ==> final(self).consolidated(),
    {
        broadcast use vstd::seq_lib::group_to_multiset_ensures;

        let m = match self.best {
            None => {
                proof {
                    if self.live@.len() > 0 {
                        assert(self.live@.contains(self.live@[0]));
                        self.lemma_best_first(self.live@[0]);
                    }
                    assert(self.live@.map_values(|i: usize| self.items@[i as int]).len() == 0);
                }
                return None;
            },
            Some(m) => m,
        };
        proof {
            self.lemma_first(m);
            self.lemma_pop_start(m);
        }
        let item = self.items[m];
        let ghost a = *self;
        let mut kids: Vec<usize> = Vec::new();
        std::mem::swap(&mut kids, &mut self.children[m]);
        let ghost kv = kids@;
        let mut t: usize = 0;
        while t < kids.len()
            invariant
                a.wf(),
                a.best == Some(m),
                m < a.items@.len(),
                kv == kids@,
                kv == a.children@[m as int]@,
                kv.no_duplicates(),
                forall|y: usize| #[trigger] kv.contains(y) ==> y < a.items@.len() && !a.roots@.contains(y),
                t <= kv.len(),
                self.roots@.no_duplicates(),
                forall|y: usize| #[trigger] self.roots@.contains(y) <==> a.roots@.contains(y) || kv.take(t as int).contains(y),
                self.parent@.len() == a.parent@.len(),
                forall|y: usize|
                    y < a.parent@.len() ==> #[trigger] self.parent@[y as int] == (if kv.take(t as int).contains(y) {
                        None
                    } else {
                        a.parent@[y as int]
                    }),
                self.best is Some,
                self.best->0 < a.items@.len(),
                self.roots@.len() > 0,
                self.items == a.items,
                self.children@.len() == a.children@.len(),
                forall|y: int| 0 <= y < a.children@.len() && y != m ==> self.children@[y] == a.children@[y],
                self.live == a.live,
                self.paths == a.paths,
                self.size == a.size,
                self.max == a.max,
            decreases kv.len() - t,
        {
            let kid = kids[t];
            proof {
                assert(kv.contains(kid));
                lemma_step_take_skip(kv, t as int);
            }
            let ghost r0 = self.roots@;
            let ghost p0 = self.parent@;
            self.add_root(kid);
            proof {
                lemma_insert_facts(r0, 1, kid);
                assert forall|y: usize| y < a.parent@.len() implies #[trigger] self.parent@[y as int] == (if kv.take(t + 1).contains(
                    y,
                ) {
                    None
                } else {
                    a.parent@[y as int]
                }) by {
                    assert(p0[y as int] == (if kv.take(t as int).contains(y) {
                        None
                    } else {
                        a.parent@[y as int]
                    }));
                }
                lemma_live_below(a, m);
            }
            t = t + 1;
        }
        proof {
            assert(kv.take(kv.len() as int) =~= kv);
        }
        let ghost r1 = self.roots@;
        let posr = self.remove_root(m);
        proof {
            lemma_remove_facts(r1, posr as int);
        }
        let ghost posl = choose|j: int| 0 <= j < a.live@.len() && a.live@[j] == m;
        self.live = Ghost(self.live@.remove(posl));
        self.paths = Ghost(dropped(a.paths@, m));
        self.size = self.size - 1;
        proof {
            assert(popped(a, *self, m, kv, posl));
            lemma_pop_forest(a, *self, m, kv, posl);
        }
        if self.roots.len() > 0 {
            self.consolidate();
        } else {
            let ghost c = *self;
            self.best = None;
            proof {
                lemma_same_roots(c, *self);
            }
        }
        proof {
            assert(old(self)@.len() > 0);
        }
        Some(item)
    }

    /// Facts about the best root and its children before a pop.
    proof fn lemma_pop_start(&self, m: usize)
        requires
            self.wf(),
            self.best == Some(m),
        ensures
            m < self.items@.len(),
            self.children@[m as int]@.no_duplicates(),
            forall|y: usize| #[trigger] self.children@[m as int]@.contains(y) ==> y < self.items@.len() && !self.roots@.contains(y),
    {
        lemma_live_below(*self, m);
        reveal(FibonacciHeap::children_ok);
        reveal(FibonacciHeap::roots_ok);
        reveal(FibonacciHeap::paths_ok);
        assert forall|y: usize| #[trigger] self.children@[m as int]@.contains(y) implies y < self.items@.len() && !self.roots@.contains(y) by {
            let t = choose|t: int| 0 <= t < self.children@[m as int]@.len() && self.children@[m as int]@[t] == y;
            assert(self.parent@[self.children@[m as int]@[t] as int] == Some(m));
            lemma_live_below(*self, y);
        }
    }

    /// Takes every key off, first to last.
    pub fn consume(&mut self) -> (r: Vec<i64>)
        requires
            old(self).wf(),
        ensures
            final(self).wf(),
            final(self).descending() == old(self).descending(),
            final(self).slots() == old(self).slots(),
            final(self)@ == Multiset::<i64>::empty(),
            r@.to_multiset() == old(self)@,
            sorted_by(old(self).descending(), r@),
    {
        broadcast use vstd::seq_lib::group_to_multiset_ensures;
        broadcast use vstd::multiset::group_multiset_properties;

        let max = self.max;
        let mut array: Vec<i64> = Vec::new();
        proof {
            assert(array@.to_multiset() =~= Multiset::empty());
            assert(array@.to_multiset().add(self@) =~= self@);
        }
        let mut done = false;
        while !done
            invariant
                self.wf(),
                self.max == max,
                max == old(self).max,
                self.slots() == old(self).slots(),
                array@.to_multiset().add(self@) == old(self)@,
                sorted_by(max, array@),
                forall|i: int, y: i64|
                    #![trigger array@[i], self@.count(y)]
                    0 <= i < array@.len() && self@.count(y) > 0 ==> rank(max, array@[i]) <= rank(max, y),
                done ==> self@.len() == 0,
            decreases self@.len() + (if done { 0int } else { 1int }),
        {
            let ghost before = self@;
            let ghost a0 = array@;
            match self.pop() {
                Some(v) => {
                    array.push(v);
                    proof {
                        assert(array@ == a0.push(v));
                        vstd::seq_lib::to_multiset_build(a0, v);
                        assert(array@.to_multiset().add(self@) =~= a0.to_multiset().add(before));
                        assert forall|i: int, j: int| 0 <= i <= j < array@.len() implies rank(max, array@[i]) <= rank(
                            max,
                            array@[j],
                        ) by {
                            if j == array@.len() - 1 && i < j {
                                assert(before.count(v) > 0);
                                assert(rank(max, a0[i]) <= rank(max, v));
                            }
                        }
                        assert forall|i: int, y: i64|
                            #![trigger array@[i], self@.count(y)]
                            0 <= i < array@.len() && self@.count(y) > 0 implies rank(max, array@[i]) <= rank(max, y) by {
                            assert(before.contains(y));
                            if i < a0.len() {
                                assert(rank(max, a0[i]) <= rank(max, y));
                            }
                        }
                    }
                },
                None => {
                    done = true;
                },
            }
        }
        proof {
            assert(self@ =~= Multiset::empty());
            assert(array@.to_multiset() =~= array@.to_multiset().add(self@));
        }
        array
    }

    /// A heap with the same forest, built node by node.
    fn copy(&self) -> (r: Self)
        requires
            self.wf(),
        ensures
            r.wf(),
            r@ == self@,
            r.max == self.max,
            r.slots() == self.slots(),
    {
        let items = self.items.clone();
        let mut parent: Vec<Option<usize>> = Vec::new();
        let mut children: Vec<Vec<usize>> = Vec::new();
        let mut i: usize = 0;
        while i < self.items.len()
            invariant
                self.wf(),
                i <= self.items@.len(),
                parent@ == self.parent@.take(i as int),
                children@.len() == i,
                forall|y: int| 0 <= y < i ==> (#[trigger] children@[y])@ == self.children@[y]@,
            decreases self.items@.len() - i,
        {
            parent.push(self.parent[i]);
            children.push(self.children[i].clone());
            proof {
                assert(parent@ =~= self.parent@.take(i + 1));
            }
            i = i + 1;
        }
        let roots = self.roots.clone();
        let r = FibonacciHeap {
            items,
            parent,
            children,
            roots,
            best: self.best,
            size: self.size,
            max: self.max,
            live: Ghost(self.live@),
            paths: Ghost(self.paths@),
        };
        proof {
            assert(r.items@ =~= self.items@);
            assert(r.parent@ =~= self.parent@);
            assert(r.roots@ =~= self.roots@);
            lemma_copy(*self, r);
        }
        r
    }

    /// The keys, first to last, the heap unchanged.
    pub fn to_array(&self) -> (r: Vec<i64>)
        requires
            self.wf(),
        ensures
            r@.to_multiset() == self@,
            sorted_by(self.descending(), r@),
    {
        let mut copy = self.copy();
        copy.consume()
    }

    /// A heap of `items`, largest first when `max`.
    pub fn from_iter(items: Vec<i64>, max: bool) -> (r: Self)
        requires
            items@.len() < usize::MAX,
        ensures
            r.wf(),
            r@ == items@.to_multiset(),
            r.descending() == max,
    {
        broadcast use vstd::seq_lib::group_to_multiset_ensures;

        let mut heap = FibonacciHeap::new(max);
        let mut i: usize = 0;
        while i < items.len()
            invariant
                heap.wf(),
                heap.descending() == max,
                i <= items@.len(),
                items@.len() < usize::MAX,
                heap.slots() == i,
                heap@ == items@.take(i as int).to_multiset(),
            decreases items@.len() - i,
        {
            heap.push(items[i]);
            proof {
                assert(items@.take(i + 1) =~= items@.take(i as int).push(items@[i as int]));
                vstd::seq_lib::to_multiset_build(items@.take(i as int), items@[i as int]);
            }
            i = i + 1;
        }
        proof {
            assert(items@.take(items@.len() as int) =~= items@);
        }
        heap
    }

    /// The number of children of node `i` of the arena.
    pub closed spec fn degree(&self, i: int) -> nat {
        self.children@[i]@.len()
    }

    /// Once the roots have distinct degrees and two keys or more remain,
    /// some node has a child: the removal linked trees together.
    pub proof fn lemma_some_node_has_children(&self)
        requires
            self.wf(),
            self.consolidated(),
            self@.len() >= 2,
        ensures
            exists|i: int| 0 <= i < self.slots() && self.degree(i) > 0,
    {
        let live = self.live@;
        assert(live.len() >= 2) by {
            broadcast use vstd::seq_lib::group_to_multiset_ensures;

            assert(live.map_values(|i: usize| self.items@[i as int]).len() == live.len());
        }
        if self.roots@.len() >= 2 {
            lemma_two_roots(*self);
        } else {
            let x = if self.roots@.len() == 1 && self.roots@[0] == live[0] {
                live[1]
            } else {
                live[0]
            };
            assert(live.contains(live[0]));
            assert(live.contains(live[1]));
            assert(!self.roots@.contains(x)) by {
                if self.roots@.contains(x) {
                    let t = choose|t: int| 0 <= t < self.roots@.len() && self.roots@[t] == x;
                    assert(t == 0);
                }
            }
            lemma_non_root_parent(*self, x);
        }
    }

    /// The largest number of children of any node.
    pub fn max_degree(&self) -> (r: usize)
        requires
            self.wf(),
        ensures
            forall|i: int| 0 <= i < self.slots() ==> self.degree(i) <= r,
            r == 0 || exists|i: int| 0 <= i < self.slots() && self.degree(i) == r,
    {
        let mut best: usize = 0;
        let mut i: usize = 0;
        while i < self.children.len()
            invariant
                self.wf(),
                i <= self.children@.len(),
                forall|j: int| 0 <= j < i ==> self.degree(j) <= best,
                best == 0 || exists|j: int| 0 <= j < i && self.degree(j) == best,
            decreases self.children@.len() - i,
        {
            if self.children[i].len() > best {
                best = self.children[i].len();
                assert(self.degree(i as int) == best);
            }
            i = i + 1;
        }
        best
    }

    /// The first key, if any.
    pub fn peek(&self) -> (r: Option<&i64>)
        requires
            self.wf(),
        ensures
            r is None <==> self@.len() == 0,
            r matches Some(x) ==> first_of(self.descending(), self@, *x),
    {
        broadcast use vstd::seq_lib::group_to_multiset_ensures;

        match self.best {
            Some(b) => {
                proof {
                    self.lemma_first(b);
                }
                Some(&self.items[b])
            },
            None => {
                proof {
                    assert(self.roots@.len() == 0);
                    if self.live@.len() > 0 {
                        assert(self.live@.contains(self.live@[0]));
                        self.lemma_best_first(self.live@[0]);
                    }
                }
                None
            },
        }
    }

    /// The key of the best root comes first among all keys.
    proof fn lemma_first(&self, b: usize)
        requires
            self.wf(),
            self.best == Some(b),
        ensures
            b < self.items@.len(),
            first_of(self.max, self@, self.items@[b as int]),
            self.live@.contains(b),
    {
        broadcast use vstd::seq_lib::group_to_multiset_ensures;

        let vs = self.live@.map_values(|i: usize| self.items@[i as int]);
        assert(self.live@.contains(b));
        let jb = choose|j: int| 0 <= j < self.live@.len() && self.live@[j] == b;
        assert(vs[jb] == self.items@[b as int]);
        assert(vs.contains(self.items@[b as int]));
        assert forall|y: i64| self@.contains(y) implies rank(self.max, self.items@[b as int]) <= rank(self.max, y) by {
            assert(vs.contains(y));
            let j = choose|j: int| 0 <= j < vs.len() && vs[j] == y;
            assert(self.live@.contains(self.live@[j]));
            self.lemma_best_first(self.live@[j]);
        }
    }
}

/// The relation between a heap and the heap after a push of `item` at
/// the new node `index`.
spec fn pushed(a: FibonacciHeap, b: FibonacciHeap, index: usize, item: i64) -> bool {
    &&& index == a.items@.len()
    &&& b.items@ == a.items@.push(item)
    &&& b.parent@ == a.parent@.push(None)
    &&& b.children@.len() == a.children@.len() + 1
    &&& forall|y: int| 0 <= y < a.children@.len() ==> b.children@[y] == a.children@[y]
    &&& b.children@[index as int]@ == Seq::<usize>::empty()
    &&& b.live@ == a.live@.push(index)
    &&& b.paths@ == a.paths@.insert(index, seq![index])
    &&& b.roots@ == (if a.roots@.len() == 0 {
        seq![index]
    } else {
        a.roots@.insert(1, index)
    })
    &&& b.best == (if a.roots@.len() == 0 {
        Some(index)
    } else if b.k(index) < b.k(a.best->0) {
        Some(index)
    } else {
        a.best
    })
    &&& b.size == a.size + 1
    &&& b.max == a.max
}

/// Facts shared by the proofs about a push.
proof fn lemma_pushed_basics(a: FibonacciHeap, b: FibonacciHeap, index: usize, item: i64)
    requires
        a.wf(),
        pushed(a, b, index, item),
    ensures
        !a.live@.contains(index),
        !a.roots@.contains(index),
        forall|y: usize| #[trigger] b.live@.contains(y) <==> a.live@.contains(y) || y == index,
        forall|y: usize| #[trigger] b.roots@.contains(y) <==> a.roots@.contains(y) || y == index,
        b.roots@.no_duplicates(),
        b.live@.no_duplicates(),
        forall|x: usize| #[trigger] a.live@.contains(x) ==> x < a.items@.len() && b.k(x) == a.k(x) && b.children@[x as int]
            == a.children@[x as int] && b.parent@[x as int] == a.parent@[x as int],
{
    assert(!a.live@.contains(index)) by {
        if a.live@.contains(index) {
            let j = choose|j: int| 0 <= j < a.live@.len() && a.live@[j] == index;
        }
    }
    lemma_push_facts(a.live@, index);
    if a.roots@.len() == 0 {
        lemma_push_facts(Seq::<usize>::empty(), index);
        assert(seq![index] =~= Seq::<usize>::empty().push(index));
    } else {
        lemma_insert_facts(a.roots@, 1, index);
    }
    assert forall|x: usize| #[trigger] a.live@.contains(x) implies x < a.items@.len() && b.k(x) == a.k(x)
        && b.children@[x as int] == a.children@[x as int] && b.parent@[x as int] == a.parent@[x as int] by {
        let t = choose|t: int| 0 <= t < a.live@.len() && a.live@[t] == x;
    }
}

/// A pushed node joins the live nodes as a root of its own.
proof fn lemma_push_wf(a: FibonacciHeap, b: FibonacciHeap, index: usize, item: i64)
    requires
        a.wf(),
        pushed(a, b, index, item),
    ensures
        b.wf(),
        b@ == a@.insert(item),
{
    broadcast use vstd::seq_lib::group_to_multiset_ensures;

    lemma_pushed_basics(a, b, index, item);
    assert(b.live@.map_values(|i: usize| b.items@[i as int]) =~= a.live@.map_values(|i: usize| a.items@[i as int]).push(
        item,
    ));
    assert forall|j: int| 0 <= j < b.roots@.len() implies b.live@.contains(#[trigger] b.roots@[j]) by {
        assert(b.roots@.contains(b.roots@[j]));
    }
    assert forall|j: int| 0 <= j < b.live@.len() implies (#[trigger] b.live@[j]) < b.items@.len() by {
        if j < a.live@.len() {
            assert(b.live@[j] == a.live@[j]);
        }
    }
    lemma_push_roots(a, b, index, item);
    lemma_push_children(a, b, index, item);
    lemma_push_paths(a, b, index, item);
    if a.roots@.len() > 0 {
        let bb = a.best->0;
        assert(a.live@.contains(bb));
        assert forall|j: int| 0 <= j < b.roots@.len() implies b.k(b.best->0) <= b.k(#[trigger] b.roots@[j]) by {
            if j >= 2 {
                assert(b.roots@[j] == a.roots@[j - 1]);
            } else if j == 0 {
                assert(b.roots@[j] == a.roots@[0]);
            }
            assert(b.roots@.contains(b.roots@[j]));
        }
    }
}

proof fn lemma_push_roots(a: FibonacciHeap, b: FibonacciHeap, index: usize, item: i64)
    requires
        a.wf(),
        pushed(a, b, index, item),
    ensures
        b.roots_ok(),
{
    reveal(FibonacciHeap::roots_ok);
    lemma_pushed_basics(a, b, index, item);
}

proof fn lemma_push_children(a: FibonacciHeap, b: FibonacciHeap, index: usize, item: i64)
    requires
        a.wf(),
        pushed(a, b, index, item),
    ensures
        b.children_ok(),
{
    reveal(FibonacciHeap::children_ok);
    lemma_pushed_basics(a, b, index, item);
    assert forall|y: usize, t: int| b.live@.contains(y) && 0 <= t < b.children@[y as int]@.len() implies {
        let x = #[trigger] b.children@[y as int]@[t];
        b.live@.contains(x) && b.parent@[x as int] == Some(y)
    } by {
        if y != index {
            assert(b.children@[y as int]@[t] == a.children@[y as int]@[t]);
        }
    }
}

proof fn lemma_push_paths(a: FibonacciHeap, b: FibonacciHeap, index: usize, item: i64)
    requires
        a.wf(),
        pushed(a, b, index, item),
    ensures
        b.paths_ok(),
{
    reveal(FibonacciHeap::paths_ok);
    lemma_pushed_basics(a, b, index, item);
    assert forall|x: usize| #[trigger] b.live@.contains(x) implies b.path_ok(x) by {
        if x != index {
            assert(a.path_ok(x));
            lemma_push_path_kept(a, b, index, item, x);
        } else {
            reveal(FibonacciHeap::path_ok);
            let p = b.paths@[x];
            assert(p =~= seq![index]);
        }
    }
}

/// The path of a node that was live before a push is still good.
proof fn lemma_push_path_kept(a: FibonacciHeap, b: FibonacciHeap, index: usize, item: i64, x: usize)
    requires
        a.wf(),
        pushed(a, b, index, item),
        a.live@.contains(x),
        a.path_ok(x),
    ensures
        b.path_ok(x),
{
    reveal(FibonacciHeap::path_ok);
    lemma_pushed_basics(a, b, index, item);
    let p = b.paths@[x];
    assert(p == a.paths@[x]);
    assert forall|i: int| 0 <= i < p.len() implies b.live@.contains(#[trigger] p[i]) && b.k(p[i]) <= b.k(x) by {
        assert(a.live@.contains(p[i]));
    }
    assert forall|i: int| 1 <= i < p.len() implies b.children@[p[i - 1] as int]@.contains(#[trigger] p[i]) by {
        assert(a.live@.contains(p[i - 1]));
    }
}

/// Two roots of distinct degrees: one of them has a child.
proof fn lemma_two_roots(h: FibonacciHeap)
    requires
        h.shape(),
        h.consolidated(),
        h.roots@.len() >= 2,
    ensures
        exists|i: int| 0 <= i < h.slots() && h.degree(i) > 0,
{
    let r0 = h.roots@[0];
    let r1 = h.roots@[1];
    assert(h.children@[r0 as int]@.len() != h.children@[r1 as int]@.len());
    lemma_live_below(h, r0);
    lemma_live_below(h, r1);
    if h.degree(r0 as int) > 0 {
        assert(0 <= r0 < h.slots());
    } else {
        assert(h.degree(r1 as int) > 0);
        assert(0 <= r1 < h.slots());
    }
}

/// A live node that is not a root hangs below a node with a child.
proof fn lemma_non_root_parent(h: FibonacciHeap, x: usize)
    requires
        h.shape(),
        h.paths_ok(),
        h.live@.contains(x),
        !h.roots@.contains(x),
    ensures
        exists|i: int| 0 <= i < h.slots() && h.degree(i) > 0,
{
    reveal(FibonacciHeap::paths_ok);
    assert(h.path_ok(x));
    reveal(FibonacciHeap::path_ok);
    let p = h.paths@[x];
    let n = p.len() as int;
    assert(n >= 2) by {
        if n == 1 {
            assert(p[0] == x);
        }
    }
    let q = p[n - 2];
    assert(h.children@[q as int]@.contains(p[n - 1]));
    assert(h.live@.contains(q));
    lemma_live_below(h, q);
    assert(h.degree(q as int) > 0);
    assert(0 <= q < h.slots());
}

/// A live node is a position of the arena.
proof fn lemma_live_below(a: FibonacciHeap, x: usize)
    requires
        a.shape(),
        a.live@.contains(x) || a.roots@.contains(x),
    ensures
        x < a.items@.len(),
        a.live@.contains(x),
{
    if a.roots@.contains(x) {
        let j = choose|j: int| 0 <= j < a.roots@.len() && a.roots@[j] == x;
        assert(a.live@.contains(a.roots@[j]));
    }
    let t = choose|t: int| 0 <= t < a.live@.len() && a.live@[t] == x;
}

/// The relation between a heap and the heap after the root `c` was hung
/// below the root `p`.
spec fn linked(a: FibonacciHeap, b: FibonacciHeap, c: usize, p: usize, pos: usize) -> bool {
    &&& b.items == a.items
    &&& b.live == a.live
    &&& b.size == a.size
    &&& b.max == a.max
    &&& b.best == a.best
    &&& pos < a.roots@.len()
    &&& a.roots@[pos as int] == c
    &&& b.roots@ == a.roots@.remove(pos as int)
    &&& b.parent@ == a.parent@.update(c as int, Some(p))
    &&& b.children@.len() == a.children@.len()
    &&& forall|y: int| 0 <= y < a.children@.len() && y != p ==> b.children@[y] == a.children@[y]
    &&& b.children@[p as int]@ == (if a.children@[p as int]@.len() == 0 {
        seq![c]
    } else {
        a.children@[p as int]@.insert(1, c)
    })
    &&& b.paths@ == relinked(a.paths@, c, p)
}

/// The paths after the root `c` was hung below the root `p`: those that
/// started at `c` now start at `p`.
spec fn relinked(paths: Map<usize, Seq<usize>>, c: usize, p: usize) -> Map<usize, Seq<usize>> {
    Map::new(
        |x: usize| paths.contains_key(x),
        |x: usize|
            if paths[x][0] == c {
                seq![p] + paths[x]
            } else {
                paths[x]
            },
    )
}

/// Facts shared by the proofs about a link.
proof fn lemma_linked_basics(a: FibonacciHeap, b: FibonacciHeap, c: usize, p: usize, pos: usize)
    requires
        a.wf_forest(),
        c != p,
        a.roots@.contains(c),
        a.roots@.contains(p),
        linked(a, b, c, p, pos),
    ensures
        a.live@.contains(c),
        a.live@.contains(p),
        c < a.items@.len(),
        p < a.items@.len(),
        !a.children@[p as int]@.contains(c),
        forall|y: usize| #[trigger] b.roots@.contains(y) <==> a.roots@.contains(y) && y != c,
        b.roots@.no_duplicates(),
        forall|y: usize| #[trigger] b.children@[p as int]@.contains(y) <==> a.children@[p as int]@.contains(y) || y == c,
        b.children@[p as int]@.no_duplicates(),
        a.parent@[c as int] is None,
{
    lemma_live_below(a, c);
    lemma_live_below(a, p);
    reveal(FibonacciHeap::roots_ok);
    reveal(FibonacciHeap::children_ok);
    assert(a.parent@[c as int] is None);
    if a.children@[p as int]@.contains(c) {
        let t = choose|t: int| 0 <= t < a.children@[p as int]@.len() && a.children@[p as int]@[t] == c;
        assert(a.parent@[a.children@[p as int]@[t] as int] == Some(p));
    }
    lemma_remove_facts(a.roots@, pos as int);
    if a.children@[p as int]@.len() == 0 {
        lemma_push_facts(Seq::<usize>::empty(), c);
        assert(seq![c] =~= Seq::<usize>::empty().push(c));
    } else {
        lemma_insert_facts(a.children@[p as int]@, 1, c);
    }
}

/// Hanging a root below another with a key no later keeps the forest
/// well formed.
proof fn lemma_link_wf(a: FibonacciHeap, b: FibonacciHeap, c: usize, p: usize, pos: usize)
    requires
        a.wf_forest(),
        c != p,
        a.roots@.contains(c),
        a.roots@.contains(p),
        a.k(p) <= a.k(c),
        linked(a, b, c, p, pos),
    ensures
        b.wf_forest(),
{
    lemma_linked_basics(a, b, c, p, pos);
    assert forall|j: int| 0 <= j < b.roots@.len() implies b.live@.contains(#[trigger] b.roots@[j]) by {
        assert(b.roots@.contains(b.roots@[j]));
        let t = choose|t: int| 0 <= t < a.roots@.len() && a.roots@[t] == b.roots@[j];
        assert(a.live@.contains(a.roots@[t]));
    }
    assert(b.roots_ok()) by {
        reveal(FibonacciHeap::roots_ok);
    }
    assert(b.children_ok()) by {
        reveal(FibonacciHeap::children_ok);
        assert forall|y: usize, t: int| b.live@.contains(y) && 0 <= t < b.children@[y as int]@.len() implies {
            let x = #[trigger] b.children@[y as int]@[t];
            b.live@.contains(x) && b.parent@[x as int] == Some(y)
        } by {
            lemma_live_below(a, y);
            let x = b.children@[y as int]@[t];
            if y != p {
                assert(a.children@[y as int]@[t] == x);
                if x == c {
                    assert(a.parent@[x as int] == Some(y));
                }
            } else {
                assert(b.children@[p as int]@.contains(x));
                if x != c {
                    let u = choose|u: int| 0 <= u < a.children@[p as int]@.len() && a.children@[p as int]@[u] == x;
                    assert(a.parent@[a.children@[p as int]@[u] as int] == Some(p));
                }
            }
        }
        assert forall|y: usize| #[trigger] b.live@.contains(y) implies b.children@[y as int]@.no_duplicates() by {
            lemma_live_below(a, y);
        }
    }
    assert(b.paths_ok()) by {
        reveal(FibonacciHeap::paths_ok);
        assert forall|x: usize| #[trigger] b.live@.contains(x) implies b.path_ok(x) by {
            assert(a.path_ok(x));
            lemma_link_path(a, b, c, p, pos, x);
        }
    }
}

/// The path of each live node is still good after a link.
proof fn lemma_link_path(a: FibonacciHeap, b: FibonacciHeap, c: usize, p: usize, pos: usize, x: usize)
    requires
        a.wf_forest(),
        c != p,
        a.roots@.contains(c),
        a.roots@.contains(p),
        a.k(p) <= a.k(c),
        linked(a, b, c, p, pos),
        a.live@.contains(x),
        a.path_ok(x),
    ensures
        b.path_ok(x),
{
    reveal(FibonacciHeap::path_ok);
    lemma_linked_basics(a, b, c, p, pos);
    let q = a.paths@[x];
    let r = b.paths@[x];
    assert forall|y: usize| #[trigger] a.live@.contains(y) implies y < a.items@.len() by {
        lemma_live_below(a, y);
    }
    assert forall|y: usize| a.live@.contains(y) && 0 <= y < a.children@.len() implies (#[trigger] a.children@[y as int]@).len() <= b.children@[y as int]@.len() && forall|u: usize| a.children@[y as int]@.contains(u) ==> #[trigger] b.children@[y as int]@.contains(u) by {
        if y != p {
            assert(b.children@[y as int] == a.children@[y as int]);
        }
    }
    if q[0] == c {
        assert(r == seq![p] + q);
        assert(r[0] == p);
        assert(b.roots@.contains(p));
        assert(r.last() == x);
        assert forall|i: int| 0 <= i < r.len() implies b.live@.contains(#[trigger] r[i]) && b.k(r[i]) <= b.k(x) by {
            if i > 0 {
                assert(r[i] == q[i - 1]);
            } else {
                assert(a.k(q[0]) <= a.k(x));
            }
        }
        assert forall|i: int| 1 <= i < r.len() implies b.children@[r[i - 1] as int]@.contains(#[trigger] r[i]) by {
            if i == 1 {
                assert(r[1] == c);
            } else {
                assert(r[i] == q[i - 1] && r[i - 1] == q[i - 2]);
                assert(a.children@[q[i - 2] as int]@.contains(q[i - 1]));
                assert(a.live@.contains(q[i - 2]));
            }
        }
    } else {
        assert(r == q);
        assert forall|i: int| 1 <= i < r.len() implies b.children@[r[i - 1] as int]@.contains(#[trigger] r[i]) by {
            assert(a.children@[q[i - 1] as int]@.contains(q[i]));
            assert(a.live@.contains(q[i - 1]));
        }
    }
}

/// Each node held in a table of slots has as many children as the number
/// of its slot.
spec fn degree_slots(b: Seq<Option<usize>>, ch: Seq<Vec<usize>>) -> bool {
    forall|s: int|
        0 <= s < b.len() && (#[trigger] b[s]) is Some ==> {
            let y = b[s]->0;
            (y as int) < ch.len() && ch[y as int]@.len() == s
        }
}

/// Changing only the children of a node that no slot holds keeps the
/// slots matched to the degrees.
proof fn lemma_degree_slots_kept(b: Seq<Option<usize>>, c0: Seq<Vec<usize>>, c1: Seq<Vec<usize>>, p: usize)
    requires
        degree_slots(b, c0),
        !b.contains(Some(p)),
        c1.len() == c0.len(),
        forall|y: int| 0 <= y < c0.len() && y != p ==> c1[y] == c0[y],
    ensures
        degree_slots(b, c1),
{
    assert forall|s: int| 0 <= s < b.len() && (#[trigger] b[s]) is Some implies {
        let y = b[s]->0;
        (y as int) < c1.len() && c1[y as int]@.len() == s
    } by {
        let y = b[s]->0;
        if y == p {
            assert(b.contains(Some(p)));
        }
    }
}

/// Roots taken one from each slot of a table matched to the degrees have
/// distinct degrees.
proof fn lemma_rebuilt_consolidated(h: FibonacciHeap, b: Seq<Option<usize>>)
    requires
        degree_slots(b, h.children@),
        h.roots@.no_duplicates(),
        forall|y: usize| #[trigger] h.roots@.contains(y) <==> b.contains(Some(y)),
    ensures
        h.consolidated(),
{
    assert forall|i: int, j: int| 0 <= i < j < h.roots@.len() implies h.children@[#[trigger] h.roots@[i] as int]@.len()
        != h.children@[#[trigger] h.roots@[j] as int]@.len() by {
        let x = h.roots@[i];
        let y = h.roots@[j];
        assert(h.roots@.contains(x));
        assert(h.roots@.contains(y));
        let sx = choose|s: int| 0 <= s < b.len() && b[s] == Some(x);
        let sy = choose|s: int| 0 <= s < b.len() && b[s] == Some(y);
        assert(b[sx] is Some);
        assert(b[sy] is Some);
    }
}

/// No node is held twice in a table of slots.
spec fn distinct_slots(b: Seq<Option<usize>>) -> bool {
    forall|s1: int, s2: int| 0 <= s1 < s2 < b.len() && b[s1] is Some ==> b[s1] != b[s2]
}

/// What a table of distinct slots holds after slot `d` is set to `v`.
proof fn lemma_slots_update(b: Seq<Option<usize>>, d: int, v: Option<usize>)
    requires
        0 <= d < b.len(),
        distinct_slots(b),
    ensures
        forall|y: usize| #[trigger] b.update(d, v).contains(Some(y)) <==> (b.contains(Some(y)) && b[d] != Some(y)) || v
            == Some(y),
        (v is None || !b.contains(v)) ==> distinct_slots(b.update(d, v)),
{
    let c = b.update(d, v);
    assert forall|y: usize| #[trigger] c.contains(Some(y)) <==> (b.contains(Some(y)) && b[d] != Some(y)) || v == Some(y) by {
        if c.contains(Some(y)) {
            let s = choose|s: int| 0 <= s < c.len() && c[s] == Some(y);
            if s != d {
                assert(b[s] == Some(y));
                if b[d] == Some(y) {
                    if s < d {
                        assert(b[s] != b[d]);
                    } else {
                        assert(b[d] != b[s]);
                    }
                }
            }
        }
        if b.contains(Some(y)) && b[d] != Some(y) {
            let s = choose|s: int| 0 <= s < b.len() && b[s] == Some(y);
            assert(c[s] == Some(y));
        }
        if v == Some(y) {
            assert(c[d] == Some(y));
        }
    }
    if v is None || !b.contains(v) {
        assert forall|s1: int, s2: int| 0 <= s1 < s2 < c.len() && c[s1] is Some implies c[s1] != c[s2] by {
            if s1 == d {
                assert(c[s2] == b[s2]);
                assert(b.contains(b[s2]));
            } else if s2 == d {
                assert(c[s1] == b[s1]);
                assert(b.contains(b[s1]));
            }
        }
    }
}

/// Taking one more element of a sequence into its prefix.
proof fn lemma_step_take_skip(s: Seq<usize>, j: int)
    requires
        0 <= j < s.len(),
    ensures
        forall|y: usize| #[trigger] s.take(j + 1).contains(y) <==> s.take(j).contains(y) || y == s[j],
        forall|y: usize| #[trigger] s.skip(j).contains(y) <==> s.skip(j + 1).contains(y) || y == s[j],
        s.no_duplicates() ==> !s.take(j).contains(s[j]),
        forall|y: usize| #[trigger] s.take(j).contains(y) ==> s.take(j + 1).contains(y),
{
    assert(s.take(j + 1) =~= s.take(j).push(s[j]));
    lemma_push_facts(s.take(j), s[j]);
    assert(s.skip(j) =~= s.skip(j + 1).insert(0, s[j]));
    lemma_insert_facts(s.skip(j + 1), 0, s[j]);
    if s.no_duplicates() && s.take(j).contains(s[j]) {
        let t = choose|t: int| 0 <= t < j && s.take(j)[t] == s[j];
        assert(s[t] == s[j]);
    }
}

/// A heap whose root list holds the same nodes as that of a well-formed
/// forest is a well-formed forest too.
proof fn lemma_same_roots(a: FibonacciHeap, b: FibonacciHeap)
    requires
        a.wf_forest(),
        b.roots@.no_duplicates(),
        forall|y: usize| #[trigger] b.roots@.contains(y) <==> a.roots@.contains(y),
        b.items == a.items,
        b.parent@ == a.parent@,
        b.children == a.children,
        b.live == a.live,
        b.paths == a.paths,
        b.size == a.size,
        b.max == a.max,
    ensures
        b.wf_forest(),
{
    assert forall|j: int| 0 <= j < b.roots@.len() implies b.live@.contains(#[trigger] b.roots@[j]) by {
        assert(b.roots@.contains(b.roots@[j]));
        let t = choose|t: int| 0 <= t < a.roots@.len() && a.roots@[t] == b.roots@[j];
        assert(a.live@.contains(a.roots@[t]));
    }
    assert(b.roots_ok()) by {
        reveal(FibonacciHeap::roots_ok);
    }
    assert(b.children_ok()) by {
        reveal(FibonacciHeap::children_ok);
    }
    assert(b.paths_ok()) by {
        reveal(FibonacciHeap::paths_ok);
        assert forall|x: usize| #[trigger] b.live@.contains(x) implies b.path_ok(x) by {
            assert(a.path_ok(x));
            reveal(FibonacciHeap::path_ok);
        }
    }
}

/// The paths after the root `m` left: those that started at `m` now
/// start one node further down.
spec fn dropped(paths: Map<usize, Seq<usize>>, m: usize) -> Map<usize, Seq<usize>> {
    Map::new(
        |x: usize| paths.contains_key(x),
        |x: usize|
            if paths[x][0] == m {
                paths[x].drop_first()
            } else {
                paths[x]
            },
    )
}

/// The relation between a heap and the heap after its best root `m` left
/// and the children `kids` of `m` became roots.
spec fn popped(a: FibonacciHeap, b: FibonacciHeap, m: usize, kids: Seq<usize>, posl: int) -> bool {
    &&& b.items == a.items
    &&& b.max == a.max
    &&& b.size == a.size - 1
    &&& a.roots@.contains(m)
    &&& kids == a.children@[m as int]@
    &&& b.children@.len() == a.children@.len()
    &&& forall|y: int| 0 <= y < a.children@.len() && y != m ==> b.children@[y] == a.children@[y]
    &&& b.parent@.len() == a.parent@.len()
    &&& forall|y: usize|
        y < a.parent@.len() ==> #[trigger] b.parent@[y as int] == (if kids.contains(y) {
            None
        } else {
            a.parent@[y as int]
        })
    &&& b.roots@.no_duplicates()
    &&& forall|y: usize| #[trigger] b.roots@.contains(y) <==> (a.roots@.contains(y) && y != m) || kids.contains(y)
    &&& 0 <= posl < a.live@.len()
    &&& a.live@[posl] == m
    &&& b.live@ == a.live@.remove(posl)
    &&& b.paths@ == dropped(a.paths@, m)
}

/// Facts shared by the proofs about a pop.
proof fn lemma_popped_basics(a: FibonacciHeap, b: FibonacciHeap, m: usize, kids: Seq<usize>, posl: int)
    requires
        a.wf_forest(),
        popped(a, b, m, kids, posl),
    ensures
        m < a.items@.len(),
        a.parent@[m as int] is None,
        forall|y: usize| #[trigger] kids.contains(y) ==> a.live@.contains(y) && a.parent@[y as int] == Some(m) && y != m,
        forall|y: usize| #[trigger] b.live@.contains(y) <==> a.live@.contains(y) && y != m,
        forall|y: usize| #[trigger] a.live@.contains(y) ==> y < a.items@.len(),
        b.live@.no_duplicates(),
{
    lemma_live_below(a, m);
    reveal(FibonacciHeap::roots_ok);
    reveal(FibonacciHeap::children_ok);
    assert forall|y: usize| #[trigger] kids.contains(y) implies a.live@.contains(y) && a.parent@[y as int] == Some(m) && y != m by {
        let t = choose|t: int| 0 <= t < kids.len() && kids[t] == y;
        assert(a.children@[m as int]@[t] == y);
    }
    lemma_remove_facts(a.live@, posl);
    assert forall|y: usize| #[trigger] a.live@.contains(y) implies y < a.items@.len() by {
        lemma_live_below(a, y);
    }
}

/// After the best root leaves, the forest is still well formed and holds
/// the keys less that of the best root.
proof fn lemma_pop_forest(a: FibonacciHeap, b: FibonacciHeap, m: usize, kids: Seq<usize>, posl: int)
    requires
        a.wf_forest(),
        popped(a, b, m, kids, posl),
    ensures
        b.wf_forest(),
        b@ == a@.remove(a.items@[m as int]),
{
    broadcast use vstd::seq_lib::group_to_multiset_ensures;

    lemma_popped_basics(a, b, m, kids, posl);
    let av = a.live@.map_values(|i: usize| a.items@[i as int]);
    assert(b.live@.map_values(|i: usize| b.items@[i as int]) =~= av.remove(posl));
    vstd::seq_lib::to_multiset_remove(av, posl);
    assert forall|j: int| 0 <= j < b.live@.len() implies (#[trigger] b.live@[j]) < b.items@.len() by {
        assert(b.live@.contains(b.live@[j]));
    }
    assert forall|j: int| 0 <= j < b.roots@.len() implies b.live@.contains(#[trigger] b.roots@[j]) by {
        let y = b.roots@[j];
        assert(b.roots@.contains(y));
        if !kids.contains(y) {
            let t = choose|t: int| 0 <= t < a.roots@.len() && a.roots@[t] == y;
            assert(a.live@.contains(a.roots@[t]));
        }
    }
    assert(b.roots_ok()) by {
        reveal(FibonacciHeap::roots_ok);
        assert forall|x: usize| #[trigger] b.live@.contains(x) implies (b.parent@[x as int] is None <==> b.roots@.contains(x)) by {
            assert(b.parent@[x as int] == (if kids.contains(x) {
                None
            } else {
                a.parent@[x as int]
            }));
        }
    }
    assert(b.children_ok()) by {
        reveal(FibonacciHeap::children_ok);
        assert forall|y: usize, t: int| b.live@.contains(y) && 0 <= t < b.children@[y as int]@.len() implies {
            let x = #[trigger] b.children@[y as int]@[t];
            b.live@.contains(x) && b.parent@[x as int] == Some(y)
        } by {
            let x = b.children@[y as int]@[t];
            assert(a.children@[y as int]@[t] == x);
            lemma_live_below(a, x);
            assert(b.parent@[x as int] == (if kids.contains(x) {
                None
            } else {
                a.parent@[x as int]
            }));
        }
        assert forall|y: usize| #[trigger] b.live@.contains(y) implies b.children@[y as int]@.no_duplicates() by {
            assert(b.children@[y as int] == a.children@[y as int]);
        }
    }
    assert(b.paths_ok()) by {
        reveal(FibonacciHeap::paths_ok);
        assert forall|x: usize| #[trigger] b.live@.contains(x) implies b.path_ok(x) by {
            assert(a.path_ok(x));
            lemma_pop_path(a, b, m, kids, posl, x);
        }
    }
}

/// The path of each node left is still good after a pop.
proof fn lemma_pop_path(a: FibonacciHeap, b: FibonacciHeap, m: usize, kids: Seq<usize>, posl: int, x: usize)
    requires
        a.wf_forest(),
        popped(a, b, m, kids, posl),
        a.live@.contains(x),
        x != m,
        a.path_ok(x),
    ensures
        b.path_ok(x),
{
    reveal(FibonacciHeap::path_ok);
    lemma_popped_basics(a, b, m, kids, posl);
    let q = a.paths@[x];
    assert forall|i: int| 1 <= i < q.len() implies #[trigger] q[i] != m && a.parent@[q[i] as int] == Some(q[i - 1]) by {
        reveal(FibonacciHeap::children_ok);
        let z = q[i - 1];
        let cs = a.children@[z as int]@;
        assert(cs.contains(q[i]));
        assert(a.live@.contains(z));
        let t = choose|t: int| 0 <= t < cs.len() && cs[t] == q[i];
        assert(a.parent@[a.children@[z as int]@[t] as int] == Some(z));
    }
    let r = b.paths@[x];
    if q[0] == m {
        assert(q.len() >= 2) by {
            if q.len() == 1 {
                assert(q.last() == q[0]);
            }
        }
        assert(r == q.drop_first());
        assert(kids.contains(q[1])) by {
            assert(a.children@[q[0] as int]@.contains(q[1]));
        }
        assert(b.roots@.contains(r[0]));
        assert forall|i: int| 0 <= i < r.len() implies b.live@.contains(#[trigger] r[i]) && b.k(r[i]) <= b.k(x) by {
            assert(r[i] == q[i + 1]);
            assert(q[i + 1] != m);
        }
        assert forall|i: int| 1 <= i < r.len() implies b.children@[r[i - 1] as int]@.contains(#[trigger] r[i]) by {
            assert(r[i] == q[i + 1] && r[i - 1] == q[i]);
            assert(q[i] != m);
            assert(a.children@[q[i] as int]@.contains(q[i + 1]));
            lemma_live_below(a, q[i]);
        }
    } else {
        assert(r == q);
        assert(a.roots@.contains(q[0]));
        assert(b.roots@.contains(r[0]));
        assert forall|i: int| 0 <= i < r.len() implies b.live@.contains(#[trigger] r[i]) && b.k(r[i]) <= b.k(x) by {
            if i > 0 {
                assert(q[i] != m);
            }
        }
        assert forall|i: int| 1 <= i < r.len() implies b.children@[r[i - 1] as int]@.contains(#[trigger] r[i]) by {
            if i > 1 {
                assert(q[i - 1] != m);
            }
            assert(a.children@[q[i - 1] as int]@.contains(q[i]));
            lemma_live_below(a, q[i - 1]);
        }
    }
}

/// A heap whose fields have the same contents as those of a well-formed
/// heap is well formed and holds the same keys.
proof fn lemma_copy(a: FibonacciHeap, b: FibonacciHeap)
    requires
        a.wf(),
        b.items@ == a.items@,
        b.parent@ == a.parent@,
        b.children@.len() == a.children@.len(),
        forall|y: int| 0 <= y < a.children@.len() ==> (#[trigger] b.children@[y])@ == a.children@[y]@,
        b.roots@ == a.roots@,
        b.best == a.best,
        b.size == a.size,
        b.max == a.max,
        b.live == a.live,
        b.paths == a.paths,
    ensures
        b.wf(),
        b@ == a@,
{
    assert(b.live@.map_values(|i: usize| b.items@[i as int]) =~= a.live@.map_values(|i: usize| a.items@[i as int]));
    assert forall|y: usize| #[trigger] a.live@.contains(y) implies b.children@[y as int]@ == a.children@[y as int]@ by {
        lemma_live_below(a, y);
    }
    assert(b.roots_ok()) by {
        reveal(FibonacciHeap::roots_ok);
    }
    assert(b.children_ok()) by {
        reveal(FibonacciHeap::children_ok);
    }
    assert(b.paths_ok()) by {
        reveal(FibonacciHeap::paths_ok);
        assert forall|x: usize| #[trigger] b.live@.contains(x) implies b.path_ok(x) by {
            assert(a.path_ok(x));
            reveal(FibonacciHeap::path_ok);
            let p = a.paths@[x];
            assert forall|i: int| 1 <= i < p.len() implies b.children@[p[i - 1] as int]@.contains(#[trigger] p[i]) by {
                assert(a.live@.contains(p[i - 1]));
            }
        }
    }
}

} // verus!
