//! A disjoint-set forest over the integers `0..size`, with union by rank and
//! path compression.
use vstd::prelude::*;
use crate::id_map::{id_entries, ids_get, ids_insert, ids_len, ids_new, IdMap};

verus! {

/// `p` and `r` form a forest over `0..p.len()`: every parent is in range,
/// every rank is at most the number of elements, and ranks grow strictly
/// from a child to its parent.
pub open spec fn forest(p: Seq<usize>, r: Seq<usize>) -> bool {
    &&& p.len() == r.len()
    &&& forall|i: int| 0 <= i < p.len() ==> (#[trigger] p[i]) < p.len()
    &&& forall|i: int| 0 <= i < r.len() ==> (#[trigger] r[i]) <= r.len()
    &&& forall|i: int| 0 <= i < p.len() && p[i] != i ==> r[i] < #[trigger] r[p[i] as int]
}

/// The root reached from `x` by following parents.
pub open spec fn root_of(p: Seq<usize>, r: Seq<usize>, x: int) -> int
    decreases r.len() - r[x],
    when forest(p, r) && 0 <= x < p.len()
{
    if p[x] == x {
        x
    } else {
        root_of(p, r, p[x] as int)
    }
}

/// The number of roots among the indices `0..k`.
pub open spec fn count_roots(p: Seq<usize>, k: int) -> nat
    decreases k,
{
    if k <= 0 {
        0
    } else {
        count_roots(p, k - 1) + if p[k - 1] == k - 1 { 1nat } else { 0nat }
    }
}

/// The root of `x` is a root in range whose rank is at least that of `x`,
/// and strictly greater when `x` is not a root itself.
pub proof fn lemma_root_props(p: Seq<usize>, r: Seq<usize>, x: int)
    requires
        forest(p, r),
        0 <= x < p.len(),
    ensures
        0 <= root_of(p, r, x) < p.len(),
        p[root_of(p, r, x)] == root_of(p, r, x),
        r[x] <= r[root_of(p, r, x)],
        root_of(p, r, x) != x ==> r[x] < r[root_of(p, r, x)],
        p[x] == x ==> root_of(p, r, x) == x,
        p[x] != x ==> root_of(p, r, x) == root_of(p, r, p[x] as int),
    decreases r.len() - r[x],
{
    if p[x] != x {
        lemma_root_props(p, r, p[x] as int);
    }
}

/// Pointing `c` straight at its own root keeps a forest and every root.
proof fn lemma_compress_at(p: Seq<usize>, r: Seq<usize>, c: int, y: int)
    requires
        forest(p, r),
        0 <= c < p.len(),
        0 <= y < p.len(),
        forest(p.update(c, root_of(p, r, c) as usize), r),
    ensures
        root_of(p.update(c, root_of(p, r, c) as usize), r, y) == root_of(p, r, y),
    decreases r.len() - r[y],
{
    let root = root_of(p, r, c);
    let p2 = p.update(c, root as usize);
    lemma_root_props(p, r, c);
    lemma_root_props(p, r, y);
    lemma_root_props(p2, r, y);
    if y == c {
        lemma_root_props(p2, r, root);
        if root != c {
            assert(p2[root] == root);
        }
    } else if p[y] != y {
        lemma_compress_at(p, r, c, p[y] as int);
    }
}

/// Path compression of one node keeps a forest and leaves every root unchanged.
pub proof fn lemma_compress(p: Seq<usize>, r: Seq<usize>, c: int)
    requires
        forest(p, r),
        0 <= c < p.len(),
    ensures
        forest(p.update(c, root_of(p, r, c) as usize), r),
        forall|y: int|
            0 <= y < p.len() ==> #[trigger] root_of(p.update(c, root_of(p, r, c) as usize), r, y)
                == root_of(p, r, y),
{
    let root = root_of(p, r, c);
    lemma_root_props(p, r, c);
    let p2 = p.update(c, root as usize);
    assert forall|i: int| 0 <= i < p2.len() && p2[i] != i implies r[i] < #[trigger] r[p2[i] as int] by {
        if i == c {
        } else {
        }
    }
    assert forall|y: int| 0 <= y < p.len() implies #[trigger] root_of(p2, r, y) == root_of(p, r, y) by {
        lemma_compress_at(p, r, c, y);
    }
}

/// Attaching the root `c` under the root `q` (with `r2` the ranks after the
/// link) sends every element of `c`'s tree to `q` and leaves the others.
proof fn lemma_link_at(p: Seq<usize>, r: Seq<usize>, r2: Seq<usize>, c: int, q: int, y: int)
    requires
        forest(p, r),
        0 <= c < p.len(),
        0 <= q < p.len(),
        c != q,
        p[c] == c,
        p[q] == q,
        forest(p.update(c, q as usize), r2),
        forall|i: int| 0 <= i < r.len() && i != q ==> r2[i] == r[i],
        r[q] <= r2[q],
        0 <= y < p.len(),
    ensures
        root_of(p.update(c, q as usize), r2, y) == if root_of(p, r, y) == c {
            q
        } else {
            root_of(p, r, y)
        },
    decreases r.len() - r[y],
{
    let p2 = p.update(c, q as usize);
    lemma_root_props(p, r, y);
    lemma_root_props(p2, r2, y);
    if y == c {
        lemma_root_props(p2, r2, q);
    } else if p[y] != y {
        lemma_link_at(p, r, r2, c, q, p[y] as int);
    }
}

/// Roots counted after one parent changes.
proof fn lemma_count_roots_update(p: Seq<usize>, k: int, n: int, v: usize)
    requires
        0 <= k < p.len(),
        0 <= n <= p.len(),
        v != k,
    ensures
        k >= n ==> count_roots(p.update(k, v), n) == count_roots(p, n),
        k < n && p[k] == k ==> count_roots(p.update(k, v), n) + 1 == count_roots(p, n),
        k < n && p[k] != k ==> count_roots(p.update(k, v), n) == count_roots(p, n),
    decreases n,
{
    if n > 0 {
        lemma_count_roots_update(p, k, n - 1, v);
    }
}

/// The roots among the indices `0..k`.
pub open spec fn roots_below(p: Seq<usize>, k: int) -> Set<int> {
    Set::new(|y: int| 0 <= y < k && p[y] as int == y)
}

/// The roots below `k` are as many as `count_roots` counts.
proof fn lemma_roots_below(p: Seq<usize>, k: int)
    requires
        0 <= k <= p.len(),
    ensures
        roots_below(p, k).finite(),
        roots_below(p, k).len() == count_roots(p, k),
    decreases k,
{
    if k == 0 {
        assert(roots_below(p, 0) =~= Set::<int>::empty());
    } else {
        lemma_roots_below(p, k - 1);
        if p[k - 1] == k - 1 {
            assert(roots_below(p, k) =~= roots_below(p, k - 1).insert(k - 1));
        } else {
            assert(roots_below(p, k) =~= roots_below(p, k - 1));
        }
    }
}

/// Every index of the identity sequence is a root.
proof fn lemma_count_roots_identity(p: Seq<usize>, n: int)
    requires
        0 <= n <= p.len(),
        forall|i: int| 0 <= i < p.len() ==> #[trigger] p[i] == i,
    ensures
        count_roots(p, n) == n,
    decreases n,
{
    if n > 0 {
        lemma_count_roots_identity(p, n - 1);
    }
}

/// Numbers the classes of `reps` in order of first appearance: the
/// number of each position's class, the positions of each class in order,
/// and the number given to each representative.
pub open spec fn number_classes(reps: Seq<usize>) -> (Seq<usize>, Seq<Seq<usize>>, Map<usize, usize>)
    decreases reps.len(),
{
    if reps.len() == 0 {
        (Seq::empty(), Seq::empty(), Map::empty())
    } else {
        let prev = number_classes(reps.drop_last());
        let r = reps.last();
        let i = (reps.len() - 1) as usize;
        if prev.2.dom().contains(r) {
            let id = prev.2[r];
            (prev.0.push(id), prev.1.update(id as int, prev.1[id as int].push(i)), prev.2)
        } else {
            let id = prev.1.len() as usize;
            (prev.0.push(id), prev.1.push(seq![i]), prev.2.insert(r, id))
        }
    }
}

/// The classes numbered so far are as many as the representatives seen,
/// and every number names one of them.
pub proof fn lemma_number_classes(reps: Seq<usize>)
    requires
        reps.len() <= usize::MAX,
    ensures
        number_classes(reps).2.dom().finite(),
        number_classes(reps).2.dom().len() == number_classes(reps).1.len(),
        number_classes(reps).1.len() <= reps.len(),
        number_classes(reps).0.len() == reps.len(),
        forall|r: usize| #[trigger] number_classes(reps).2.dom().contains(r) ==> number_classes(reps).2[r] < number_classes(reps).1.len(),
    decreases reps.len(),
{
    if reps.len() > 0 {
        lemma_number_classes(reps.drop_last());
        let prev = number_classes(reps.drop_last());
        if !prev.2.dom().contains(reps.last()) {
            assert(prev.2.insert(reps.last(), prev.1.len() as usize).dom() =~= prev.2.dom().insert(reps.last()));
        }
    }
}

/// A static disjoint-set structure over `0..size`.
#[derive(Debug, Clone)]
pub struct StaticDisjointSet {
    size: usize,
    dimension: usize,
    parents: Vec<usize>,
    ranks: Vec<usize>,
}

impl StaticDisjointSet {
    /// The internal invariant: a ranked forest whose number of roots is the
    /// dimension, with every rank plus the dimension at most the size.
    pub closed spec fn wf(&self) -> bool {
        &&& self.parents@.len() == self.size
        &&& forest(self.parents@, self.ranks@)
        &&& self.dimension == count_roots(self.parents@, self.size as int)
        &&& forall|i: int|
            0 <= i < self.ranks@.len() ==> #[trigger] self.ranks@[i] + self.dimension <= self.size
    }

    /// The number of elements.
    pub closed spec fn len(&self) -> nat {
        self.size as nat
    }

    /// The number of disjoint sets.
    pub closed spec fn classes(&self) -> nat {
        self.dimension as nat
    }

    /// The representative of the set holding `x`.
    pub closed spec fn rep(&self, x: int) -> int {
        root_of(self.parents@, self.ranks@, x)
    }

    /// `x` and `y` lie in the same set.
    pub open spec fn same_set(&self, x: int, y: int) -> bool {
        self.rep(x) == self.rep(y)
    }

    /// The representative of every element is an element that represents
    /// itself.
    pub proof fn lemma_rep_in_range(&self, x: int)
        requires
            self.wf(),
            0 <= x < self.len(),
        ensures
            0 <= self.rep(x) < self.len(),
            self.rep(self.rep(x)) == self.rep(x),
    {
        lemma_root_props(self.parents@, self.ranks@, x);
        lemma_root_props(self.parents@, self.ranks@, self.rep(x));
    }

    /// The representatives of the elements.
    pub open spec fn rep_set(&self) -> Set<int> {
        Set::new(|y: int| exists|x: int| 0 <= x < self.len() && #[trigger] self.rep(x) == y)
    }

    /// The number of disjoint sets is the number of distinct
    /// representatives.
    pub proof fn lemma_classes_are_reps(&self)
        requires
            self.wf(),
        ensures
            self.rep_set().finite(),
            self.classes() == self.rep_set().len(),
            self.classes() <= self.len(),
            self.len() > 0 ==> self.classes() >= 1,
    {
        let p = self.parents@;
        let r = self.ranks@;
        let n = self.size as int;
        assert forall|y: int| #[trigger] self.rep_set().contains(y) <==> roots_below(p, n).contains(y) by {
            if self.rep_set().contains(y) {
                let x = choose|x: int| 0 <= x < self.len() && #[trigger] self.rep(x) == y;
                lemma_root_props(p, r, x);
            }
            if roots_below(p, n).contains(y) {
                lemma_root_props(p, r, y);
                assert(self.rep(y) == y);
            }
        }
        assert(self.rep_set() =~= roots_below(p, n));
        lemma_roots_below(p, n);
        vstd::set_lib::lemma_int_range(0, n);
        assert(roots_below(p, n).subset_of(vstd::set_lib::set_int_range(0, n)));
        vstd::set_lib::lemma_len_subset(roots_below(p, n), vstd::set_lib::set_int_range(0, n));
        if n > 0 {
            assert(self.rep_set().contains(self.rep(0)));
            vstd::set_lib::lemma_set_empty_equivalency_len(self.rep_set());
        }
    }

    /// Belonging to the same set is an equivalence relation.
    pub proof fn lemma_same_set_equivalence(&self, a: int, b: int, c: int)
        ensures
            self.same_set(a, a),
            self.same_set(a, b) ==> self.same_set(b, a),
            self.same_set(a, b) && self.same_set(b, c) ==> self.same_set(a, c),
    {
    }

    /// `size` singleton sets.
    pub fn new(size: usize) -> (r: Self)
        ensures
            r.wf(),
            r.len() == size,
            r.classes() == size,
            forall|x: int| 0 <= x < size ==> #[trigger] r.rep(x) == x,
    {
        let mut parents: Vec<usize> = Vec::new();
        let mut ranks: Vec<usize> = Vec::new();
        let mut i: usize = 0;
        while i < size
            invariant
                i <= size,
                parents@.len() == i,
                ranks@.len() == i,
                forall|j: int| 0 <= j < i ==> #[trigger] parents@[j] == j,
                forall|j: int| 0 <= j < i ==> #[trigger] ranks@[j] == 0,
            decreases size - i,
        {
            parents.push(i);
            ranks.push(0);
            i = i + 1;
        }
        let r = StaticDisjointSet { size, dimension: size, parents, ranks };
        proof {
            lemma_count_roots_identity(r.parents@, size as int);
            assert forall|x: int| 0 <= x < size implies #[trigger] r.rep(x) == x by {
                lemma_root_props(r.parents@, r.ranks@, x);
            }
        }
        r
    }

    /// The number of elements.
    pub fn size(&self) -> (r: usize)
        ensures
            r == self.len(),
    {
        self.size
    }

    /// The number of disjoint sets.
    pub fn dimension(&self) -> (r: usize)
        ensures
            r == self.classes(),
    {
        self.dimension
    }

    /// The representative of `x`'s set. Every path walked is compressed,
    /// which leaves every set and representative unchanged.
    pub fn find(&mut self, x: usize) -> (root: usize)
        requires
            old(self).wf(),
            x < old(self).len(),
        ensures
            final(self).wf(),
            final(self).len() == old(self).len(),
            final(self).classes() == old(self).classes(),
            root == old(self).rep(x as int),
            forall|y: int| 0 <= y < old(self).len() ==> #[trigger] final(self).rep(y) == old(self).rep(y),
    {
        let ghost p0 = self.parents@;
        let ghost r0 = self.ranks@;
        let mut y = x;
        proof {
            lemma_root_props(p0, r0, x as int);
        }
        while self.parents[y] != y
            invariant
                self.wf(),
                self.parents@ == p0,
                self.ranks@ == r0,
                x < self.size,
                y < self.size,
                root_of(p0, r0, y as int) == root_of(p0, r0, x as int),
            decreases r0.len() - r0[y as int],
        {
            proof {
                lemma_root_props(p0, r0, y as int);
            }
            y = self.parents[y];
        }
        proof {
            lemma_root_props(p0, r0, y as int);
        }
        let root = y;
        let mut current = x;
        while self.parents[current] != root
            invariant
                self.wf(),
                self.ranks@ == r0,
                self.size == p0.len(),
                self.dimension == count_roots(p0, p0.len() as int),
                current < self.size,
                root < self.size,
                root == root_of(p0, r0, x as int),
                root_of(self.parents@, r0, current as int) == root,
                forall|z: int|
                    0 <= z < self.size ==> #[trigger] root_of(self.parents@, r0, z) == root_of(
                        p0,
                        r0,
                        z,
                    ),
            decreases r0.len() - r0[current as int],
        {
            let parent = self.parents[current];
            let ghost pc = self.parents@;
            proof {
                lemma_root_props(pc, r0, current as int);
                lemma_compress(pc, r0, current as int);
                lemma_count_roots_update(pc, current as int, pc.len() as int, root);
            }
            self.parents.set(current, root);
            proof {
                assert(self.parents@ == pc.update(current as int, root));
                lemma_root_props(pc, r0, parent as int);
            }
            current = parent;
        }
        root
    }

    /// Merges the sets of `x` and `y`.
    pub fn union(&mut self, x: usize, y: usize)
        requires
            old(self).wf(),
            x < old(self).len(),
            y < old(self).len(),
        ensures
            final(self).wf(),
            final(self).len() == old(self).len(),
            old(self).same_set(x as int, y as int) ==> final(self).classes() == old(self).classes(),
            !old(self).same_set(x as int, y as int) ==> final(self).classes() + 1
                == old(self).classes(),
            final(self).same_set(x as int, y as int),
            forall|a: int, b: int|
                0 <= a < old(self).len() && 0 <= b < old(self).len() && old(self).same_set(a, b)
                    ==> #[trigger] final(self).same_set(a, b),
            forall|a: int, b: int|
                0 <= a < old(self).len() && 0 <= b < old(self).len() ==> (#[trigger] final(self).same_set(a, b)
                    <==> (old(self).same_set(a, b)
                        || (old(self).same_set(a, x as int) && old(self).same_set(b, y as int))
                        || (old(self).same_set(a, y as int) && old(self).same_set(b, x as int)))),
    {
        let ghost old_self = *self;
        let x_root = self.find(x);
        let ghost first = *self;
        let y_root = self.find(y);
        let ghost mid = *self;
        proof {
            assert(mid.rep(x as int) == first.rep(x as int));
            assert(first.rep(y as int) == old_self.rep(y as int));
            assert forall|z: int| 0 <= z < old_self.len() implies #[trigger] mid.rep(z) == old_self.rep(z) by {
                assert(mid.rep(z) == first.rep(z));
                assert(first.rep(z) == old_self.rep(z));
            }
        }
        if x_root == y_root {
            return;
        }
        let ghost p = self.parents@;
        let ghost r = self.ranks@;
        proof {
            lemma_root_props(p, r, x as int);
            lemma_root_props(p, r, y as int);
            assert(mid.rep(y as int) == old_self.rep(y as int));
            assert(y_root as int == first.rep(y as int));
            assert(x_root as int == root_of(p, r, x as int));
            assert(y_root as int == root_of(p, r, y as int));
            assert(r.len() == self.size);
        }
        if self.ranks[x_root] < self.ranks[y_root] {
            self.link(x_root, y_root, false);
        } else if self.ranks[x_root] > self.ranks[y_root] {
            self.link(y_root, x_root, false);
        } else {
            self.link(y_root, x_root, true);
        }
        proof {
            assert forall|a: int, b: int|
                0 <= a < old_self.len() && 0 <= b < old_self.len() implies (#[trigger] self.same_set(a, b)
                    <==> (old_self.same_set(a, b)
                        || (old_self.same_set(a, x as int) && old_self.same_set(b, y as int))
                        || (old_self.same_set(a, y as int) && old_self.same_set(b, x as int)))) by {
                assert(mid.rep(a) == old_self.rep(a));
                assert(mid.rep(b) == old_self.rep(b));
                lemma_root_props(p, r, a);
                lemma_root_props(p, r, b);
            }
        }
    }

    /// Attaches the root `child` under the root `parent`, raising the
    /// parent's rank when `bump` is set.
    fn link(&mut self, child: usize, parent: usize, bump: bool)
        requires
            old(self).wf(),
            child < old(self).len(),
            parent < old(self).len(),
            child != parent,
            old(self).parents@[child as int] == child,
            old(self).parents@[parent as int] == parent,
            bump ==> old(self).ranks@[child as int] == old(self).ranks@[parent as int],
            !bump ==> old(self).ranks@[child as int] < old(self).ranks@[parent as int],
        ensures
            final(self).wf(),
            final(self).len() == old(self).len(),
            final(self).classes() + 1 == old(self).classes(),
            forall|z: int| 0 <= z < old(self).len() ==> #[trigger] final(self).rep(z)
                == if old(self).rep(z) == child { parent as int } else { old(self).rep(z) },
    {
        let ghost p = self.parents@;
        let ghost r = self.ranks@;
        proof {
            lemma_count_roots_update(p, child as int, p.len() as int, parent);
        }
        self.parents.set(child, parent);
        if bump {
            let rank = self.ranks[parent];
            self.ranks.set(parent, rank + 1);
        }
        self.dimension = self.dimension - 1;
        proof {
            let p2 = self.parents@;
            let r2 = self.ranks@;
            assert(p2 == p.update(child as int, parent));
            assert forall|i: int| 0 <= i < r2.len() implies #[trigger] r2[i] + self.dimension
                <= self.size by {
                if i == parent as int {
                } else {
                    assert(r2[i] == r[i]);
                }
            }
            assert(forest(p2, r2));
            assert forall|z: int| 0 <= z < old(self).len() implies #[trigger] self.rep(z)
                == if old(self).rep(z) == child { parent as int } else { old(self).rep(z) } by {
                lemma_link_at(p, r, r2, child as int, parent as int, z);
            }
        }
    }

    /// The representatives of the elements, in order.
    pub closed spec fn reps(&self) -> Seq<usize> {
        Seq::new(self.size as nat, |x: int| self.rep(x) as usize)
    }

    /// The number of each element's set, the sets numbered in order of
    /// their first element.
    pub fn mapping(&mut self) -> (r: Vec<usize>)
        requires
            old(self).wf(),
        ensures
            final(self).wf(),
            final(self).len() == old(self).len(),
            final(self).classes() == old(self).classes(),
            forall|z: int| 0 <= z < old(self).len() ==> #[trigger] final(self).rep(z) == old(self).rep(z),
            r@ == number_classes(old(self).reps()).0,
    {
        let ghost reps = self.reps();
        let mut ids = ids_new();
        let mut mapping: Vec<usize> = Vec::new();
        let n = self.size;
        let mut i: usize = 0;
        proof {
            assert(reps.take(0) =~= Seq::<usize>::empty());
        }
        while i < n
            invariant
                self.wf(),
                n == self.len(),
                self.len() == old(self).len(),
                self.classes() == old(self).classes(),
                forall|z: int| 0 <= z < old(self).len() ==> #[trigger] self.rep(z) == old(self).rep(z),
                reps == old(self).reps(),
                old(self).wf(),
                i <= n,
                mapping@ == number_classes(reps.take(i as int)).0,
                id_entries(ids) == number_classes(reps.take(i as int)).2,
            decreases n - i,
        {
            let root = self.find(i);
            proof {
                assert(reps.take(i + 1).drop_last() =~= reps.take(i as int));
                assert(reps.take(i + 1).last() == reps[i as int]);
                old(self).lemma_rep_in_range(i as int);
                assert(root == reps[i as int]);
                lemma_number_classes(reps.take(i as int));
            }
            let next = ids_len(&ids);
            let id = match ids_get(&ids, root) {
                Some(v) => v,
                None => {
                    let _ = ids_insert(&mut ids, root, next);
                    next
                },
            };
            mapping.push(id);
            i = i + 1;
        }
        proof {
            assert(reps.take(n as int) =~= reps);
        }
        mapping
    }

    /// The elements of each set, in order, the sets in order of their first
    /// element.
    pub fn compile(&mut self) -> (r: Vec<Vec<usize>>)
        requires
            old(self).wf(),
        ensures
            final(self).wf(),
            final(self).len() == old(self).len(),
            final(self).classes() == old(self).classes(),
            forall|z: int| 0 <= z < old(self).len() ==> #[trigger] final(self).rep(z) == old(self).rep(z),
            r@.map_values(|v: Vec<usize>| v@) == number_classes(old(self).reps()).1,
    {
        let ghost reps = self.reps();
        let mut ids = ids_new();
        let mut result: Vec<Vec<usize>> = Vec::new();
        let n = self.size;
        let mut i: usize = 0;
        proof {
            assert(reps.take(0) =~= Seq::<usize>::empty());
            assert(result@.map_values(|v: Vec<usize>| v@) =~= Seq::<Seq<usize>>::empty());
        }
        while i < n
            invariant
                self.wf(),
                n == self.len(),
                self.len() == old(self).len(),
                self.classes() == old(self).classes(),
                forall|z: int| 0 <= z < old(self).len() ==> #[trigger] self.rep(z) == old(self).rep(z),
                reps == old(self).reps(),
                old(self).wf(),
                i <= n,
                result@.map_values(|v: Vec<usize>| v@) == number_classes(reps.take(i as int)).1,
                id_entries(ids) == number_classes(reps.take(i as int)).2,
            decreases n - i,
        {
            let root = self.find(i);
            let ghost g0 = result@.map_values(|v: Vec<usize>| v@);
            proof {
                assert(reps.take(i + 1).drop_last() =~= reps.take(i as int));
                assert(reps.take(i + 1).last() == reps[i as int]);
                old(self).lemma_rep_in_range(i as int);
                assert(root == reps[i as int]);
                lemma_number_classes(reps.take(i as int));
            }
            match ids_get(&ids, root) {
                Some(id) => {
                    let ghost inner0 = result@[id as int]@;
                    result[id].push(i);
                    proof {
                        assert(result@[id as int]@ == inner0.push(i));
                        assert(result@.map_values(|v: Vec<usize>| v@) =~= g0.update(id as int, g0[id as int].push(i)));
                    }
                },
                None => {
                    let id = result.len();
                    let _ = ids_insert(&mut ids, root, id);
                    let mut c: Vec<usize> = Vec::new();
                    c.push(i);
                    proof {
                        assert(c@ =~= seq![i]);
                    }
                    result.push(c);
                    proof {
                        assert(result@.map_values(|v: Vec<usize>| v@) =~= g0.push(seq![i]));
                    }
                },
            }
            i = i + 1;
        }
        proof {
            assert(reps.take(n as int) =~= reps);
        }
        result
    }

    /// Whether `x` and `y` lie in the same set.
    pub fn connected(&mut self, x: usize, y: usize) -> (r: bool)
        requires
            old(self).wf(),
            x < old(self).len(),
            y < old(self).len(),
        ensures
            final(self).wf(),
            final(self).len() == old(self).len(),
            final(self).classes() == old(self).classes(),
            r == old(self).same_set(x as int, y as int),
            forall|z: int| 0 <= z < old(self).len() ==> #[trigger] final(self).rep(z) == old(self).rep(z),
    {
        let a = self.find(x);
        let b = self.find(y);
        a == b
    }
}

} // verus!
