//! A vantage point tree over strings under the Levenshtein distance.
use vstd::prelude::*;
use vstd::seq_lib::to_multiset_update;
use vstd::multiset::Multiset;
use crate::bk_tree::levenshtein;
use crate::text::{edit_distance, lemma_distance_symmetric, lemma_distance_triangle};
use crate::vp_sort::{
    in_table, key, lemma_permuted_member, lower_bound, permutes_range, quick_sort_indices, sorted_range,
};

verus! {

broadcast use vstd::multiset::group_multiset_axioms;

/// An item found by a search, with its distance to the query.
#[derive(Debug, Clone, PartialEq, Eq)]
pub struct VpNeighbor {
    pub distance: usize,
    pub item: String,
}

/// An exact copy of a neighbor.
fn copy_neighbor(n: &VpNeighbor) -> (r: VpNeighbor)
    ensures
        r == *n,
{
    VpNeighbor { distance: n.distance, item: n.item.clone() }
}

/// The parent of heap position `c`.
pub open spec fn parent(c: int) -> int {
    (c - 1) / 2
}

/// Every heap entry is at least as far as its children.
pub open spec fn is_max_heap(h: Seq<VpNeighbor>) -> bool {
    forall|c: int| 1 <= c < h.len() ==> h[parent(c)].distance >= #[trigger] h[c].distance
}

/// `(c - 1) >> 1` is the parent of `c`.
proof fn lemma_parent_shift(c: usize)
    requires
        c >= 1,
    ensures
        (((c - 1) as usize) >> 1) as int == parent(c as int),
        parent(c as int) < c,
{
    let d: usize = (c - 1) as usize;
    assert(d >> 1 == d / 2) by (bit_vector);
}

/// The root of a heap is at least as far as every entry.
proof fn lemma_heap_root_max(h: Seq<VpNeighbor>, i: int)
    requires
        is_max_heap(h),
        0 <= i < h.len(),
    ensures
        h[0].distance >= h[i].distance,
    decreases i,
{
    if i > 0 {
        lemma_heap_root_max(h, parent(i));
    }
}

/// Orders neighbors so that the farther one ranks first: 1 when `left` is
/// nearer, -1 when it is farther, 0 on a tie.
fn compare(left: &VpNeighbor, right: &VpNeighbor) -> (r: i8)
    ensures
        r == (if left.distance < right.distance {
            1i8
        } else if left.distance > right.distance {
            -1i8
        } else {
            0i8
        }),
{
    if left.distance < right.distance {
        1
    } else if left.distance > right.distance {
        -1
    } else {
        0
    }
}

/// `s` with the entries at `i` and `j` exchanged.
pub open spec fn swap(s: Seq<VpNeighbor>, i: int, j: int) -> Seq<VpNeighbor> {
    s.update(i, s[j]).update(j, s[i])
}

/// Exchanging two entries keeps the multiset.
proof fn lemma_swap_multiset(s: Seq<VpNeighbor>, i: int, j: int)
    requires
        0 <= i < s.len(),
        0 <= j < s.len(),
    ensures
        swap(s, i, j).to_multiset() == s.to_multiset(),
{
    broadcast use to_multiset_update;
    broadcast use vstd::multiset::group_multiset_properties;

    if i != j {
        let s1 = s.update(i, s[j]);
        assert(s1[j] == s[j]);
        assert(s1.to_multiset() == s.to_multiset().insert(s[j]).remove(s[i]));
        assert(swap(s, i, j).to_multiset() == s1.to_multiset().insert(s[i]).remove(s[j]));
        let m = s.to_multiset();
        assert(s.contains(s[i]) && s.contains(s[j]));
        vstd::seq_lib::to_multiset_contains(s, s[i]);
        vstd::seq_lib::to_multiset_contains(s, s[j]);
        assert(m.count(s[i]) > 0 && m.count(s[j]) > 0);
        assert forall|x: VpNeighbor| #[trigger] swap(s, i, j).to_multiset().count(x) == m.count(x) by {
        }
        assert(swap(s, i, j).to_multiset() =~= m);
    } else {
        assert(swap(s, i, j) =~= s);
    }
}

/// The heap order holds on every edge but the one into `index`, and the
/// parent of `index` dominates the children of `index`.
pub open spec fn hole_ok(b: Seq<VpNeighbor>, index: int) -> bool {
    &&& forall|c: int| 1 <= c < b.len() && c != index ==> b[parent(c)].distance >= #[trigger] b[c].distance
    &&& index > 0 ==> forall|c: int|
        1 <= c < b.len() && parent(c) == index ==> b[parent(index)].distance >= #[trigger] b[c].distance
}

/// Moving an entry above its nearer parent keeps the hole invariant one
/// level up.
proof fn lemma_bubble_step(b: Seq<VpNeighbor>, index: int)
    requires
        0 < index < b.len(),
        hole_ok(b, index),
        b[index].distance > b[parent(index)].distance,
    ensures
        hole_ok(swap(b, index, parent(index)), parent(index)),
        swap(b, index, parent(index)).to_multiset() == b.to_multiset(),
{
    let p = parent(index);
    let a = swap(b, index, p);
    lemma_swap_multiset(b, index, p);
    assert forall|c: int| 1 <= c < a.len() && c != p implies a[parent(c)].distance >= #[trigger] a[c].distance by {
        if c == index {
        } else if parent(c) == index {
        } else if parent(c) == p {
            assert(b[parent(c)].distance >= b[c].distance);
        } else {
            assert(b[parent(c)].distance >= b[c].distance);
        }
    }
    if p > 0 {
        assert forall|c: int| 1 <= c < a.len() && parent(c) == p implies a[parent(p)].distance >= #[trigger] a[c].distance by {
            assert(b[parent(p)].distance >= b[p].distance);
            if c != index {
                assert(b[parent(c)].distance >= b[c].distance);
            }
        }
    }
}

/// Moves `item`, whose slot is `index`, up past every nearer parent and
/// stores it.
fn bubble_up(heap: &mut Vec<VpNeighbor>, index: usize, item: VpNeighbor)
    requires
        index < old(heap)@.len(),
        hole_ok(old(heap)@.update(index as int, item), index as int),
    ensures
        is_max_heap(final(heap)@),
        final(heap)@.len() == old(heap)@.len(),
        final(heap)@.to_multiset() == old(heap)@.update(index as int, item).to_multiset(),
{
    let ghost start = heap@.update(index as int, item);
    let mut index = index;
    while index > 0
        invariant_except_break
            index < heap@.len(),
            heap@.len() == start.len(),
            heap@.update(index as int, item).to_multiset() == start.to_multiset(),
            hole_ok(heap@.update(index as int, item), index as int),
        ensures
            index < heap@.len(),
            heap@.len() == start.len(),
            heap@.update(index as int, item).to_multiset() == start.to_multiset(),
            is_max_heap(heap@.update(index as int, item)),
        decreases index,
    {
        proof {
            lemma_parent_shift(index);
        }
        let parent_index = (index - 1) >> 1;
        if compare(&item, &heap[parent_index]) < 0 {
            let ghost before = heap@.update(index as int, item);
            let moved = copy_neighbor(&heap[parent_index]);
            heap.set(index, moved);
            proof {
                lemma_bubble_step(before, index as int);
                assert(heap@.update(parent_index as int, item) =~= swap(before, index as int, parent_index as int));
            }
            index = parent_index;
        } else {
            proof {
                let b = heap@.update(index as int, item);
                assert forall|c: int| 1 <= c < b.len() implies b[parent(c)].distance >= #[trigger] b[c].distance by {
                    if c == index {
                    }
                }
            }
            break;
        }
    }
    heap.set(index, item);
}

/// Pushes `item` into the heap and moves it up past every nearer parent.
fn sift_down(heap: &mut Vec<VpNeighbor>, item: VpNeighbor)
    requires
        is_max_heap(old(heap)@),
    ensures
        is_max_heap(final(heap)@),
        final(heap)@.len() == old(heap)@.len() + 1,
        final(heap)@.to_multiset() == old(heap)@.to_multiset().insert(item),
{
    broadcast use vstd::seq_lib::to_multiset_build;

    let ghost start = heap@.push(item);
    let index = heap.len();
    heap.push(copy_neighbor(&item));
    proof {
        assert(heap@.update(index as int, item) =~= start);
    }
    bubble_up(heap, index, item);
}

/// Refills the root of a heap whose other edges are in order: the hole
/// descends along the farther children to a leaf, then the old root entry
/// moves back up.
fn sift_up(heap: &mut Vec<VpNeighbor>, index: usize)
    requires
        index == 0,
        old(heap)@.len() > 0,
        forall|c: int|
            1 <= c < old(heap)@.len() && parent(c) != 0 ==> old(heap)@[parent(c)].distance
                >= #[trigger] old(heap)@[c].distance,
    ensures
        is_max_heap(final(heap)@),
        final(heap)@.len() == old(heap)@.len(),
        final(heap)@.to_multiset() == old(heap)@.to_multiset(),
{
    let ghost start = heap@;
    let end = heap.len();
    let item = copy_neighbor(&heap[index]);
    let mut index = index;
    proof {
        assert(heap@.update(0, item) =~= start);
    }
    while index < end / 2
        invariant
            end == heap@.len(),
            start.len() == end,
            index < end,
            heap@.update(index as int, item).to_multiset() == start.to_multiset(),
            forall|c: int|
                1 <= c < heap@.len() && c != index && parent(c) != index ==> heap@[parent(c)].distance
                    >= #[trigger] heap@[c].distance,
            index > 0 ==> forall|c: int|
                1 <= c < heap@.len() && parent(c) == index ==> heap@[parent(index as int)].distance
                    >= #[trigger] heap@[c].distance,
        decreases end - index,
    {
        let mut child = index * 2 + 1;
        let right = child + 1;
        if right < end && compare(&heap[child], &heap[right]) >= 0 {
            child = right;
        }
        let ghost before = heap@;
        let ghost b = heap@.update(index as int, item);
        proof {
            assert(parent(child as int) == index);
            assert(parent(index as int * 2 + 1) == index);
            assert(parent(index as int * 2 + 2) == index);
        }
        let moved = copy_neighbor(&heap[child]);
        heap.set(index, moved);
        proof {
            lemma_swap_multiset(b, index as int, child as int);
            assert(heap@.update(child as int, item) =~= swap(b, index as int, child as int));
            assert forall|c: int|
                1 <= c < heap@.len() && c != child && parent(c) != child implies heap@[parent(c)].distance
                    >= #[trigger] heap@[c].distance by {
                if c == index {
                    assert(before[parent(index as int)].distance >= before[child as int].distance);
                } else if parent(c) == index {
                    assert(c == index * 2 + 1 || c == index * 2 + 2);
                } else {
                    assert(before[parent(c)].distance >= before[c].distance);
                }
            }
            assert forall|c: int| 1 <= c < heap@.len() && parent(c) == child implies heap@[parent(
                child as int,
            )].distance >= #[trigger] heap@[c].distance by {
                assert(c != index);
                assert(before[parent(c)].distance >= before[c].distance);
            }
        }
        index = child;
    }
    proof {
        let b = heap@.update(index as int, item);
        assert forall|c: int| 1 <= c < b.len() && c != index implies b[parent(c)].distance >= #[trigger] b[c].distance by {
            assert(parent(c) != index);
        }
    }
    bubble_up(heap, index, item);
}

/// Removes and returns the farthest entry of the heap.
fn pop(heap: &mut Vec<VpNeighbor>) -> (r: Option<VpNeighbor>)
    requires
        is_max_heap(old(heap)@),
    ensures
        old(heap)@.len() == 0 ==> r is None && final(heap)@ == old(heap)@,
        old(heap)@.len() > 0 ==> {
            &&& r == Some(old(heap)@[0])
            &&& forall|i: int| 0 <= i < old(heap)@.len() ==> (#[trigger] old(heap)@[i]).distance <= old(heap)@[0].distance
            &&& is_max_heap(final(heap)@)
            &&& final(heap)@.len() == old(heap)@.len() - 1
            &&& final(heap)@.to_multiset() == old(heap)@.to_multiset().remove(old(heap)@[0])
        },
{
    broadcast use to_multiset_update;
    broadcast use vstd::seq_lib::to_multiset_build;
    broadcast use vstd::multiset::group_multiset_properties;

    let ghost start = heap@;
    proof {
        assert forall|i: int| 0 <= i < start.len() implies (#[trigger] start[i]).distance <= start[0].distance by {
            lemma_heap_root_max(start, i);
        }
    }
    let last = match heap.pop() {
        Some(x) => x,
        None => {
            return None;
        },
    };
    proof {
        assert(start =~= heap@.push(last));
    }
    if heap.len() == 0 {
        proof {
            assert(heap@.to_multiset() =~= start.to_multiset().remove(start[0]));
            assert(last == start[0]);
            assert(is_max_heap(heap@));
        }
        return Some(last);
    }
    let item = copy_neighbor(&heap[0]);
    heap.set(0, last);
    proof {
        assert(heap@.to_multiset() =~= start.to_multiset().remove(start[0]));
    }
    proof {
        assert forall|c: int| 1 <= c < heap@.len() && parent(c) != 0 implies heap@[parent(c)].distance
            >= #[trigger] heap@[c].distance by {
            assert(start[parent(c)].distance >= start[c].distance);
        }
    }
    sift_up(heap, 0);
    Some(item)
}

/// The shape of a vantage point tree: for each node its item, its
/// children (0 for none), twice its median distance, and the positions
/// `[low, high)` of the sorted items of its subtree, split at `mid`.
pub struct Shape {
    pub nodes: Seq<usize>,
    pub lefts: Seq<usize>,
    pub rights: Seq<usize>,
    pub mus: Seq<u128>,
    pub lows: Seq<int>,
    pub highs: Seq<int>,
    pub mids: Seq<int>,
}

/// The distance from the item of node `j` to the item at position `p`.
pub open spec fn vdist(words: Seq<Seq<char>>, sh: Shape, perm: Seq<usize>, j: int, p: int) -> int {
    edit_distance(words[sh.nodes[j] as int], words[perm[p] as int]) as int
}

/// Node `j` holds the last item of its positions; its left child holds the
/// positions before `mid`, all nearer to it than half of `mus`, and its right
/// child the others but its own, none nearer.
pub open spec fn node_ok(words: Seq<Seq<char>>, sh: Shape, perm: Seq<usize>, n: int, j: int) -> bool {
    let lo = sh.lows[j];
    let hi = sh.highs[j];
    let mid = sh.mids[j];
    &&& 0 <= lo <= mid < hi <= n
    &&& sh.nodes[j] == perm[hi - 1]
    &&& sh.lefts[j] != 0 ==> j < sh.lefts[j] < n && sh.lows[sh.lefts[j] as int] == lo && sh.highs[sh.lefts[j] as int]
        == mid && lo < mid
    &&& sh.lefts[j] == 0 ==> mid == lo
    &&& sh.rights[j] != 0 ==> j < sh.rights[j] < n && sh.lows[sh.rights[j] as int] == mid && sh.highs[sh.rights[j] as int]
        == hi - 1 && mid < hi - 1
    &&& sh.rights[j] == 0 ==> mid == hi - 1
    &&& forall|p: int| lo <= p < mid ==> 2 * #[trigger] vdist(words, sh, perm, j, p) < sh.mus[j]
    &&& forall|p: int| mid <= p < hi - 1 ==> 2 * #[trigger] vdist(words, sh, perm, j, p) >= sh.mus[j]
}

/// The range `[c, d)` lies inside the left part of node `j`, inside its
/// right part, or apart from its positions.
pub open spec fn nested(sh: Shape, j: int, c: int, d: int) -> bool {
    ||| sh.lows[j] <= c && d <= sh.mids[j]
    ||| sh.mids[j] <= c && d <= sh.highs[j] - 1
    ||| d <= sh.lows[j]
    ||| sh.highs[j] <= c
}

/// A node stays in order when the fields it reads are unchanged.
proof fn lemma_node_frame(words: Seq<Seq<char>>, sh1: Shape, sh2: Shape, perm: Seq<usize>, n: int, j: int)
    requires
        node_ok(words, sh1, perm, n, j),
        sh2.nodes[j] == sh1.nodes[j],
        sh2.lefts[j] == sh1.lefts[j],
        sh2.rights[j] == sh1.rights[j],
        sh2.mus[j] == sh1.mus[j],
        sh2.lows[j] == sh1.lows[j],
        sh2.highs[j] == sh1.highs[j],
        sh2.mids[j] == sh1.mids[j],
        sh2.lows[sh1.lefts[j] as int] == sh1.lows[sh1.lefts[j] as int],
        sh2.highs[sh1.lefts[j] as int] == sh1.highs[sh1.lefts[j] as int],
        sh2.lows[sh1.rights[j] as int] == sh1.lows[sh1.rights[j] as int],
        sh2.highs[sh1.rights[j] as int] == sh1.highs[sh1.rights[j] as int],
    ensures
        node_ok(words, sh2, perm, n, j),
{
    assert forall|p: int| 0 <= p < n implies #[trigger] vdist(words, sh2, perm, j, p) == vdist(words, sh1, perm, j, p) by {}
}

/// A node stays in order when the items of a range nested in it are
/// permuted.
proof fn lemma_node_permuted(
    words: Seq<Seq<char>>,
    sh: Shape,
    ind0: Seq<usize>,
    ind1: Seq<usize>,
    n: int,
    j: int,
    c: int,
    d: int,
)
    requires
        node_ok(words, sh, ind0, n, j),
        nested(sh, j, c, d),
        0 <= c <= d <= n,
        ind0.len() == n,
        permutes_range(ind0, ind1, c, d),
    ensures
        node_ok(words, sh, ind1, n, j),
{
    let lo = sh.lows[j];
    let hi = sh.highs[j];
    let mid = sh.mids[j];
    assert(ind1[hi - 1] == ind0[hi - 1]);
    assert forall|p: int| lo <= p < mid implies 2 * #[trigger] vdist(words, sh, ind1, j, p) < sh.mus[j] by {
        if c <= p < d {
            let w = lemma_permuted_member(ind0, ind1, c, d, p);
            assert(vdist(words, sh, ind1, j, p) == vdist(words, sh, ind0, j, w));
        } else {
            assert(vdist(words, sh, ind1, j, p) == vdist(words, sh, ind0, j, p));
        }
    }
    assert forall|p: int| mid <= p < hi - 1 implies 2 * #[trigger] vdist(words, sh, ind1, j, p) >= sh.mus[j] by {
        if c <= p < d {
            let w = lemma_permuted_member(ind0, ind1, c, d, p);
            assert(vdist(words, sh, ind1, j, p) == vdist(words, sh, ind0, j, w));
        } else {
            assert(vdist(words, sh, ind1, j, p) == vdist(words, sh, ind0, j, p));
        }
    }
}

/// The positions still to place in the pending ranges.
pub open spec fn stack_sum(st: Seq<(usize, usize, usize)>) -> int
    decreases st.len(),
{
    if st.len() == 0 {
        0
    } else {
        stack_sum(st.drop_last()) + (st.last().2 - st.last().1)
    }
}

/// Each pending range holds at least one position.
proof fn lemma_stack_sum_ge_len(st: Seq<(usize, usize, usize)>)
    requires
        forall|t: int| 0 <= t < st.len() ==> (#[trigger] st[t]).1 < st[t].2,
    ensures
        stack_sum(st) >= st.len(),
    decreases st.len(),
{
    if st.len() > 0 {
        assert forall|t: int| 0 <= t < st.drop_last().len() implies (#[trigger] st.drop_last()[t]).1 < st.drop_last()[t].2 by {
            assert(st.drop_last()[t] == st[t]);
        }
        lemma_stack_sum_ge_len(st.drop_last());
        assert(st.last() == st[st.len() - 1]);
    }
}

/// The state of the construction: nodes up to `created` exist; the
/// finished ones are in order, and the others wait on the stack with their
/// ranges, which are disjoint and nested in every finished node; `assigned`
/// counts the finished nodes and their positions.
pub open spec fn build_ok(
    words: Seq<Seq<char>>,
    sh: Shape,
    perm: Seq<usize>,
    size: int,
    created: int,
    st: Seq<(usize, usize, usize)>,
    done: Seq<bool>,
    assigned: int,
) -> bool {
    &&& sh.nodes.len() == size
    &&& sh.lefts.len() == size
    &&& sh.rights.len() == size
    &&& sh.mus.len() == size
    &&& sh.lows.len() == size
    &&& sh.highs.len() == size
    &&& sh.mids.len() == size
    &&& done.len() == size
    &&& perm.len() == size
    &&& size <= usize::MAX
    &&& forall|x: int| 0 <= x < size ==> (#[trigger] perm[x]) < size
    &&& perm.no_duplicates()
    &&& 0 <= created < size
    &&& forall|j: int| 0 <= j < size ==> #[trigger] sh.mus[j] <= 2 * usize::MAX
    &&& sh.lows[0] == 0 && sh.highs[0] == size
    &&& forall|j: int|
        0 <= j < size && #[trigger] done[j] ==> j <= created && sh.lefts[j] <= created && sh.rights[j] <= created
            && node_ok(words, sh, perm, size, j)
    &&& forall|j: int| created < j < size ==> !#[trigger] done[j] && sh.lefts[j] == 0 && sh.rights[j] == 0
    &&& forall|t: int|
        0 <= t < st.len() ==> (#[trigger] st[t]).0 <= created && !done[st[t].0 as int] && sh.lows[st[t].0 as int]
            == st[t].1 && sh.highs[st[t].0 as int] == st[t].2 && st[t].1 < st[t].2 <= size && sh.lefts[st[t].0 as int]
            == 0 && sh.rights[st[t].0 as int] == 0
    &&& forall|t: int, u: int|
        0 <= t < u < st.len() ==> (#[trigger] st[t]).0 != (#[trigger] st[u]).0 && (st[t].2 <= st[u].1 || st[u].2
            <= st[t].1)
    &&& forall|j: int| 0 <= j <= created ==> #[trigger] done[j] || exists|t: int| 0 <= t < st.len() && (#[trigger] st[t]).0 == j
    &&& forall|j: int, t: int|
        #![trigger done[j], st[t]]
        0 <= j < size && done[j] && 0 <= t < st.len() ==> nested(sh, j, st[t].1 as int, st[t].2 as int)
    &&& created + 1 == assigned + st.len()
    &&& size == assigned + stack_sum(st)
}

/// A permutation of the whole sequence keeps it free of duplicates and
/// within bounds.
proof fn lemma_perm_keeps_distinct(p1: Seq<usize>, p2: Seq<usize>, c: int, d: int, size: int)
    requires
        0 <= c <= d <= size,
        p1.len() == size,
        forall|x: int| 0 <= x < size ==> (#[trigger] p1[x]) < size,
        p1.no_duplicates(),
        permutes_range(p1, p2, c, d),
    ensures
        forall|x: int| 0 <= x < size ==> (#[trigger] p2[x]) < size,
        p2.no_duplicates(),
{
    assert forall|x: int| 0 <= x < size implies (#[trigger] p2[x]) < size by {
        if c <= x < d {
            let w = lemma_permuted_member(p1, p2, c, d, x);
        }
    }
    crate::vp_sort::lemma_widen_permutes(p1, p2, c, d, 0, size);
    assert(p1.subrange(0, size) =~= p1);
    assert(p2.subrange(0, size) =~= p2);
    p1.lemma_multiset_has_no_duplicates();
    p2.lemma_multiset_has_no_duplicates_conv();
}

/// Sorting the positions of the range on top of the stack keeps the
/// construction state.
proof fn lemma_build_sorted(
    words: Seq<Seq<char>>,
    sh: Shape,
    perm: Seq<usize>,
    perm2: Seq<usize>,
    size: int,
    created: int,
    st: Seq<(usize, usize, usize)>,
    done: Seq<bool>,
    assigned: int,
    k: usize,
    c: usize,
    d: usize,
)
    requires
        build_ok(words, sh, perm, size, created, st.push((k, c, d)), done, assigned),
        c < d,
        permutes_range(perm, perm2, c as int, d - 1),
    ensures
        build_ok(words, sh, perm2, size, created, st.push((k, c, d)), done, assigned),
{
    let s0 = st.push((k, c, d));
    assert(s0[st.len() as int] == (k, c, d));
    lemma_perm_keeps_distinct(perm, perm2, c as int, d - 1, size);
    assert forall|j: int| 0 <= j < size && #[trigger] done[j] implies j <= created && sh.lefts[j] <= created
        && sh.rights[j] <= created && node_ok(words, sh, perm2, size, j) by {
        assert(nested(sh, j, c as int, d as int));
        lemma_node_permuted(words, sh, perm, perm2, size, j, c as int, d - 1);
    }
}

/// Finishing a node with a single position on the top of the stack keeps
/// the construction state.
proof fn lemma_build_leaf(
    words: Seq<Seq<char>>,
    sh: Shape,
    perm: Seq<usize>,
    size: int,
    created: int,
    st: Seq<(usize, usize, usize)>,
    done: Seq<bool>,
    assigned: int,
    k: usize,
    c: usize,
    d: usize,
)
    requires
        build_ok(words, sh, perm, size, created, st.push((k, c, d)), done, assigned),
        d == c + 1,
    ensures
        build_ok(
            words,
            (Shape {
                nodes: sh.nodes.update(k as int, perm[c as int]),
                lefts: sh.lefts,
                rights: sh.rights,
                mus: sh.mus,
                lows: sh.lows,
                highs: sh.highs,
                mids: sh.mids.update(k as int, c as int),
            }),
            perm,
            size,
            created,
            st,
            done.update(k as int, true),
            assigned + 1,
        ),
{
    let s0 = st.push((k, c, d));
    let sh2 = Shape {
        nodes: sh.nodes.update(k as int, perm[c as int]),
        lefts: sh.lefts,
        rights: sh.rights,
        mus: sh.mus,
        lows: sh.lows,
        highs: sh.highs,
        mids: sh.mids.update(k as int, c as int),
    };
    let done2 = done.update(k as int, true);
    assert(s0[st.len() as int] == (k, c, d));
    assert forall|t: int| 0 <= t < st.len() implies #[trigger] s0[t] == st[t] by {}
    assert forall|t: int| 0 <= t < st.len() implies (#[trigger] st[t]).0 != k && (st[t].2 <= c || d <= st[t].1) by {
        assert(s0[t] == st[t]);
    }
    assert forall|j: int| 0 <= j < size && #[trigger] done2[j] implies j <= created && sh2.lefts[j] <= created
        && sh2.rights[j] <= created && node_ok(words, sh2, perm, size, j) by {
        if j != k {
            lemma_node_frame(words, sh, sh2, perm, size, j);
        }
    }
    assert forall|j: int| 0 <= j <= created implies #[trigger] done2[j] || exists|t: int|
        0 <= t < st.len() && (#[trigger] st[t]).0 == j by {
        if !done2[j] {
            let t = choose|t: int| 0 <= t < s0.len() && (#[trigger] s0[t]).0 == j;
            assert(st[t] == s0[t]);
        }
    }
    assert forall|j: int, t: int|
        #![trigger done2[j], st[t]]
        0 <= j < size && done2[j] && 0 <= t < st.len() implies nested(sh2, j, st[t].1 as int, st[t].2 as int) by {
        if j != k {
            assert(done[j] && s0[t] == st[t]);
        }
    }
    assert(s0.drop_last() =~= st);
    assert(stack_sum(s0) == stack_sum(st) + 1);
    assert forall|j: int| created < j < size implies !#[trigger] done2[j] && sh2.lefts[j] == 0 && sh2.rights[j] == 0 by {
        assert(!done[j]);
    }
    assert forall|t: int| 0 <= t < st.len() implies (#[trigger] st[t]).0 <= created && !done2[st[t].0 as int]
        && sh2.lows[st[t].0 as int] == st[t].1 && sh2.highs[st[t].0 as int] == st[t].2 && st[t].1 < st[t].2 <= size
        && sh2.lefts[st[t].0 as int] == 0 && sh2.rights[st[t].0 as int] == 0 by {
        assert(s0[t] == st[t]);
    }
    assert forall|t: int, u: int| 0 <= t < u < st.len() implies (#[trigger] st[t]).0 != (#[trigger] st[u]).0 && (st[t].2
        <= st[u].1 || st[u].2 <= st[t].1) by {
        assert(s0[t] == st[t] && s0[u] == st[u]);
    }
}

/// Finishing a node with two positions, whose second position becomes a
/// new finished right child, keeps the construction state.
proof fn lemma_build_pair(
    words: Seq<Seq<char>>,
    sh: Shape,
    perm: Seq<usize>,
    size: int,
    created: int,
    st: Seq<(usize, usize, usize)>,
    done: Seq<bool>,
    assigned: int,
    k: usize,
    c: usize,
    d: usize,
    mu2: u128,
)
    requires
        build_ok(words, sh, perm, size, created, st.push((k, c, d)), done, assigned),
        d == c + 2,
        mu2 == 2 * edit_distance(words[perm[c + 1] as int], words[perm[c as int] as int]),
        mu2 <= 2 * usize::MAX,
    ensures
        created + 1 < size,
        build_ok(
            words,
            (Shape {
                nodes: sh.nodes.update(k as int, perm[c + 1]).update(created + 1, perm[c as int]),
                lefts: sh.lefts,
                rights: sh.rights.update(k as int, (created + 1) as usize),
                mus: sh.mus.update(k as int, mu2),
                lows: sh.lows.update(created + 1, c as int),
                highs: sh.highs.update(created + 1, c + 1),
                mids: sh.mids.update(k as int, c as int).update(created + 1, c as int),
            }),
            perm,
            size,
            created + 1,
            st,
            done.update(k as int, true).update(created + 1, true),
            assigned + 2,
        ),
{
    let s0 = st.push((k, c, d));
    let m = created + 1;
    assert(s0[st.len() as int] == (k, c, d));
    assert forall|t: int| 0 <= t < s0.len() implies (#[trigger] s0[t]).1 < s0[t].2 by {}
    assert forall|t: int| 0 <= t < st.len() implies (#[trigger] st[t]).1 < st[t].2 by {
        assert(s0[t] == st[t]);
    }
    lemma_stack_sum_ge_len(st);
    assert(s0.drop_last() =~= st);
    assert(stack_sum(s0) == stack_sum(st) + 2);
    assert(created + 1 < size);
    let sh2 = Shape {
        nodes: sh.nodes.update(k as int, perm[c + 1]).update(m, perm[c as int]),
        lefts: sh.lefts,
        rights: sh.rights.update(k as int, m as usize),
        mus: sh.mus.update(k as int, mu2),
        lows: sh.lows.update(m, c as int),
        highs: sh.highs.update(m, c + 1),
        mids: sh.mids.update(k as int, c as int).update(m, c as int),
    };
    let done2 = done.update(k as int, true).update(m, true);
    assert forall|t: int| 0 <= t < st.len() implies (#[trigger] st[t]).0 != k && (st[t].2 <= c || d <= st[t].1) && s0[t]
        == st[t] by {
        assert(s0[t] == st[t]);
    }
    assert(!done[m] && sh.lefts[m] == 0 && sh.rights[m] == 0);
    assert forall|j: int| 0 <= j < size && #[trigger] done2[j] implies j <= m && sh2.lefts[j] <= m && sh2.rights[j]
        <= m && node_ok(words, sh2, perm, size, j) by {
        if j == k {
            assert(sh.lows[k as int] == c && sh.highs[k as int] == d && sh.lefts[k as int] == 0);
            assert(sh2.lows[k as int] == c && sh2.highs[k as int] == d && sh2.mids[k as int] == c);
            assert(sh2.nodes[k as int] == perm[c + 1]);
            assert(sh2.rights[k as int] == m && sh2.lows[m] == c && sh2.highs[m] == c + 1);
            assert(vdist(words, sh2, perm, j, c as int) == edit_distance(
                words[perm[c + 1] as int],
                words[perm[c as int] as int],
            ));
            assert forall|p: int| c <= p < d - 1 implies 2 * #[trigger] vdist(words, sh2, perm, j, p) >= sh2.mus[j] by {
                assert(p == c);
            }
        } else if j == m {
            assert(sh2.lows[m] == c && sh2.highs[m] == c + 1 && sh2.mids[m] == c);
            assert(sh2.nodes[m] == perm[c as int]);
            assert(sh2.lefts[m] == 0 && sh2.rights[m] == 0);
        } else {
            assert(done[j]);
            assert(sh.lefts[j] <= created && sh.rights[j] <= created);
            lemma_node_frame(words, sh, sh2, perm, size, j);
        }
    }
    assert forall|j: int| 0 <= j <= m implies #[trigger] done2[j] || exists|t: int|
        0 <= t < st.len() && (#[trigger] st[t]).0 == j by {
        if !done2[j] {
            let t = choose|t: int| 0 <= t < s0.len() && (#[trigger] s0[t]).0 == j;
            assert(st[t] == s0[t]);
        }
    }
    assert forall|j: int, t: int|
        #![trigger done2[j], st[t]]
        0 <= j < size && done2[j] && 0 <= t < st.len() implies nested(sh2, j, st[t].1 as int, st[t].2 as int) by {
        if j != k && j != m {
            assert(done[j] && s0[t] == st[t]);
        }
    }
    assert forall|j: int| m < j < size implies !#[trigger] done2[j] && sh2.lefts[j] == 0 && sh2.rights[j] == 0 by {
        assert(!done[j]);
    }
    assert forall|t: int| 0 <= t < st.len() implies (#[trigger] st[t]).0 <= m && !done2[st[t].0 as int]
        && sh2.lows[st[t].0 as int] == st[t].1 && sh2.highs[st[t].0 as int] == st[t].2 && st[t].1 < st[t].2 <= size
        && sh2.lefts[st[t].0 as int] == 0 && sh2.rights[st[t].0 as int] == 0 by {
        assert(s0[t] == st[t]);
    }
    assert forall|t: int, u: int| 0 <= t < u < st.len() implies (#[trigger] st[t]).0 != (#[trigger] st[u]).0 && (st[t].2
        <= st[u].1 || st[u].2 <= st[t].1) by {
        assert(s0[t] == st[t] && s0[u] == st[u]);
    }
}

/// A range of at least three positions on top of the stack leaves room
/// for two more nodes.
proof fn lemma_build_room(
    words: Seq<Seq<char>>,
    sh: Shape,
    perm: Seq<usize>,
    size: int,
    created: int,
    st: Seq<(usize, usize, usize)>,
    done: Seq<bool>,
    assigned: int,
    k: usize,
    c: usize,
    d: usize,
)
    requires
        build_ok(words, sh, perm, size, created, st.push((k, c, d)), done, assigned),
        c + 3 <= d,
    ensures
        created + 3 <= size,
{
    let s0 = st.push((k, c, d));
    assert(s0[st.len() as int] == (k, c, d));
    assert forall|t: int| 0 <= t < st.len() implies (#[trigger] st[t]).1 < st[t].2 by {
        assert(s0[t] == st[t]);
    }
    lemma_stack_sum_ge_len(st);
    assert(s0.drop_last() =~= st);
}

/// `s` with `e` pushed when `b` holds.
pub open spec fn push_if(s: Seq<(usize, usize, usize)>, b: bool, e: (usize, usize, usize)) -> Seq<(usize, usize, usize)> {
    if b {
        s.push(e)
    } else {
        s
    }
}

/// Splitting the node on top of the stack at `mid`, around its median
/// `mu2`, and pushing its nonempty right and left parts as new nodes keeps
/// the construction state.
proof fn lemma_build_split(
    words: Seq<Seq<char>>,
    sh: Shape,
    sh2: Shape,
    perm: Seq<usize>,
    size: int,
    created: int,
    st: Seq<(usize, usize, usize)>,
    done: Seq<bool>,
    assigned: int,
    k: usize,
    c: usize,
    d: usize,
    mid: usize,
    mu2: u128,
)
    requires
        build_ok(words, sh, perm, size, created, st.push((k, c, d)), done, assigned),
        c + 3 <= d,
        c <= mid <= d - 1,
        mu2 <= 2 * usize::MAX,
        forall|p: int|
            c <= p < mid ==> 2 * edit_distance(words[perm[d - 1] as int], words[#[trigger] perm[p] as int]) < mu2,
        forall|p: int|
            mid <= p < d - 1 ==> 2 * edit_distance(words[perm[d - 1] as int], words[#[trigger] perm[p] as int])
                >= mu2,
        sh2.nodes.len() == size,
        sh2.lefts.len() == size,
        sh2.rights.len() == size,
        sh2.mus.len() == size,
        sh2.lows.len() == size,
        sh2.highs.len() == size,
        sh2.mids.len() == size,
        forall|x: int| 0 <= x < size && x != k ==> #[trigger] sh2.nodes[x] == sh.nodes[x],
        forall|x: int| 0 <= x < size && x != k ==> #[trigger] sh2.lefts[x] == sh.lefts[x],
        forall|x: int| 0 <= x < size && x != k ==> #[trigger] sh2.rights[x] == sh.rights[x],
        forall|x: int| 0 <= x < size && x != k ==> #[trigger] sh2.mus[x] == sh.mus[x],
        forall|x: int| 0 <= x < size && x != k ==> #[trigger] sh2.mids[x] == sh.mids[x],
        sh2.nodes[k as int] == perm[d - 1],
        sh2.mus[k as int] == mu2,
        sh2.mids[k as int] == mid,
        sh2.rights[k as int] == (if d - 1 > mid { created + 1 } else { 0 }),
        sh2.lefts[k as int] == (if mid > c { created + 1 + (if d - 1 > mid { 1int } else { 0 }) } else { 0 }),
        forall|x: int|
            0 <= x < size ==> #[trigger] sh2.lows[x] == (if d - 1 > mid && x == created + 1 {
                mid as int
            } else if mid > c && x == created + 1 + (if d - 1 > mid { 1int } else { 0 }) {
                c as int
            } else {
                sh.lows[x]
            }),
        forall|x: int|
            0 <= x < size ==> #[trigger] sh2.highs[x] == (if d - 1 > mid && x == created + 1 {
                d - 1
            } else if mid > c && x == created + 1 + (if d - 1 > mid { 1int } else { 0 }) {
                mid as int
            } else {
                sh.highs[x]
            }),
    ensures
        created + (if d - 1 > mid { 1int } else { 0 }) + (if mid > c { 1int } else { 0 }) < size,
        build_ok(
            words,
            sh2,
            perm,
            size,
            created + (if d - 1 > mid { 1int } else { 0 }) + (if mid > c { 1int } else { 0 }),
            push_if(
                push_if(st, d - 1 > mid, ((created + 1) as usize, mid, (d - 1) as usize)),
                mid > c,
                ((created + 1 + (if d - 1 > mid { 1int } else { 0 })) as usize, c, mid),
            ),
            done.update(k as int, true),
            assigned + 1,
        ),
{
    let s0 = st.push((k, c, d));
    let hr = d - 1 > mid;
    let hl = mid > c;
    let r = created + 1;
    let l = created + 1 + (if hr { 1int } else { 0 });
    let created2 = created + (if hr { 1int } else { 0 }) + (if hl { 1int } else { 0 });
    let st1 = push_if(st, hr, (r as usize, mid, (d - 1) as usize));
    let st2 = push_if(st1, hl, (l as usize, c, mid));
    let done2 = done.update(k as int, true);
    assert(s0[st.len() as int] == (k, c, d));
    assert forall|t: int| 0 <= t < st.len() implies (#[trigger] st[t]).1 < st[t].2 && s0[t] == st[t] && st[t].0 != k && (
    st[t].2 <= c || d <= st[t].1) by {
        assert(s0[t] == st[t]);
    }
    lemma_stack_sum_ge_len(st);
    assert(s0.drop_last() =~= st);
    assert(stack_sum(s0) == stack_sum(st) + (d - c));
    assert(created + 3 <= size);
    if hr {
        assert(st1.drop_last() =~= st);
        assert(stack_sum(st1) == stack_sum(st) + (d - 1 - mid));
    } else {
        assert(stack_sum(st1) == stack_sum(st) + (d - 1 - mid));
    }
    if hl {
        assert(st2.drop_last() =~= st1);
        assert(stack_sum(st2) == stack_sum(st1) + (mid - c));
    } else {
        assert(stack_sum(st2) == stack_sum(st1) + (mid - c));
    }
    assert(stack_sum(st2) == stack_sum(st) + (d - 1 - c));
    assert(st2.len() == st.len() + (if hr { 1int } else { 0 }) + (if hl { 1int } else { 0 }));
    assert forall|t: int| 0 <= t < st.len() implies #[trigger] st2[t] == st[t] by {
        if hr {
            assert(st1[t] == st[t]);
        }
    }
    if hr {
        assert(st2[st.len() as int] == (r as usize, mid, (d - 1) as usize));
    }
    if hl {
        assert(st2[st.len() + (if hr { 1int } else { 0 })] == (l as usize, c, mid));
    }
    assert(created < r < size);
    let ri = r;
    assert(!done[ri]);
    assert(sh.lefts[ri] == 0);
    assert(sh.rights[ri] == 0);
    if hl {
        assert(created < l < size);
        let li = l;
        assert(!done[li]);
        assert(sh.lefts[li] == 0);
        assert(sh.rights[li] == 0);
        assert(!done[l] && sh.lefts[l] == 0 && sh.rights[l] == 0);
    }
    // Finished nodes.
    assert forall|j: int| 0 <= j < size && #[trigger] done2[j] implies j <= created2 && sh2.lefts[j] <= created2
        && sh2.rights[j] <= created2 && node_ok(words, sh2, perm, size, j) by {
        if j == k {
            assert(sh2.lows[j] == c && sh2.highs[j] == d);
            assert forall|p: int| c <= p < mid implies 2 * #[trigger] vdist(words, sh2, perm, j, p) < sh2.mus[j] by {
                assert(2 * edit_distance(words[perm[d - 1] as int], words[perm[p] as int]) < mu2);
            }
            assert forall|p: int| mid <= p < d - 1 implies 2 * #[trigger] vdist(words, sh2, perm, j, p) >= sh2.mus[j] by {
                assert(2 * edit_distance(words[perm[d - 1] as int], words[perm[p] as int]) >= mu2);
            }
        } else {
            assert(done[j]);
            assert(sh.lefts[j] <= created && sh.rights[j] <= created);
            assert(sh2.nodes[j] == sh.nodes[j]);
            assert(sh2.lows[j] == sh.lows[j] && sh2.highs[j] == sh.highs[j]);
            assert(sh2.lows[sh.lefts[j] as int] == sh.lows[sh.lefts[j] as int]);
            assert(sh2.highs[sh.lefts[j] as int] == sh.highs[sh.lefts[j] as int]);
            assert(sh2.lows[sh.rights[j] as int] == sh.lows[sh.rights[j] as int]);
            assert(sh2.highs[sh.rights[j] as int] == sh.highs[sh.rights[j] as int]);
            lemma_node_frame(words, sh, sh2, perm, size, j);
        }
    }
    assert forall|j: int| created2 < j < size implies !#[trigger] done2[j] && sh2.lefts[j] == 0 && sh2.rights[j] == 0 by {
        assert(!done[j]);
        assert(sh2.lefts[j] == sh.lefts[j]);
    }
    // Pending ranges.
    assert forall|t: int| 0 <= t < st2.len() implies (#[trigger] st2[t]).0 <= created2 && !done2[st2[t].0 as int]
        && sh2.lows[st2[t].0 as int] == st2[t].1 && sh2.highs[st2[t].0 as int] == st2[t].2 && st2[t].1 < st2[t].2 <= size
        && sh2.lefts[st2[t].0 as int] == 0 && sh2.rights[st2[t].0 as int] == 0 by {
        if t < st.len() {
            let e = st[t];
            assert(st2[t] == e && s0[t] == e);
            assert(sh2.lows[e.0 as int] == sh.lows[e.0 as int]);
            assert(sh2.lefts[e.0 as int] == sh.lefts[e.0 as int]);
        } else if hr && t == st.len() {
            assert(sh2.lefts[r] == sh.lefts[r]);
        } else {
            assert(sh2.lefts[l] == sh.lefts[l]);
        }
    }
    assert forall|t: int, u: int| 0 <= t < u < st2.len() implies (#[trigger] st2[t]).0 != (#[trigger] st2[u]).0 && (
    st2[t].2 <= st2[u].1 || st2[u].2 <= st2[t].1) by {
        if u < st.len() {
            assert(s0[t] == st2[t] && s0[u] == st2[u]);
        } else if t < st.len() {
            assert(s0[t] == st2[t]);
        }
    }
    assert forall|j: int| 0 <= j <= created2 implies #[trigger] done2[j] || exists|t: int|
        0 <= t < st2.len() && (#[trigger] st2[t]).0 == j by {
        if !done2[j] {
            if j <= created {
                let t = choose|t: int| 0 <= t < s0.len() && (#[trigger] s0[t]).0 == j;
                assert(st2[t] == s0[t]);
            } else if hr && j == r {
                assert(st2[st.len() as int].0 == j);
            } else {
                assert(st2[st.len() + (if hr { 1int } else { 0 })].0 == j);
            }
        }
    }
    assert forall|j: int, t: int|
        #![trigger done2[j], st2[t]]
        0 <= j < size && done2[j] && 0 <= t < st2.len() implies nested(sh2, j, st2[t].1 as int, st2[t].2 as int) by {
        assert(sh2.lows[j] == sh.lows[j] || j == r || j == l);
        if j == k {
        } else {
            assert(done[j]);
            assert(sh2.lows[j] == sh.lows[j] && sh2.highs[j] == sh.highs[j] && sh2.mids[j] == sh.mids[j]);
            if t < st.len() {
                assert(s0[t] == st2[t]);
            } else {
                assert(nested(sh, j, c as int, d as int));
            }
        }
    }
}

/// Items left of a node's median lie farther than `radius` from a query
/// that is at least the median plus `radius` away from the node.
proof fn lemma_prune_left(words: Seq<Seq<char>>, sh: Shape, perm: Seq<usize>, n: int, j: int, q: Seq<char>, radius: int)
    requires
        node_ok(words, sh, perm, n, j),
        2 * edit_distance(words[sh.nodes[j] as int], q) >= sh.mus[j] + 2 * radius,
    ensures
        forall|p: int| sh.lows[j] <= p < sh.mids[j] ==> edit_distance(#[trigger] words[perm[p] as int], q) > radius,
{
    assert forall|p: int| sh.lows[j] <= p < sh.mids[j] implies edit_distance(#[trigger] words[perm[p] as int], q) > radius by {
        assert(2 * vdist(words, sh, perm, j, p) < sh.mus[j]);
        lemma_distance_triangle(words[sh.nodes[j] as int], words[perm[p] as int], q);
    }
}

/// Items right of a node's median lie farther than `radius` from a query
/// that is more than `radius` nearer to the node than the median.
proof fn lemma_prune_right(words: Seq<Seq<char>>, sh: Shape, perm: Seq<usize>, n: int, j: int, q: Seq<char>, radius: int)
    requires
        node_ok(words, sh, perm, n, j),
        2 * edit_distance(words[sh.nodes[j] as int], q) + 2 * radius < sh.mus[j],
    ensures
        forall|p: int| sh.mids[j] <= p < sh.highs[j] - 1 ==> edit_distance(#[trigger] words[perm[p] as int], q) > radius,
{
    assert forall|p: int| sh.mids[j] <= p < sh.highs[j] - 1 implies edit_distance(#[trigger] words[perm[p] as int], q)
        > radius by {
        assert(2 * vdist(words, sh, perm, j, p) >= sh.mus[j]);
        lemma_distance_triangle(words[sh.nodes[j] as int], q, words[perm[p] as int]);
        lemma_distance_symmetric(q, words[perm[p] as int]);
    }
}

/// A sequence of distinct indices below `n` of length `n` holds every index.
proof fn lemma_perm_covers(perm: Seq<usize>, n: int, i: int) -> (p: int)
    requires
        perm.len() == n,
        perm.no_duplicates(),
        forall|x: int| 0 <= x < n ==> (#[trigger] perm[x]) < n,
        0 <= i < n,
    ensures
        0 <= p < n,
        perm[p] == i,
{
    let s = perm.map_values(|v: usize| v as int);
    assert forall|a: int, b: int| 0 <= a < s.len() && 0 <= b < s.len() && a != b implies s[a] != s[b] by {
        assert(perm[a] != perm[b]);
    }
    if !s.contains(i) {
        assert(s.to_set().subset_of(vstd::set_lib::set_int_range(0, n).remove(i)));
        s.unique_seq_to_set();
        vstd::set_lib::lemma_int_range(0, n);
        vstd::set_lib::lemma_len_subset(s.to_set(), vstd::set_lib::set_int_range(0, n).remove(i));
        assert(false);
    }
    let p = choose|p: int| 0 <= p < s.len() && s[p] == i;
    p
}

/// The total number of positions under the nodes of a stack.
pub open spec fn pending(sh: Shape, st: Seq<usize>) -> int
    decreases st.len(),
{
    if st.len() == 0 {
        0
    } else {
        pending(sh, st.drop_last()) + (sh.highs[st.last() as int] - sh.lows[st.last() as int])
    }
}

/// No stack holds a negative number of positions.
proof fn lemma_pending_nonneg(sh: Shape, st: Seq<usize>)
    requires
        forall|t: int| 0 <= t < st.len() ==> sh.lows[(#[trigger] st[t]) as int] <= sh.highs[st[t] as int],
    ensures
        pending(sh, st) >= 0,
    decreases st.len(),
{
    if st.len() > 0 {
        assert forall|t: int| 0 <= t < st.drop_last().len() implies sh.lows[(#[trigger] st.drop_last()[t]) as int]
            <= sh.highs[st.drop_last()[t] as int] by {
            assert(st.drop_last()[t] == st[t]);
        }
        lemma_pending_nonneg(sh, st.drop_last());
        assert(st.last() == st[st.len() - 1]);
    }
}

/// The search results: each reports a distinct item within `radius`, and
/// every item within `radius` is reported.
pub open spec fn radius_result(words: Seq<Seq<char>>, q: Seq<char>, radius: int, r: Seq<VpNeighbor>, src: Seq<int>) -> bool {
    &&& src.len() == r.len()
    &&& src.no_duplicates()
    &&& results_ok(words, words.len() as int, q, radius, src, r)
    &&& forall|i: int| 0 <= i < words.len() && edit_distance(#[trigger] words[i], q) <= radius ==> src.contains(i)
}

/// Each result is the distance to the query and the item `src[t]`,
/// which lies within `radius`.
pub open spec fn results_ok(words: Seq<Seq<char>>, n: int, q: Seq<char>, radius: int, src: Seq<int>, res: Seq<VpNeighbor>) -> bool {
    forall|t: int| 0 <= t < res.len() ==> #[trigger] result_at(words, n, q, radius, src[t], res[t])
}

/// `r` reports item `i`, which lies within `radius` of the query.
pub open spec fn result_at(words: Seq<Seq<char>>, n: int, q: Seq<char>, radius: int, i: int, r: VpNeighbor) -> bool {
    &&& 0 <= i < n
    &&& r.distance == edit_distance(words[i], q)
    &&& r.item@ == words[i]
    &&& edit_distance(words[i], q) <= radius
}

/// Reporting one more item within `radius` keeps the results in order.
proof fn lemma_results_push(
    words: Seq<Seq<char>>,
    n: int,
    q: Seq<char>,
    radius: int,
    src: Seq<int>,
    res: Seq<VpNeighbor>,
    i: int,
    x: VpNeighbor,
)
    requires
        results_ok(words, n, q, radius, src, res),
        src.len() == res.len(),
        0 <= i < n,
        x.distance == edit_distance(words[i], q),
        x.item@ == words[i],
        x.distance <= radius,
    ensures
        results_ok(words, n, q, radius, src.push(i), res.push(x)),
{
    let s2 = src.push(i);
    let r2 = res.push(x);
    assert forall|t: int| 0 <= t < r2.len() implies #[trigger] result_at(words, n, q, radius, s2[t], r2[t]) by {
        if t < res.len() {
            assert(r2[t] == res[t] && s2[t] == src[t]);
            assert(result_at(words, n, q, radius, src[t], res[t]));
        } else {
            assert(r2[t] == x && s2[t] == i);
        }
    }
}

/// Some decided position holds item `v`.
pub open spec fn from_seen(seen: Set<int>, perm: Seq<usize>, v: int) -> bool {
    exists|p: int| #[trigger] seen.contains(p) && perm[p] == v
}

/// The positions of a node decided by a visit: its own, and those of each
/// part that was not pushed.
pub open spec fn decided(lo: int, mid: int, hi: int, pl: bool, pr: bool) -> Set<int> {
    Set::new(|p: int| p == hi - 1 || (!pl && lo <= p < mid) || (!pr && mid <= p < hi - 1))
}

/// `s` with node `j` pushed when `b` holds.
pub open spec fn push_node_if(s: Seq<usize>, b: bool, j: usize) -> Seq<usize> {
    if b {
        s.push(j)
    } else {
        s
    }
}

/// The state of a walk down the tree: the pending nodes have disjoint
/// ranges, apart from the positions already decided, and together they
/// cover every position.
pub open spec fn walk_ok(sh: Shape, n: int, st: Seq<usize>, seen: Set<int>) -> bool {
    &&& forall|t: int| 0 <= t < st.len() ==> (#[trigger] st[t]) < n
    &&& forall|t: int, u: int|
        0 <= t < u < st.len() ==> sh.highs[(#[trigger] st[t]) as int] <= sh.lows[(#[trigger] st[u]) as int]
            || sh.highs[st[u] as int] <= sh.lows[st[t] as int]
    &&& forall|t: int, p: int|
        0 <= t < st.len() && sh.lows[(#[trigger] st[t]) as int] <= p < sh.highs[st[t] as int] ==> !#[trigger] seen.contains(p)
    &&& forall|p: int|
        0 <= p < n ==> #[trigger] seen.contains(p) || exists|t: int|
            0 <= t < st.len() && sh.lows[(#[trigger] st[t]) as int] <= p < sh.highs[st[t] as int]
    &&& forall|p: int| #[trigger] seen.contains(p) ==> 0 <= p < n
}

/// The state of a radius search: the pending nodes have disjoint ranges,
/// apart from the positions already decided; together they cover every
/// position; the results so far are the decided items within `radius`.
pub open spec fn search_ok(
    words: Seq<Seq<char>>,
    sh: Shape,
    perm: Seq<usize>,
    n: int,
    q: Seq<char>,
    radius: int,
    st: Seq<usize>,
    seen: Set<int>,
    src: Seq<int>,
    res: Seq<VpNeighbor>,
) -> bool {
    &&& walk_ok(sh, n, st, seen)
    &&& src.len() == res.len()
    &&& src.no_duplicates()
    &&& results_ok(words, n, q, radius, src, res)
    &&& forall|t: int| 0 <= t < src.len() ==> #[trigger] from_seen(seen, perm, src[t])
    &&& forall|p: int|
        #[trigger] seen.contains(p) && edit_distance(words[perm[p] as int], q) <= radius ==> src.contains(
            perm[p] as int,
        )
}

/// Reporting the item at a newly decided position when it is near keeps
/// the results in order.
proof fn lemma_search_results(
    words: Seq<Seq<char>>,
    perm: Seq<usize>,
    n: int,
    q: Seq<char>,
    radius: int,
    seen: Set<int>,
    src: Seq<int>,
    res: Seq<VpNeighbor>,
    v: int,
    x: VpNeighbor,
    extra: Set<int>,
    seen2: Set<int>,
    src2: Seq<int>,
    res2: Seq<VpNeighbor>,
)
    requires
        seen2 == seen.union(extra),
        src2 == (if x.distance <= radius { src.push(perm[v] as int) } else { src }),
        res2 == (if x.distance <= radius { res.push(x) } else { res }),
        0 <= v < n,
        perm.len() == n,
        perm.no_duplicates(),
        forall|y: int| 0 <= y < n ==> (#[trigger] perm[y]) < n,
        !seen.contains(v),
        extra.contains(v),
        forall|p: int| #[trigger] extra.contains(p) && p != v ==> edit_distance(words[perm[p] as int], q) > radius,
        forall|p: int| #[trigger] extra.contains(p) ==> 0 <= p < n,
        forall|p: int| #[trigger] seen.contains(p) ==> 0 <= p < n,
        x.distance == edit_distance(words[perm[v] as int], q),
        x.item@ == words[perm[v] as int],
        src.len() == res.len(),
        src.no_duplicates(),
        results_ok(words, n, q, radius, src, res),
        forall|t: int| 0 <= t < src.len() ==> #[trigger] from_seen(seen, perm, src[t]),
        forall|p: int|
            #[trigger] seen.contains(p) && edit_distance(words[perm[p] as int], q) <= radius ==> src.contains(
                perm[p] as int,
            ),
    ensures
        src2.len() == res2.len(),
        src2.no_duplicates(),
        results_ok(words, n, q, radius, src2, res2),
        forall|t: int| 0 <= t < src2.len() ==> #[trigger] from_seen(seen2, perm, src2[t]),
        forall|p: int|
            #[trigger] seen2.contains(p) && edit_distance(words[perm[p] as int], q) <= radius ==> src2.contains(
                perm[p] as int,
            ),
{
    let within = x.distance <= radius;
    let item = perm[v] as int;
    if within {
        assert forall|t: int| 0 <= t < src.len() implies src[t] != item by {
            assert(from_seen(seen, perm, src[t]));
            let p = choose|p: int| #[trigger] seen.contains(p) && perm[p] == src[t];
            if src[t] == item {
                assert(perm[p] == perm[v]);
                assert(p == v);
            }
        }
    }
    if within {
        lemma_results_push(words, n, q, radius, src, res, item, x);
    }
    assert forall|t: int| 0 <= t < src2.len() implies #[trigger] from_seen(seen2, perm, src2[t]) by {
        if t < src.len() {
            assert(src2[t] == src[t]);
            assert(from_seen(seen, perm, src[t]));
            let p = choose|p: int| #[trigger] seen.contains(p) && perm[p] == src[t];
            assert(seen2.contains(p));
        } else {
            assert(seen2.contains(v));
        }
    }
    assert forall|p: int|
        #[trigger] seen2.contains(p) && edit_distance(words[perm[p] as int], q) <= radius implies src2.contains(
        perm[p] as int,
    ) by {
        if seen.contains(p) {
            let t = choose|t: int| 0 <= t < src.len() && src[t] == perm[p] as int;
            assert(src2[t] == src[t]);
        } else if p == v {
            assert(src2[src.len() as int] == item);
        }
    }
}

/// Visiting a node and pushing some of its children, while deciding the
/// node's own position and the parts not pushed, keeps the walk in order
/// and leaves fewer positions pending.
proof fn lemma_walk_step(
    words: Seq<Seq<char>>,
    sh: Shape,
    perm: Seq<usize>,
    n: int,
    st: Seq<usize>,
    seen: Set<int>,
    j: usize,
    a: usize,
    pa: bool,
    b: usize,
    pb: bool,
    st2: Seq<usize>,
    seen2: Set<int>,
)
    requires
        st2 == push_node_if(push_node_if(st, pa, a), pb, b),
        seen2 == seen.union(
            decided(
                sh.lows[j as int],
                sh.mids[j as int],
                sh.highs[j as int],
                (pa && a == sh.lefts[j as int]) || (pb && b == sh.lefts[j as int]),
                (pa && a == sh.rights[j as int]) || (pb && b == sh.rights[j as int]),
            ),
        ),
        walk_ok(sh, n, st.push(j), seen),
        forall|i: int| 0 <= i < n ==> #[trigger] node_ok(words, sh, perm, n, i),
        (a == sh.lefts[j as int] && b == sh.rights[j as int]) || (a == sh.rights[j as int] && b == sh.lefts[j as int]),
        pa ==> a != 0,
        pb ==> b != 0,
    ensures
        walk_ok(sh, n, st2, seen2),
        pending(sh, st2) < pending(sh, st.push(j)),
        0 <= pending(sh, st2),
        !seen.contains(sh.highs[j as int] - 1),
        0 <= sh.highs[j as int] - 1 < n,
{
    let st0 = st.push(j);
    let lo = sh.lows[j as int];
    let hi = sh.highs[j as int];
    let mid = sh.mids[j as int];
    let left = sh.lefts[j as int];
    let right = sh.rights[j as int];
    let pl = (pa && a == left) || (pb && b == left);
    let pr = (pa && a == right) || (pb && b == right);
    let st1 = push_node_if(st, pa, a);
    assert(st0[st.len() as int] == j);
    assert(j < n);
    assert(node_ok(words, sh, perm, n, j as int));
    assert forall|t: int| 0 <= t < st.len() implies #[trigger] st0[t] == st[t] by {}
    // The ranges of the old entries avoid the node's range.
    assert forall|t: int| 0 <= t < st.len() implies sh.highs[(#[trigger] st[t]) as int] <= lo || hi <= sh.lows[st[t] as int] by {
        assert(st0[t] == st[t]);
    }
    // Where the entries of the new stack come from.
    assert(st2.len() == st.len() + (if pa { 1int } else { 0 }) + (if pb { 1int } else { 0 }));
    assert forall|t: int| 0 <= t < st2.len() implies (t < st.len() && #[trigger] st2[t] == st[t]) || (t >= st.len() && (
    (pl && st2[t] == left) || (pr && st2[t] == right))) by {
        if t < st.len() {
            if pa {
                assert(st1[t] == st[t]);
            }
            if pb {
                assert(st2[t] == st1[t]);
            }
        } else if pa && t == st.len() {
            assert(st1[t] == a);
            if pb {
                assert(st2[t] == st1[t]);
            }
        } else {
            assert(pb && t == st1.len());
            assert(st2[t] == b);
        }
    }
    if pl && pr {
        assert(left != right);
    }
    // The positions pushed are apart: the new entries hold different children.
    assert forall|t: int, u: int| st.len() <= t < u < st2.len() implies st2[t] != st2[u] by {
        assert(pa && pb);
    }
    // Stack entries.
    assert forall|t: int| 0 <= t < st2.len() implies (#[trigger] st2[t]) < n by {
        if t < st.len() {
            assert(st0[t] == st[t]);
        }
    }
    assert forall|t: int, u: int|
        0 <= t < u < st2.len() implies sh.highs[(#[trigger] st2[t]) as int] <= sh.lows[(#[trigger] st2[u]) as int]
        || sh.highs[st2[u] as int] <= sh.lows[st2[t] as int] by {
        if u < st.len() {
            assert(st0[t] == st2[t] && st0[u] == st2[u]);
        } else if t < st.len() {
        } else {
            assert(st2[t] != st2[u]);
        }
    }
    assert forall|t: int, p: int|
        0 <= t < st2.len() && sh.lows[(#[trigger] st2[t]) as int] <= p < sh.highs[st2[t] as int] implies !#[trigger] seen2.contains(p) by {
        if t < st.len() {
            assert(st0[t] == st2[t]);
        } else {
            assert(lo <= p < hi - 1);
            assert(!seen.contains(p));
        }
    }
    assert forall|p: int| 0 <= p < n implies #[trigger] seen2.contains(p) || exists|t: int|
        0 <= t < st2.len() && sh.lows[(#[trigger] st2[t]) as int] <= p < sh.highs[st2[t] as int] by {
        if !seen.contains(p) {
            let t = choose|t: int| 0 <= t < st0.len() && sh.lows[(#[trigger] st0[t]) as int] <= p < sh.highs[st0[t] as int];
            if t < st.len() {
                assert(st2[t] == st0[t]);
            } else if p < hi - 1 && !seen2.contains(p) {
                if p < mid {
                    assert(pl);
                    if pa && a == left {
                        assert(st2[st.len() as int] == left);
                    } else {
                        assert(st2[st.len() + (if pa { 1int } else { 0 })] == left);
                    }
                } else {
                    assert(pr);
                    if pa && a == right {
                        assert(st2[st.len() as int] == right);
                    } else {
                        assert(st2[st.len() + (if pa { 1int } else { 0 })] == right);
                    }
                }
            }
        }
    }
    // Pending positions.
    assert(st0.drop_last() =~= st);
    assert(pending(sh, st0) == pending(sh, st) + (hi - lo));
    let wa = if a == left { mid - lo } else { hi - 1 - mid };
    let wb = if b == left { mid - lo } else { hi - 1 - mid };
    if pa {
        assert(st1.drop_last() =~= st);
        assert(pending(sh, st1) == pending(sh, st) + wa);
    }
    if pb {
        assert(st2.drop_last() =~= st1);
        assert(pending(sh, st2) == pending(sh, st1) + wb);
    }
    if pa && pb {
        assert(a != b);
    }
    assert(pending(sh, st2) <= pending(sh, st) + (hi - 1 - lo));
    assert forall|t: int| 0 <= t < st2.len() implies sh.lows[(#[trigger] st2[t]) as int] <= sh.highs[st2[t] as int] by {
        assert(node_ok(words, sh, perm, n, st2[t] as int));
    }
    lemma_pending_nonneg(sh, st2);
    assert(forall|t: int| 0 <= t < st2.len() ==> (#[trigger] st2[t]) < n);
    assert(forall|p: int| #[trigger] seen2.contains(p) ==> 0 <= p < n);
    assert(walk_ok(sh, n, st2, seen2));
}


/// Visiting a node, reporting its item when near, and pushing the children
/// that may hold near items while setting aside the others keeps the
/// search state, and leaves fewer positions pending.
proof fn lemma_search_step(
    words: Seq<Seq<char>>,
    sh: Shape,
    perm: Seq<usize>,
    n: int,
    q: Seq<char>,
    radius: int,
    st: Seq<usize>,
    seen: Set<int>,
    src: Seq<int>,
    res: Seq<VpNeighbor>,
    j: usize,
    x: VpNeighbor,
    a: usize,
    pa: bool,
    b: usize,
    pb: bool,
    st2: Seq<usize>,
    seen2: Set<int>,
    src2: Seq<int>,
    res2: Seq<VpNeighbor>,
)
    requires
        st2 == push_node_if(push_node_if(st, pa, a), pb, b),
        seen2 == seen.union(
            decided(
                sh.lows[j as int],
                sh.mids[j as int],
                sh.highs[j as int],
                (pa && a == sh.lefts[j as int]) || (pb && b == sh.lefts[j as int]),
                (pa && a == sh.rights[j as int]) || (pb && b == sh.rights[j as int]),
            ),
        ),
        src2 == (if x.distance <= radius { src.push(perm[sh.highs[j as int] - 1] as int) } else { src }),
        res2 == (if x.distance <= radius { res.push(x) } else { res }),
        search_ok(words, sh, perm, n, q, radius, st.push(j), seen, src, res),
        forall|i: int| 0 <= i < n ==> #[trigger] node_ok(words, sh, perm, n, i),
        perm.len() == n,
        perm.no_duplicates(),
        words.len() == n,
        forall|y: int| 0 <= y < n ==> (#[trigger] perm[y]) < n,
        (a == sh.lefts[j as int] && b == sh.rights[j as int]) || (a == sh.rights[j as int] && b == sh.lefts[j as int]),
        pa ==> a != 0,
        pb ==> b != 0,
        x.distance == edit_distance(words[perm[sh.highs[j as int] - 1] as int], q),
        x.item@ == words[perm[sh.highs[j as int] - 1] as int],
        !((pa && a == sh.lefts[j as int]) || (pb && b == sh.lefts[j as int])) ==> forall|p: int|
            sh.lows[j as int] <= p < sh.mids[j as int] ==> edit_distance(#[trigger] words[perm[p] as int], q) > radius,
        !((pa && a == sh.rights[j as int]) || (pb && b == sh.rights[j as int])) ==> forall|p: int|
            sh.mids[j as int] <= p < sh.highs[j as int] - 1 ==> edit_distance(#[trigger] words[perm[p] as int], q) > radius,
    ensures
        search_ok(words, sh, perm, n, q, radius, st2, seen2, src2, res2),
        pending(sh, st2) < pending(sh, st.push(j)),
        0 <= pending(sh, st2),
{
    let lo = sh.lows[j as int];
    let hi = sh.highs[j as int];
    let mid = sh.mids[j as int];
    let pl = (pa && a == sh.lefts[j as int]) || (pb && b == sh.lefts[j as int]);
    let pr = (pa && a == sh.rights[j as int]) || (pb && b == sh.rights[j as int]);
    lemma_walk_step(words, sh, perm, n, st, seen, j, a, pa, b, pb, st2, seen2);
    assert(st.push(j)[st.len() as int] == j);
    assert(node_ok(words, sh, perm, n, j as int));
    lemma_search_results(words, perm, n, q, radius, seen, src, res, hi - 1, x, decided(lo, mid, hi, pl, pr), seen2, src2, res2);
}

/// The bookkeeping of a nearest-neighbor walk after one visit: `r` holds
/// the records decided so far and `h` those kept in the heap. Before the
/// heap is full nothing was dropped; once it is full, every dropped record
/// is at least as far as the farthest kept one.
proof fn lemma_knn_update(
    r: Multiset<VpNeighbor>,
    h: Multiset<VpNeighbor>,
    hmax: usize,
    full: bool,
    x: VpNeighbor,
    inserted: bool,
    popped: bool,
    m: VpNeighbor,
    h2: Multiset<VpNeighbor>,
    h2max: usize,
    full2: bool,
    root2: VpNeighbor,
    pruned: Multiset<VpNeighbor>,
)
    requires
        forall|y: VpNeighbor| #[trigger] h.count(y) <= r.count(y),
        !full ==> h == r,
        full ==> forall|y: VpNeighbor| #[trigger] r.count(y) > h.count(y) ==> y.distance >= hmax,
        full ==> forall|y: VpNeighbor| #[trigger] h.count(y) > 0 ==> y.distance <= hmax,
        inserted <==> (!full || x.distance < hmax),
        !inserted ==> h2 == h && full2 == full && h2max == hmax,
        inserted && !popped ==> h2 == h.insert(x) && !full,
        inserted && popped ==> full && h2 == h.insert(x).remove(m) && h.insert(x).count(m) > 0 && forall|y: VpNeighbor|
            #[trigger] h.insert(x).count(y) > 0 ==> y.distance <= m.distance,
        popped ==> inserted && full2,
        full2 ==> h2.count(root2) > 0 && root2.distance == h2max,
        !full2 ==> pruned =~= Multiset::empty(),
        full2 ==> forall|y: VpNeighbor| #[trigger] pruned.count(y) > 0 ==> y.distance >= h2max,
    ensures
        forall|y: VpNeighbor| #[trigger] h2.count(y) <= r.insert(x).add(pruned).count(y),
        !full2 ==> h2 == r.insert(x).add(pruned),
        full2 ==> forall|y: VpNeighbor| #[trigger] r.insert(x).add(pruned).count(y) > h2.count(y) ==> y.distance >= h2max,
{
    broadcast use vstd::multiset::group_multiset_properties;

    let r2 = r.insert(x).add(pruned);
    if !inserted {
        assert forall|y: VpNeighbor| #[trigger] r2.count(y) > h2.count(y) implies y.distance >= h2max by {
            if r.count(y) > h.count(y) {
            } else if y == x {
            } else {
                assert(pruned.count(y) > 0);
            }
        }
    } else if !popped {
        if !full2 {
            assert(r2 =~= h2);
        } else {
            assert forall|y: VpNeighbor| #[trigger] r2.count(y) > h2.count(y) implies y.distance >= h2max by {
                assert(pruned.count(y) > 0);
            }
        }
    } else {
        assert(m.distance <= hmax) by {
            if m != x {
                assert(h.count(m) > 0);
            }
        }
        assert(root2.distance <= m.distance) by {
            assert(h.insert(x).count(root2) > 0);
        }
        assert forall|y: VpNeighbor| #[trigger] h2.count(y) <= r2.count(y) by {}
        assert forall|y: VpNeighbor| #[trigger] r2.count(y) > h2.count(y) implies y.distance >= h2max by {
            if r.count(y) > h.count(y) {
            } else if y == m {
            } else {
                assert(pruned.count(y) > 0);
            }
        }
    }
}

/// A distance, capped at the largest `usize`.
pub open spec fn capped(d: nat) -> usize {
    if d <= usize::MAX {
        d as usize
    } else {
        usize::MAX
    }
}

/// The record of item `i` for the query `q`: its distance and the item.
pub open spec fn neighbor_of(items: Seq<String>, q: Seq<char>, i: int) -> VpNeighbor {
    VpNeighbor { distance: capped(edit_distance(items[i]@, q)), item: items[i] }
}

/// The records of every item.
pub open spec fn all_neighbors(items: Seq<String>, q: Seq<char>) -> Multiset<VpNeighbor> {
    Seq::new(items.len(), |i: int| neighbor_of(items, q, i)).to_multiset()
}

/// The records of the items at positions `ps` of `perm`.
pub open spec fn record_seq(items: Seq<String>, perm: Seq<usize>, q: Seq<char>, ps: Seq<int>) -> Seq<VpNeighbor> {
    Seq::new(ps.len(), |t: int| neighbor_of(items, q, perm[ps[t]] as int))
}

/// The positions `lo..hi`, in order.
pub open spec fn span(lo: int, hi: int) -> Seq<int> {
    Seq::new(if lo <= hi { (hi - lo) as nat } else { 0 }, |t: int| lo + t)
}

/// The positions of a node's parts that were not pushed.
pub open spec fn pruned_seq(lo: int, mid: int, hi: int, pl: bool, pr: bool) -> Seq<int> {
    (if !pl { span(lo, mid) } else { Seq::empty() }) + (if !pr { span(mid, hi - 1) } else { Seq::empty() })
}

/// A sub-multiset is no larger.
proof fn lemma_sub_multiset_len(h: Multiset<VpNeighbor>, r: Multiset<VpNeighbor>)
    requires
        forall|y: VpNeighbor| #[trigger] h.count(y) <= r.count(y),
    ensures
        h.len() <= r.len(),
{
    broadcast use vstd::multiset::group_multiset_properties;

    assert(r =~= h.add(r.sub(h)));
}

/// Records of positions listed one after the other.
proof fn lemma_record_concat(items: Seq<String>, perm: Seq<usize>, q: Seq<char>, a: Seq<int>, b: Seq<int>)
    ensures
        record_seq(items, perm, q, a + b).to_multiset() == record_seq(items, perm, q, a).to_multiset().add(
            record_seq(items, perm, q, b).to_multiset(),
        ),
{
    assert(record_seq(items, perm, q, a + b) =~= record_seq(items, perm, q, a) + record_seq(items, perm, q, b));
    vstd::seq_lib::lemma_multiset_commutative(record_seq(items, perm, q, a), record_seq(items, perm, q, b));
}

/// The records of all positions of a permutation are the records of all
/// items.
proof fn lemma_records_all(items: Seq<String>, perm: Seq<usize>, q: Seq<char>, n: int, decp: Seq<int>)
    requires
        items.len() == n,
        n <= usize::MAX,
        perm.len() == n,
        perm.no_duplicates(),
        forall|x: int| 0 <= x < n ==> (#[trigger] perm[x]) < n,
        decp.no_duplicates(),
        forall|t: int| 0 <= t < decp.len() ==> 0 <= #[trigger] decp[t] < n,
        forall|p: int| 0 <= p < n ==> #[trigger] decp.contains(p),
    ensures
        record_seq(items, perm, q, decp).to_multiset() == all_neighbors(items, q),
{
    let all = span(0, n);
    assert forall|p: int| decp.contains(p) <==> all.contains(p) by {
        if decp.contains(p) {
            let t = choose|t: int| 0 <= t < decp.len() && decp[t] == p;
            assert(all[p] == p);
        }
        if all.contains(p) {
            let t = choose|t: int| 0 <= t < all.len() && all[t] == p;
        }
    }
    crate::seq_facts::lemma_same_set_no_dup_multiset(decp, all);
    let g = |p: int| neighbor_of(items, q, perm[p] as int);
    crate::seq_facts::lemma_map_preserves_multiset(decp, all, g);
    assert(record_seq(items, perm, q, decp) =~= decp.map_values(g));
    let ids = Seq::new(n as nat, |i: int| i as usize);
    assert forall|a: int, b: int| 0 <= a < ids.len() && 0 <= b < ids.len() && a != b implies ids[a] != ids[b] by {}
    assert forall|v: usize| perm.contains(v) <==> ids.contains(v) by {
        if perm.contains(v) {
            let t = choose|t: int| 0 <= t < perm.len() && perm[t] == v;
            assert(ids[v as int] == v);
        }
        if ids.contains(v) {
            let t = choose|t: int| 0 <= t < ids.len() && ids[t] == v;
            let p = lemma_perm_covers(perm, n, t);
        }
    }
    crate::seq_facts::lemma_same_set_no_dup_multiset(perm, ids);
    let f = |v: usize| neighbor_of(items, q, v as int);
    crate::seq_facts::lemma_map_preserves_multiset(perm, ids, f);
    assert(all.map_values(g) =~= perm.map_values(f));
    assert(ids.map_values(f) =~= Seq::new(items.len(), |i: int| neighbor_of(items, q, i)));
}

/// Deciding a node's own position and its parts not pushed adds their
/// records to the decided ones, each position once.
proof fn lemma_knn_decided(
    items: Seq<String>,
    words: Seq<Seq<char>>,
    sh: Shape,
    perm: Seq<usize>,
    n: int,
    q: Seq<char>,
    st: Seq<usize>,
    seen: Set<int>,
    decp: Seq<int>,
    j: usize,
    pl: bool,
    pr: bool,
)
    requires
        walk_ok(sh, n, st.push(j), seen),
        forall|i: int| 0 <= i < n ==> #[trigger] node_ok(words, sh, perm, n, i),
        decp.no_duplicates(),
        forall|p: int| #[trigger] seen.contains(p) <==> decp.contains(p),
    ensures
        ({
            let lo = sh.lows[j as int];
            let hi = sh.highs[j as int];
            let mid = sh.mids[j as int];
            let decp2 = decp.push(hi - 1) + pruned_seq(lo, mid, hi, pl, pr);
            &&& decp2.no_duplicates()
            &&& forall|p: int| #[trigger] seen.union(decided(lo, mid, hi, pl, pr)).contains(p) <==> decp2.contains(p)
            &&& record_seq(items, perm, q, decp2).to_multiset() == record_seq(items, perm, q, decp).to_multiset().insert(
                neighbor_of(items, q, perm[hi - 1] as int),
            ).add(record_seq(items, perm, q, pruned_seq(lo, mid, hi, pl, pr)).to_multiset())
        }),
{
    broadcast use vstd::seq_lib::to_multiset_build;

    let st0 = st.push(j);
    let lo = sh.lows[j as int];
    let hi = sh.highs[j as int];
    let mid = sh.mids[j as int];
    let ps = pruned_seq(lo, mid, hi, pl, pr);
    let d1 = decp.push(hi - 1);
    let decp2 = d1 + ps;
    let seen2 = seen.union(decided(lo, mid, hi, pl, pr));
    assert(st0[st.len() as int] == j);
    assert(node_ok(words, sh, perm, n, j as int));
    // The node's positions are undecided.
    assert forall|p: int| lo <= p < hi implies !#[trigger] decp.contains(p) by {
        assert(!seen.contains(p));
    }
    let l1 = if !pl { span(lo, mid) } else { Seq::<int>::empty() };
    let l2 = if !pr { span(mid, hi - 1) } else { Seq::<int>::empty() };
    assert(ps == l1 + l2);
    assert forall|t: int| 0 <= t < ps.len() implies lo <= #[trigger] ps[t] < hi - 1 && (!pl && ps[t] < mid || !pr && ps[t]
        >= mid) by {
        if t < l1.len() {
            assert(ps[t] == l1[t]);
        } else {
            assert(ps[t] == l2[t - l1.len()]);
        }
    }
    assert forall|a: int, b: int| 0 <= a < decp2.len() && 0 <= b < decp2.len() && a != b implies decp2[a] != decp2[b] by {
        if a < decp.len() && b < decp.len() {
            assert(decp2[a] == decp[a] && decp2[b] == decp[b]);
        } else if a < d1.len() && b < d1.len() {
            assert(decp2[a] == d1[a] && decp2[b] == d1[b]);
            if a < decp.len() {
                assert(decp.contains(decp[a]));
            } else {
                assert(decp.contains(decp[b]));
            }
        } else if a < d1.len() {
            assert(decp2[a] == d1[a] && decp2[b] == ps[b - d1.len()]);
            if a < decp.len() {
                assert(decp.contains(decp[a]));
            }
        } else if b < d1.len() {
            assert(decp2[b] == d1[b] && decp2[a] == ps[a - d1.len()]);
            if b < decp.len() {
                assert(decp.contains(decp[b]));
            }
        } else {
            let ta = a - d1.len();
            let tb = b - d1.len();
            assert(decp2[a] == ps[ta] && decp2[b] == ps[tb]);
            if ta < l1.len() && tb < l1.len() {
                assert(ps[ta] == l1[ta] && ps[tb] == l1[tb]);
            } else if ta >= l1.len() && tb >= l1.len() {
                assert(ps[ta] == l2[ta - l1.len()] && ps[tb] == l2[tb - l1.len()]);
            }
        }
    }
    assert forall|p: int| #[trigger] seen2.contains(p) <==> decp2.contains(p) by {
        if seen2.contains(p) {
            if seen.contains(p) {
                let t = choose|t: int| 0 <= t < decp.len() && decp[t] == p;
                assert(decp2[t] == p);
            } else if p == hi - 1 {
                assert(decp2[decp.len() as int] == p);
            } else if !pl && lo <= p < mid {
                assert(l1[p - lo] == p && ps[p - lo] == p);
                assert(decp2[d1.len() + (p - lo)] == p);
            } else {
                assert(!pr && mid <= p < hi - 1);
                assert(l2[p - mid] == p && ps[l1.len() + (p - mid)] == p);
                assert(decp2[d1.len() + l1.len() + (p - mid)] == p);
            }
        }
        if decp2.contains(p) {
            let t = choose|t: int| 0 <= t < decp2.len() && decp2[t] == p;
            if t < decp.len() {
                assert(decp[t] == p && decp.contains(p));
            } else if t == decp.len() {
            } else {
                assert(ps[t - d1.len()] == p);
            }
        }
    }
    lemma_record_concat(items, perm, q, d1, ps);
    assert(record_seq(items, perm, q, d1) =~= record_seq(items, perm, q, decp).push(neighbor_of(items, q, perm[hi - 1] as int)));
}

/// The records of pruned positions lie at least `tau` away.
proof fn lemma_pruned_far(
    items: Seq<String>,
    perm: Seq<usize>,
    q: Seq<char>,
    lo: int,
    mid: int,
    hi: int,
    pl: bool,
    pr: bool,
    tau: int,
)
    requires
        0 <= tau <= usize::MAX,
        !pl ==> forall|p: int| lo <= p < mid ==> edit_distance(#[trigger] items[perm[p] as int]@, q) > tau,
        !pr ==> forall|p: int| mid <= p < hi - 1 ==> edit_distance(#[trigger] items[perm[p] as int]@, q) > tau,
    ensures
        forall|y: VpNeighbor|
            #[trigger] record_seq(items, perm, q, pruned_seq(lo, mid, hi, pl, pr)).to_multiset().count(y) > 0 ==> y.distance
                >= tau,
{
    let ps = pruned_seq(lo, mid, hi, pl, pr);
    let rs = record_seq(items, perm, q, ps);
    let l1 = if !pl { span(lo, mid) } else { Seq::<int>::empty() };
    let l2 = if !pr { span(mid, hi - 1) } else { Seq::<int>::empty() };
    assert forall|y: VpNeighbor| #[trigger] rs.to_multiset().count(y) > 0 implies y.distance >= tau by {
        vstd::seq_lib::to_multiset_contains(rs, y);
        let t = choose|t: int| 0 <= t < rs.len() && rs[t] == y;
        if t < l1.len() {
            assert(ps[t] == l1[t]);
            assert(edit_distance(items[perm[ps[t]] as int]@, q) > tau);
        } else {
            assert(ps[t] == l2[t - l1.len()]);
            assert(edit_distance(items[perm[ps[t]] as int]@, q) > tau);
        }
    }
}

/// Every entry of a heap is at most as far as its root.
proof fn lemma_heap_ms_max(h: Seq<VpNeighbor>)
    requires
        is_max_heap(h),
    ensures
        forall|y: VpNeighbor| #[trigger] h.to_multiset().count(y) > 0 ==> y.distance <= h[0].distance,
{
    assert forall|y: VpNeighbor| #[trigger] h.to_multiset().count(y) > 0 implies y.distance <= h[0].distance by {
        vstd::seq_lib::to_multiset_contains(h, y);
        let i = choose|i: int| 0 <= i < h.len() && h[i] == y;
        lemma_heap_root_max(h, i);
    }
}

/// Every entry of a sequence is at most as far as a given bound, counted
/// in its multiset.
proof fn lemma_ms_bound(h: Seq<VpNeighbor>, bound: usize)
    requires
        forall|i: int| 0 <= i < h.len() ==> (#[trigger] h[i]).distance <= bound,
    ensures
        forall|y: VpNeighbor| #[trigger] h.to_multiset().count(y) > 0 ==> y.distance <= bound,
{
    assert forall|y: VpNeighbor| #[trigger] h.to_multiset().count(y) > 0 implies y.distance <= bound by {
        vstd::seq_lib::to_multiset_contains(h, y);
        let i = choose|i: int| 0 <= i < h.len() && h[i] == y;
    }
}

/// The views of a list of strings.
pub open spec fn words_of(items: Seq<String>) -> Seq<Seq<char>> {
    items.map_values(|s: String| s@)
}

/// An immutable vantage point tree over strings under the Levenshtein
/// distance. Node 0 is the root; a child index of 0 means no child.
pub struct StringVpTree {
    items: Vec<String>,
    nodes: Vec<usize>,
    lefts: Vec<usize>,
    rights: Vec<usize>,
    mus: Vec<u128>,
    perm: Ghost<Seq<usize>>,
    lows: Ghost<Seq<int>>,
    highs: Ghost<Seq<int>>,
    mids: Ghost<Seq<int>>,
}

impl StringVpTree {
    /// The items, in the order given.
    pub closed spec fn words(&self) -> Seq<Seq<char>> {
        words_of(self.items@)
    }

    /// The items as strings.
    pub closed spec fn items_view(&self) -> Seq<String> {
        self.items@
    }

    /// The shape of the tree.
    pub closed spec fn shape(&self) -> Shape {
        Shape {
            nodes: self.nodes@,
            lefts: self.lefts@,
            rights: self.rights@,
            mus: self.mus@,
            lows: self.lows@,
            highs: self.highs@,
            mids: self.mids@,
        }
    }

    /// Every node is in order over a permutation of the items.
    pub closed spec fn wf(&self) -> bool {
        let n = self.items@.len();
        let sh = self.shape();
        &&& sh.nodes.len() == n
        &&& sh.lefts.len() == n
        &&& sh.rights.len() == n
        &&& sh.mus.len() == n
        &&& sh.lows.len() == n
        &&& sh.highs.len() == n
        &&& sh.mids.len() == n
        &&& self.perm@.len() == n
        &&& forall|x: int| 0 <= x < n ==> (#[trigger] self.perm@[x]) < n
        &&& self.perm@.no_duplicates()
        &&& forall|j: int| 0 <= j < n ==> #[trigger] sh.mus[j] <= 2 * usize::MAX
        &&& n > 0 ==> sh.lows[0] == 0 && sh.highs[0] == n
        &&& forall|j: int| 0 <= j < n ==> #[trigger] node_ok(self.words(), sh, self.perm@, n as int, j)
    }

    /// Builds the tree of `items`.
    pub fn new(items: Vec<String>) -> (r: Self)
        ensures
            r.wf(),
            r.words() == words_of(items@),
    {
        let size = items.len();
        let mut nodes: Vec<usize> = Vec::new();
        let mut lefts: Vec<usize> = Vec::new();
        let mut rights: Vec<usize> = Vec::new();
        let mut mus: Vec<u128> = Vec::new();
        let mut i: usize = 0;
        while i < size
            invariant
                i <= size,
                nodes@.len() == i,
                lefts@.len() == i,
                rights@.len() == i,
                mus@.len() == i,
                forall|j: int| 0 <= j < i ==> #[trigger] lefts@[j] == 0 && rights@[j] == 0,
                forall|j: int| 0 <= j < i ==> #[trigger] mus@[j] == 0,
            decreases size - i,
        {
            nodes.push(0);
            lefts.push(0);
            rights.push(0);
            mus.push(0);
            i = i + 1;
        }
        let mut tree = StringVpTree {
            items,
            nodes,
            lefts,
            rights,
            mus,
            perm: Ghost(Seq::new(size as nat, |x: int| x as usize)),
            lows: Ghost(Seq::new(size as nat, |x: int| 0)),
            highs: Ghost(Seq::new(size as nat, |x: int| 0)),
            mids: Ghost(Seq::new(size as nat, |x: int| 0)),
        };
        if size > 0 {
            tree.create_binary_tree();
        } else {
            proof {
                assert(tree.perm@.no_duplicates());
            }
        }
        tree
    }

    /// The number of items.
    pub fn size(&self) -> (r: usize)
        ensures
            r == self.words().len(),
    {
        self.items.len()
    }

    /// The `k` items nearest to `query` with their distances, nearest
    /// first; which of several equally far items are kept is decided by the
    /// walk.
    pub fn nearest_neighbors(&self, k: usize, query: &str) -> (r: Vec<VpNeighbor>)
        requires
            self.wf(),
        ensures
            r@.len() == (if k <= self.items_view().len() { k as int } else { self.items_view().len() as int }),
            forall|a: int, b: int| 0 <= a <= b < r@.len() ==> r@[a].distance <= r@[b].distance,
            forall|y: VpNeighbor|
                #[trigger] r@.to_multiset().count(y) <= all_neighbors(self.items_view(), query@).count(y),
            r@.len() > 0 ==> forall|y: VpNeighbor|
                #[trigger] all_neighbors(self.items_view(), query@).count(y) > r@.to_multiset().count(y) ==> y.distance
                    >= r@.last().distance,
    {
        broadcast use vstd::seq_lib::group_to_multiset_ensures;
        broadcast use vstd::multiset::group_multiset_properties;

        let ghost items = self.items@;
        let ghost words = self.words();
        let ghost sh = self.shape();
        let ghost perm = self.perm@;
        let ghost q = query@;
        let ghost n = self.items@.len() as int;
        if k == 0 || self.items.len() == 0 {
            let r: Vec<VpNeighbor> = Vec::new();
            proof {
                assert(r@.to_multiset() =~= Multiset::empty());
            }
            return r;
        }
        let mut heap: Vec<VpNeighbor> = Vec::new();
        let mut stack: Vec<usize> = Vec::new();
        stack.push(0);
        let mut tau: Option<usize> = None;
        let ghost mut seen: Set<int> = Set::empty();
        let ghost mut decp: Seq<int> = Seq::empty();
        proof {
            assert(stack@[0] == 0);
            assert forall|p: int| 0 <= p < n implies #[trigger] seen.contains(p) || exists|t: int|
                0 <= t < stack@.len() && sh.lows[(#[trigger] stack@[t]) as int] <= p < sh.highs[stack@[t] as int] by {
                assert(sh.lows[stack@[0] as int] <= p < sh.highs[stack@[0] as int]);
            }
            assert(record_seq(items, perm, q, decp) =~= Seq::<VpNeighbor>::empty());
            assert(heap@.to_multiset() =~= record_seq(items, perm, q, decp).to_multiset());
        }
        while stack.len() > 0
            invariant
                self.wf(),
                items == self.items@,
                words == self.words(),
                words == words_of(items),
                sh == self.shape(),
                perm == self.perm@,
                q == query@,
                n == items.len(),
                n >= 1,
                k >= 1,
                walk_ok(sh, n, stack@, seen),
                decp.no_duplicates(),
                forall|p: int| #[trigger] seen.contains(p) <==> decp.contains(p),
                is_max_heap(heap@),
                heap@.len() <= k,
                forall|y: VpNeighbor|
                    #[trigger] heap@.to_multiset().count(y) <= record_seq(items, perm, q, decp).to_multiset().count(y),
                heap@.len() < k ==> heap@.to_multiset() == record_seq(items, perm, q, decp).to_multiset() && tau is None,
                heap@.len() == k ==> tau == Some(heap@[0].distance) && forall|y: VpNeighbor|
                    #[trigger] record_seq(items, perm, q, decp).to_multiset().count(y) > heap@.to_multiset().count(y)
                        ==> y.distance >= heap@[0].distance,
            decreases pending(sh, stack@),
        {
            let ghost st0 = stack@;
            proof {
                assert forall|t: int| 0 <= t < st0.len() implies sh.lows[(#[trigger] st0[t]) as int] <= sh.highs[st0[t] as int] by {
                    assert(node_ok(words, sh, perm, n, st0[t] as int));
                }
                lemma_pending_nonneg(sh, st0);
            }
            let node = stack.pop().unwrap();
            let ghost st = stack@;
            proof {
                assert(st0 =~= st.push(node));
                assert(st0[st.len() as int] == node);
                assert(node_ok(words, sh, perm, n, node as int));
            }
            let item = self.nodes[node];
            let distance = levenshtein(self.items[item].as_str(), query);
            let ghost x = VpNeighbor { distance: distance, item: self.items@[item as int] };
            let ghost h0 = heap@;
            let ghost tau0 = tau;
            proof {
                assert(words[item as int] == items[item as int]@);
                assert(x == neighbor_of(items, q, perm[sh.highs[node as int] - 1] as int));
                if h0.len() == k {
                    lemma_heap_ms_max(h0);
                }
            }
            let below = match tau {
                None => true,
                Some(t) => distance < t,
            };
            let ghost mut popped = false;
            let ghost mut m = x;
            if below {
                let found = VpNeighbor { distance: distance, item: self.items[item].clone() };
                proof {
                    assert(found == x);
                }
                sift_down(&mut heap, found);
                if heap.len() > k {
                    let ghost h1 = heap@;
                    let _ = pop(&mut heap);
                    proof {
                        popped = true;
                        m = h1[0];
                        lemma_ms_bound(h1, h1[0].distance);
                        vstd::seq_lib::to_multiset_contains(h1, h1[0]);
                    }
                }
                if heap.len() >= k {
                    tau = Some(heap[0].distance);
                }
            }
            let left = self.lefts[node];
            let right = self.rights[node];
            let mut pl = false;
            let mut pr = false;
            let ghost mut a: usize = left;
            let ghost mut pa = false;
            let ghost mut b: usize = right;
            let ghost mut pb = false;
            if !(left == 0 && right == 0) {
                let mu2 = self.mus[node];
                let d2 = 2 * (distance as u128);
                let can_left = match tau {
                    None => true,
                    Some(t) => d2 < mu2 + 2 * (t as u128),
                };
                let can_right = match tau {
                    None => true,
                    Some(t) => d2 + 2 * (t as u128) >= mu2,
                };
                proof {
                    assert(mu2 <= 2 * usize::MAX);
                    if let Some(t) = tau {
                        if !can_left {
                            lemma_prune_left(words, sh, perm, n, node as int, q, t as int);
                        }
                        if !can_right {
                            lemma_prune_right(words, sh, perm, n, node as int, q, t as int);
                        }
                    }
                }
                if d2 < mu2 {
                    pl = left != 0 && can_left;
                    if pl {
                        stack.push(left);
                    }
                    pr = right != 0 && can_right;
                    if pr {
                        stack.push(right);
                    }
                    proof {
                        pa = pl;
                        pb = pr;
                        assert(tau is None ==> pl == (left != 0) && pr == (right != 0));
                    }
                } else {
                    pr = right != 0 && can_right;
                    if pr {
                        stack.push(right);
                    }
                    pl = left != 0 && can_left;
                    if pl {
                        stack.push(left);
                    }
                    proof {
                        a = right;
                        pa = pr;
                        b = left;
                        pb = pl;
                        assert(tau is None ==> pl == (left != 0) && pr == (right != 0));
                    }
                }
            }
            proof {
                let lo = sh.lows[node as int];
                let hi = sh.highs[node as int];
                let mid = sh.mids[node as int];
                assert(pl == ((pa && a == left) || (pb && b == left)));
                assert(pr == ((pa && a == right) || (pb && b == right)));
                let seen2 = seen.union(decided(lo, mid, hi, pl, pr));
                lemma_walk_step(words, sh, perm, n, st, seen, node, a, pa, b, pb, stack@, seen2);
                lemma_knn_decided(items, words, sh, perm, n, q, st, seen, decp, node, pl, pr);
                let decp2 = decp.push(hi - 1) + pruned_seq(lo, mid, hi, pl, pr);
                let pruned = record_seq(items, perm, q, pruned_seq(lo, mid, hi, pl, pr)).to_multiset();
                let full2 = heap@.len() == k;
                if full2 {
                    assert forall|p: int| lo <= p < mid implies words[perm[p] as int] == #[trigger] items[perm[p] as int]@ by {}
                    assert forall|p: int| mid <= p < hi - 1 implies words[perm[p] as int] == #[trigger] items[perm[p] as int]@ by {}
                    lemma_pruned_far(items, perm, q, lo, mid, hi, pl, pr, heap@[0].distance as int);
                } else {
                    assert(tau is None);
                    assert(!pl ==> left == 0);
                    assert(!pr ==> right == 0);
                    assert(pruned_seq(lo, mid, hi, pl, pr) =~= Seq::<int>::empty());
                    assert(record_seq(items, perm, q, pruned_seq(lo, mid, hi, pl, pr)) =~= Seq::<VpNeighbor>::empty());
                    record_seq(items, perm, q, pruned_seq(lo, mid, hi, pl, pr)).to_multiset_ensures();
                    assert(pruned.len() == 0);
                    vstd::multiset::lemma_multiset_empty_len(pruned);
                    assert(pruned =~= Multiset::empty());
                }
                let full = h0.len() == k;
                let hmax: usize = if full { h0[0].distance } else { 0 };
                let h2max: usize = if full2 { heap@[0].distance } else { 0 };
                let root2 = if full2 { heap@[0] } else { x };
                if full2 {
                    vstd::seq_lib::to_multiset_contains(heap@, heap@[0]);
                }
                lemma_knn_update(
                    record_seq(items, perm, q, decp).to_multiset(),
                    h0.to_multiset(),
                    hmax,
                    full,
                    x,
                    below,
                    popped,
                    m,
                    heap@.to_multiset(),
                    h2max,
                    full2,
                    root2,
                    pruned,
                );
                seen = seen2;
                decp = decp2;
            }
        }
        // Every item was decided: the heap keeps the nearest ones.
        proof {
            assert forall|p: int| 0 <= p < n implies #[trigger] decp.contains(p) by {
                assert(seen.contains(p));
            }
            assert forall|t: int| 0 <= t < decp.len() implies 0 <= #[trigger] decp[t] < n by {
                assert(seen.contains(decp[t]));
            }
            lemma_records_all(items, perm, q, n, decp);
            if heap@.len() == k {
                lemma_sub_multiset_len(heap@.to_multiset(), all_neighbors(items, q));
                assert(all_neighbors(items, q).len() == n);
            } else {
                assert(heap@.to_multiset().len() == n);
            }
        }
        let ghost hf = heap@;
        let mut result: Vec<VpNeighbor> = Vec::new();
        while heap.len() > 0
            invariant
                is_max_heap(heap@),
                result@.to_multiset().add(heap@.to_multiset()) == hf.to_multiset(),
                result@.len() + heap@.len() == hf.len(),
                forall|a: int, b: int| 0 <= a <= b < result@.len() ==> result@[a].distance >= result@[b].distance,
                result@.len() > 0 ==> forall|i: int| 0 <= i < heap@.len() ==> (#[trigger] heap@[i]).distance <= result@.last().distance,
                result@.len() > 0 ==> result@[0] == hf[0],
                result@.len() == 0 ==> heap@ == hf,
            decreases heap@.len(),
        {
            let ghost before = heap@;
            let top = pop(&mut heap).unwrap();
            proof {
                assert(before.contains(before[0]));
                before.to_multiset_ensures();
                assert(before.to_multiset().count(before[0]) > 0);
                assert forall|i: int| 0 <= i < heap@.len() implies (#[trigger] heap@[i]).distance <= top.distance by {
                    lemma_heap_ms_max(heap@);
                    vstd::seq_lib::to_multiset_contains(heap@, heap@[i]);
                    assert(before.to_multiset().count(heap@[i]) > 0);
                    vstd::seq_lib::to_multiset_contains(before, heap@[i]);
                    let t = choose|t: int| 0 <= t < before.len() && before[t] == heap@[i];
                }
                if result@.len() > 0 {
                    assert(before[0].distance <= result@.last().distance);
                }
            }
            let ghost result0 = result@;
            result.push(top);
            proof {
                result0.to_multiset_ensures();
                assert(result@.to_multiset() =~= result0.to_multiset().insert(top));
                assert(heap@.to_multiset() =~= before.to_multiset().remove(top));
                assert(result@.to_multiset().add(heap@.to_multiset()) =~= hf.to_multiset());
            }
        }
        let mut out: Vec<VpNeighbor> = Vec::new();
        let ghost full_result = result@;
        while result.len() > 0
            invariant
                full_result.len() == result@.len() + out@.len(),
                forall|t: int| 0 <= t < result@.len() ==> #[trigger] result@[t] == full_result[t],
                forall|t: int| 0 <= t < out@.len() ==> #[trigger] out@[t] == full_result[full_result.len() - 1 - t],
            decreases result@.len(),
        {
            let last = result.pop().unwrap();
            out.push(last);
        }
        proof {
            assert(out@ =~= full_result.reverse());
            full_result.lemma_reverse_to_multiset();
            assert(heap@.len() == 0);
            assert(heap@.to_multiset() =~= Multiset::empty());
            assert(full_result.to_multiset() =~= hf.to_multiset());
            if out@.len() > 0 {
                assert(out@.last() == full_result[0]);
                assert(out@.last() == hf[0]);
                assert forall|y: VpNeighbor| #[trigger] all_neighbors(items, q).count(y) > out@.to_multiset().count(y) implies y.distance
                    >= out@.last().distance by {
                    assert(record_seq(items, perm, q, decp).to_multiset().count(y) > hf.to_multiset().count(y));
                }
            }
        }
        out
    }

    /// Every item within `radius` of `query`, with its distance, in the
    /// order the tree walk meets them.
    pub fn neighbors(&self, radius: usize, query: &str) -> (r: Vec<VpNeighbor>)
        requires
            self.wf(),
        ensures
            exists|src: Seq<int>| radius_result(self.words(), query@, radius as int, r@, src),
    {
        let ghost words = self.words();
        let ghost sh = self.shape();
        let ghost perm = self.perm@;
        let ghost q = query@;
        let ghost n = self.items@.len() as int;
        if self.items.len() == 0 {
            let r: Vec<VpNeighbor> = Vec::new();
            proof {
                assert(radius_result(words, q, radius as int, r@, Seq::<int>::empty()));
            }
            return r;
        }
        let mut neighbors: Vec<VpNeighbor> = Vec::new();
        let mut stack: Vec<usize> = Vec::new();
        stack.push(0);
        let ghost mut seen: Set<int> = Set::empty();
        let ghost mut src: Seq<int> = Seq::empty();
        proof {
            assert(stack@[0] == 0);
            assert forall|p: int| 0 <= p < n implies #[trigger] seen.contains(p) || exists|t: int|
                0 <= t < stack@.len() && sh.lows[(#[trigger] stack@[t]) as int] <= p < sh.highs[stack@[t] as int] by {
                assert(sh.lows[stack@[0] as int] <= p < sh.highs[stack@[0] as int]);
            }
            assert(results_ok(words, n, q, radius as int, src, neighbors@));
        }
        while stack.len() > 0
            invariant
                self.wf(),
                words == self.words(),
                sh == self.shape(),
                perm == self.perm@,
                q == query@,
                n == self.items@.len(),
                words.len() == n,
                search_ok(words, sh, perm, n, q, radius as int, stack@, seen, src, neighbors@),
            decreases pending(sh, stack@),
        {
            let ghost st0 = stack@;
            proof {
                assert forall|t: int| 0 <= t < st0.len() implies sh.lows[(#[trigger] st0[t]) as int] <= sh.highs[st0[t] as int] by {
                    assert(node_ok(words, sh, perm, n, st0[t] as int));
                }
                lemma_pending_nonneg(sh, st0);
            }
            let node = stack.pop().unwrap();
            let ghost st = stack@;
            proof {
                assert(st0 =~= st.push(node));
                assert(st0[st.len() as int] == node);
                assert(node_ok(words, sh, perm, n, node as int));
            }
            let item = self.nodes[node];
            let distance = levenshtein(self.items[item].as_str(), query);
            let ghost x = VpNeighbor { distance: distance, item: self.items@[item as int] };
            proof {
                assert(words[item as int] == self.items@[item as int]@);
            }
            let ghost res0 = neighbors@;
            if distance <= radius {
                let found = VpNeighbor { distance: distance, item: self.items[item].clone() };
                proof {
                    assert(found == x);
                }
                neighbors.push(found);
            }
            let left = self.lefts[node];
            let right = self.rights[node];
            if left == 0 && right == 0 {
                proof {
                    let seen2 = seen.union(decided(sh.lows[node as int], sh.mids[node as int], sh.highs[node as int], false, false));
                    let src2 = if distance <= radius { src.push(item as int) } else { src };
                    lemma_search_step(words, sh, perm, n, q, radius as int, st, seen, src, res0, node, x, left, false, right, false, stack@, seen2, src2, neighbors@);
                    seen = seen2;
                    src = src2;
                }
                continue;
            }
            let mu2 = self.mus[node];
            let d2 = 2 * (distance as u128);
            let r2 = 2 * (radius as u128);
            proof {
                assert(mu2 <= 2 * usize::MAX);
                if !(d2 < mu2 + r2) {
                    lemma_prune_left(words, sh, perm, n, node as int, q, radius as int);
                }
                if !(d2 + r2 >= mu2) {
                    lemma_prune_right(words, sh, perm, n, node as int, q, radius as int);
                }
            }
            if d2 < mu2 {
                let pl = left != 0 && d2 < mu2 + r2;
                if pl {
                    stack.push(left);
                }
                let pr = right != 0 && d2 + r2 >= mu2;
                if pr {
                    stack.push(right);
                }
                proof {
                    let seen2 = seen.union(decided(sh.lows[node as int], sh.mids[node as int], sh.highs[node as int], pl, pr));
                    let src2 = if distance <= radius { src.push(item as int) } else { src };
                    lemma_search_step(words, sh, perm, n, q, radius as int, st, seen, src, res0, node, x, left, pl, right, pr, stack@, seen2, src2, neighbors@);
                    seen = seen2;
                    src = src2;
                }
            } else {
                let pr = right != 0 && d2 + r2 >= mu2;
                if pr {
                    stack.push(right);
                }
                let pl = left != 0 && d2 < mu2 + r2;
                if pl {
                    stack.push(left);
                }
                proof {
                    let seen2 = seen.union(decided(sh.lows[node as int], sh.mids[node as int], sh.highs[node as int], pl, pr));
                    let src2 = if distance <= radius { src.push(item as int) } else { src };
                    lemma_search_step(words, sh, perm, n, q, radius as int, st, seen, src, res0, node, x, right, pr, left, pl, stack@, seen2, src2, neighbors@);
                    seen = seen2;
                    src = src2;
                }
            }
        }
        proof {
            assert forall|i: int| 0 <= i < words.len() && edit_distance(#[trigger] words[i], q) <= radius implies src.contains(i) by {
                let p = lemma_perm_covers(perm, n, i);
                assert(seen.contains(p));
            }
            assert(radius_result(words, q, radius as int, neighbors@, src));
        }
        neighbors
    }

    /// Arranges the items into the tree: each node takes the last item of its
    /// range as vantage point, sorts the rest by their distance to it, and
    /// splits them at the median into a nearer left and a farther right
    /// child.
    fn create_binary_tree(&mut self)
        requires
            old(self).items@.len() > 0,
            old(self).nodes@.len() == old(self).items@.len(),
            old(self).lefts@.len() == old(self).items@.len(),
            old(self).rights@.len() == old(self).items@.len(),
            old(self).mus@.len() == old(self).items@.len(),
            forall|j: int| 0 <= j < old(self).items@.len() ==> #[trigger] old(self).lefts@[j] == 0 && old(self).rights@[j] == 0,
            forall|j: int| 0 <= j < old(self).items@.len() ==> #[trigger] old(self).mus@[j] == 0,
        ensures
            final(self).wf(),
            final(self).items@ == old(self).items@,
    {
        let size = self.items.len();
        let ghost words = self.words();
        let mut indices: Vec<usize> = Vec::new();
        let mut distances: Vec<usize> = Vec::new();
        let mut i: usize = 0;
        while i < size
            invariant
                i <= size,
                indices@.len() == i,
                distances@.len() == i,
                forall|x: int| 0 <= x < i ==> #[trigger] indices@[x] == x,
            decreases size - i,
        {
            indices.push(i);
            distances.push(0);
            i = i + 1;
        }
        proof {
            assert(indices@.no_duplicates());
        }
        let mut stack: Vec<(usize, usize, usize)> = Vec::new();
        stack.push((0, 0, size));
        let mut created: usize = 0;
        let ghost mut lows: Seq<int> = Seq::new(size as nat, |x: int| 0);
        let ghost mut highs: Seq<int> = Seq::new(size as nat, |x: int| if x == 0 { size as int } else { 0 });
        let ghost mut mids: Seq<int> = Seq::new(size as nat, |x: int| 0);
        let ghost mut done: Seq<bool> = Seq::new(size as nat, |x: int| false);
        let ghost mut assigned: int = 0;
        proof {
            let st = stack@;
            assert(st[0] == (0usize, 0usize, size));
            assert(st.last() == (0usize, 0usize, size));
            assert(st.drop_last() =~= Seq::<(usize, usize, usize)>::empty());
            assert(stack_sum(Seq::<(usize, usize, usize)>::empty()) == 0);
            assert(stack_sum(st) == size);
            assert forall|j: int| 0 <= j <= created implies #[trigger] done[j] || exists|t: int|
                0 <= t < st.len() && (#[trigger] st[t]).0 == j by {
                assert(st[0].0 == j);
            }
        }
        while stack.len() > 0
            invariant
                self.items@ == old(self).items@,
                words == words_of(self.items@),
                size == self.items@.len(),
                distances@.len() == size,
                build_ok(
                    words,
                    (Shape {
                        nodes: self.nodes@,
                        lefts: self.lefts@,
                        rights: self.rights@,
                        mus: self.mus@,
                        lows: lows,
                        highs: highs,
                        mids: mids,
                    }),
                    indices@,
                    size as int,
                    created as int,
                    stack@,
                    done,
                    assigned,
                ),
            decreases stack_sum(stack@),
        {
            let ghost sh = Shape {
                nodes: self.nodes@,
                lefts: self.lefts@,
                rights: self.rights@,
                mus: self.mus@,
                lows: lows,
                highs: highs,
                mids: mids,
            };
            let ghost s0 = stack@;
            let (node, lo, d) = stack.pop().unwrap();
            let ghost st = stack@;
            proof {
                assert(s0 =~= st.push((node, lo, d)));
                assert(s0[st.len() as int] == (node, lo, d));
                assert(s0.drop_last() =~= st);
            }
            let vantage_point = indices[d - 1];
            let hi = d - 1;
            let length = hi - lo;
            self.nodes.set(node, vantage_point);
            if length == 0 {
                proof {
                    lemma_build_leaf(words, sh, indices@, size as int, created as int, st, done, assigned, node, lo, d);
                    mids = mids.update(node as int, lo as int);
                    done = done.update(node as int, true);
                    assigned = assigned + 1;
                }
                continue;
            }
            if length == 1 {
                let other = indices[lo];
                let dist = levenshtein(self.items[vantage_point].as_str(), self.items[other].as_str());
                let mu2 = 2 * (dist as u128);
                proof {
                    lemma_build_pair(words, sh, indices@, size as int, created as int, st, done, assigned, node, lo, d, mu2);
                }
                self.mus.set(node, mu2);
                created = created + 1;
                self.rights.set(node, created);
                self.nodes.set(created, other);
                proof {
                    lows = lows.update(created as int, lo as int);
                    highs = highs.update(created as int, lo + 1);
                    mids = mids.update(node as int, lo as int).update(created as int, lo as int);
                    done = done.update(node as int, true).update(created as int, true);
                    assigned = assigned + 2;
                }
                continue;
            }
            let ghost perm0 = indices@;
            let mut index = lo;
            while index < hi
                invariant
                    lo <= index <= hi,
                    hi < size,
                    indices@ == perm0,
                    perm0.len() == size,
                    perm0.no_duplicates(),
                    size == self.items@.len(),
                    words == words_of(self.items@),
                    vantage_point == perm0[hi as int],
                    vantage_point < size,
                    forall|x: int| 0 <= x < size ==> (#[trigger] perm0[x]) < size,
                    distances@.len() == size,
                    forall|x: int|
                        lo <= x < index ==> distances@[#[trigger] perm0[x] as int] == edit_distance(
                            words[vantage_point as int],
                            words[perm0[x] as int],
                        ),
                decreases hi - index,
            {
                let item = indices[index];
                let dist = levenshtein(self.items[vantage_point].as_str(), self.items[item].as_str());
                let ghost dist_before = distances@;
                proof {
                    assert(words[vantage_point as int] == self.items@[vantage_point as int]@);
                    assert(words[item as int] == self.items@[item as int]@);
                }
                distances.set(item, dist);
                proof {
                    assert forall|x: int| lo <= x < index + 1 implies distances@[#[trigger] perm0[x] as int] == edit_distance(
                        words[vantage_point as int],
                        words[perm0[x] as int],
                    ) by {
                        if x < index {
                            assert(perm0[x] != perm0[index as int]);
                            assert(distances@[perm0[x] as int] == dist_before[perm0[x] as int]);
                        }
                    }
                }
                index = index + 1;
            }
            proof {
                assert(in_table(distances@, indices@));
            }
            quick_sort_indices(&distances, &mut indices, lo, hi);
            let ghost perm1 = indices@;
            proof {
                lemma_build_sorted(words, sh, perm0, perm1, size as int, created as int, st, done, assigned, node, lo, d);
                assert forall|x: int| lo <= x < hi implies key(distances@, perm1, x) == edit_distance(
                    words[perm1[d - 1] as int],
                    words[perm1[x] as int],
                ) by {
                    let w = lemma_permuted_member(perm0, perm1, lo as int, hi as int, x);
                    assert(distances@[perm0[w] as int] == edit_distance(words[vantage_point as int], words[perm0[w] as int]));
                    assert(perm1[d - 1] == perm0[d - 1]);
                }
            }
            let mu2: u128 = if length % 2 == 0 {
                let median = lo + length / 2 - 1;
                (distances[indices[median]] as u128) + (distances[indices[median + 1]] as u128)
            } else {
                2 * (distances[indices[lo + length / 2]] as u128)
            };
            let mid = lower_bound(&distances, &indices, mu2, lo, hi);
            let ghost created0 = created as int;
            proof {
                lemma_build_room(words, sh, perm1, size as int, created as int, st, done, assigned, node, lo, d);
            }
            self.mus.set(node, mu2);
            proof {
                mids = mids.update(node as int, mid as int);
            }
            if hi > mid {
                created = created + 1;
                self.rights.set(node, created);
                stack.push((created, mid, hi));
                proof {
                    lows = lows.update(created as int, mid as int);
                    highs = highs.update(created as int, hi as int);
                }
            }
            if mid > lo {
                created = created + 1;
                self.lefts.set(node, created);
                stack.push((created, lo, mid));
                proof {
                    lows = lows.update(created as int, lo as int);
                    highs = highs.update(created as int, mid as int);
                }
            }
            proof {
                let sh2 = Shape {
                    nodes: self.nodes@,
                    lefts: self.lefts@,
                    rights: self.rights@,
                    mus: self.mus@,
                    lows: lows,
                    highs: highs,
                    mids: mids,
                };
                let hr = d - 1 > mid;
                let hl = mid > lo;
                assert forall|p: int| lo <= p < mid implies 2 * edit_distance(
                    words[perm1[d - 1] as int],
                    words[#[trigger] perm1[p] as int],
                ) < mu2 by {
                    assert(2 * key(distances@, perm1, p) < mu2);
                }
                assert forall|p: int| mid <= p < d - 1 implies 2 * edit_distance(
                    words[perm1[d - 1] as int],
                    words[#[trigger] perm1[p] as int],
                ) >= mu2 by {
                    assert(2 * key(distances@, perm1, p) >= mu2);
                }
                assert(stack@ =~= push_if(
                    push_if(st, hr, ((created0 + 1) as usize, mid, (d - 1) as usize)),
                    hl,
                    ((created0 + 1 + (if hr { 1int } else { 0 })) as usize, lo, mid),
                ));
                lemma_build_split(words, sh, sh2, perm1, size as int, created0, st, done, assigned, node, lo, d, mid, mu2);
                done = done.update(node as int, true);
                assigned = assigned + 1;
            }
        }
        proof {
            let sh = Shape {
                nodes: self.nodes@,
                lefts: self.lefts@,
                rights: self.rights@,
                mus: self.mus@,
                lows: lows,
                highs: highs,
                mids: mids,
            };
            assert(created + 1 == size);
            assert forall|j: int| 0 <= j < size implies #[trigger] node_ok(words, sh, indices@, size as int, j) by {
                assert(done[j] || exists|t: int| 0 <= t < stack@.len() && (#[trigger] stack@[t]).0 == j);
                assert(done[j]);
            }
        }
        self.perm = Ghost(indices@);
        self.lows = Ghost(lows);
        self.highs = Ghost(highs);
        self.mids = Ghost(mids);
        proof {
            assert(self.words() == words);
            assert(self.shape() == (Shape {
                nodes: self.nodes@,
                lefts: self.lefts@,
                rights: self.rights@,
                mus: self.mus@,
                lows: lows,
                highs: highs,
                mids: mids,
            }));
        }
    }
}

} // verus!
