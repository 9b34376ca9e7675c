//! Binary heaps of integer keys, ordered ascending or descending, and the
//! selections built on them.
use vstd::prelude::*;
use vstd::seq_lib::to_multiset_update;
use vstd::multiset::Multiset;

verus! {

broadcast use vstd::multiset::group_multiset_axioms;

/// A key that a heap can order: by a rank, ascending, or descending when
/// `max`.
pub trait HeapKey: Copy {
    /// The place of the key in the order.
    spec fn key_rank(&self, max: bool) -> int;

    /// Whether `self` comes strictly before `other`.
    fn key_precedes(&self, other: &Self, max: bool) -> (r: bool)
        ensures
            r == (self.key_rank(max) < other.key_rank(max)),
    ;
}

impl HeapKey for i64 {
    /// The key itself, or its negation when the larger keys come first.
    open spec fn key_rank(&self, max: bool) -> int {
        if max {
            -(*self as int)
        } else {
            *self as int
        }
    }

    fn key_precedes(&self, other: &Self, max: bool) -> (r: bool) {
        if max {
            *self > *other
        } else {
            *self < *other
        }
    }
}

/// The position of `x` in the heap order: the key itself, or its negation
/// when the larger keys come first.
pub open spec fn rank<T: HeapKey>(max: bool, x: T) -> int {
    x.key_rank(max)
}

/// `a` comes strictly before `b` in the heap order.
fn precedes<T: HeapKey>(max: bool, a: &T, b: &T) -> (r: bool)
    ensures
        r == (rank(max, *a) < rank(max, *b)),
{
    a.key_precedes(b, max)
}

/// The parent of heap position `c`.
pub open spec fn parent(c: int) -> int {
    (c - 1) / 2
}

/// Position `i` lies in the subtree rooted at position `start`.
pub open spec fn desc(start: int, i: int) -> bool
    decreases i,
{
    if i <= start {
        i == start
    } else {
        i > 0 && desc(start, parent(i))
    }
}

/// Every edge whose parent is at `lo` or beyond is in order.
pub open spec fn heap_from<T: HeapKey>(max: bool, s: Seq<T>, lo: int) -> bool {
    forall|c: int| 1 <= c < s.len() && parent(c) >= lo ==> rank(max, s[parent(c)]) <= rank(max, #[trigger] s[c])
}

/// The heap order holds on every edge.
pub open spec fn is_heap<T: HeapKey>(max: bool, s: Seq<T>) -> bool {
    heap_from(max, s, 0)
}

/// Below `start`, every edge but the one into `i` is in order, and the
/// parent of `i` comes before the children of `i`.
pub open spec fn hole_from<T: HeapKey>(max: bool, b: Seq<T>, start: int, i: int) -> bool {
    &&& forall|c: int|
        1 <= c < b.len() && parent(c) >= start && c != i ==> rank(max, b[parent(c)]) <= rank(max, #[trigger] b[c])
    &&& i > start ==> forall|c: int|
        1 <= c < b.len() && parent(c) == i ==> rank(max, b[parent(i)]) <= rank(max, #[trigger] b[c])
}

/// `(c - 1) >> 1` is the parent of `c`.
proof fn lemma_parent_shift(c: usize)
    requires
        c >= 1,
    ensures
        (((c - 1) as usize) >> 1) as int == parent(c as int),
        parent(c as int) < c,
{
    let d: usize = (c - 1) as usize;
    assert(d >> 1 == d / 2) by (bit_vector);
}

/// Every position lies under the root.
proof fn lemma_desc_root(i: int)
    requires
        0 <= i,
    ensures
        desc(0, i),
    decreases i,
{
    if i > 0 {
        lemma_desc_root(parent(i));
    }
}

/// The root of a heap comes first among its entries.
pub proof fn lemma_heap_root_first<T: HeapKey>(max: bool, h: Seq<T>, i: int)
    requires
        is_heap(max, h),
        0 <= i < h.len(),
    ensures
        rank(max, h[0]) <= rank(max, h[i]),
    decreases i,
{
    if i > 0 {
        lemma_heap_root_first(max, h, parent(i));
    }
}

/// The root of a heap comes first among the items of its multiset.
pub proof fn lemma_heap_root_first_of_all<T: HeapKey>(max: bool, h: Seq<T>)
    requires
        is_heap(max, h),
        h.len() > 0,
    ensures
        forall|x: T| h.to_multiset().contains(x) ==> rank(max, h[0]) <= rank(max, x),
{
    assert forall|x: T| h.to_multiset().contains(x) implies rank(max, h[0]) <= rank(max, x) by {
        vstd::seq_lib::to_multiset_contains(h, x);
        let i = choose|i: int| 0 <= i < h.len() && h[i] == x;
        lemma_heap_root_first(max, h, i);
    }
}

/// Exchanging two entries.
pub open spec fn swap<T: HeapKey>(s: Seq<T>, i: int, j: int) -> Seq<T> {
    s.update(i, s[j]).update(j, s[i])
}

/// Exchanging two entries keeps the multiset.
proof fn lemma_swap_multiset<T: HeapKey>(s: Seq<T>, i: int, j: int)
    requires
        0 <= i < s.len(),
        0 <= j < s.len(),
    ensures
        swap(s, i, j).to_multiset() == s.to_multiset(),
{
    broadcast use to_multiset_update;
    broadcast use vstd::multiset::group_multiset_properties;

    if i != j {
        let s1 = s.update(i, s[j]);
        assert(s1[j] == s[j]);
        assert(s1.to_multiset() == s.to_multiset().insert(s[j]).remove(s[i]));
        assert(swap(s, i, j).to_multiset() == s1.to_multiset().insert(s[i]).remove(s[j]));
        let m = s.to_multiset();
        vstd::seq_lib::to_multiset_contains(s, s[i]);
        vstd::seq_lib::to_multiset_contains(s, s[j]);
        assert(swap(s, i, j).to_multiset() =~= m);
    } else {
        assert(swap(s, i, j) =~= s);
    }
}

/// Moving the entry at `i` above a parent it comes before keeps the hole
/// invariant one level up.
proof fn lemma_bubble_step<T: HeapKey>(max: bool, b: Seq<T>, start: int, i: int)
    requires
        0 <= start < i < b.len(),
        desc(start, i),
        hole_from(max, b, start, i),
        rank(max, b[i]) < rank(max, b[parent(i)]),
    ensures
        hole_from(max, swap(b, i, parent(i)), start, parent(i)),
        swap(b, i, parent(i)).to_multiset() == b.to_multiset(),
{
    let p = parent(i);
    let a = swap(b, i, p);
    lemma_swap_multiset(b, i, p);
    assert forall|c: int|
        1 <= c < a.len() && parent(c) >= start && c != p implies rank(max, a[parent(c)]) <= rank(max, #[trigger] a[c]) by {
        if c == i {
        } else if parent(c) == i {
        } else if parent(c) == p {
            assert(rank(max, b[parent(c)]) <= rank(max, b[c]));
        } else {
            assert(rank(max, b[parent(c)]) <= rank(max, b[c]));
        }
    }
    assert(desc(start, p));
    if p > start {
        assert(desc(start, parent(p)));
        assert(parent(p) >= start);
        assert forall|c: int| 1 <= c < a.len() && parent(c) == p implies rank(max, a[parent(p)]) <= rank(
            max,
            #[trigger] a[c],
        ) by {
            assert(rank(max, b[parent(p)]) <= rank(max, b[p]));
            if c != i {
                assert(rank(max, b[parent(c)]) <= rank(max, b[c]));
            }
        }
    }
}

/// A hole whose entry does not come before its parent is no hole.
proof fn lemma_hole_closed<T: HeapKey>(max: bool, b: Seq<T>, start: int, i: int)
    requires
        0 <= start <= i < b.len(),
        hole_from(max, b, start, i),
        i > start ==> rank(max, b[parent(i)]) <= rank(max, b[i]),
    ensures
        heap_from(max, b, start),
{
    assert forall|c: int| 1 <= c < b.len() && parent(c) >= start implies rank(max, b[parent(c)]) <= rank(
        max,
        #[trigger] b[c],
    ) by {
        if c == i {
            assert(i > start);
        }
    }
}

/// Moves the entry at `i` up towards `start` past every parent it comes
/// before.
fn sift_down<T: HeapKey>(max: bool, heap: &mut Vec<T>, start_index: usize, i: usize)
    requires
        start_index <= i < old(heap)@.len(),
        desc(start_index as int, i as int),
        hole_from(max, old(heap)@, start_index as int, i as int),
    ensures
        heap_from(max, final(heap)@, start_index as int),
        final(heap)@.len() == old(heap)@.len(),
        final(heap)@.to_multiset() == old(heap)@.to_multiset(),
{
    let ghost start = heap@;
    let item = heap[i];
    let mut i = i;
    proof {
        assert(heap@.update(i as int, item) =~= start);
    }
    while i > start_index
        invariant_except_break
            start_index <= i < heap@.len(),
            desc(start_index as int, i as int),
            heap@.len() == start.len(),
            heap@.update(i as int, item).to_multiset() == start.to_multiset(),
            hole_from(max, heap@.update(i as int, item), start_index as int, i as int),
        ensures
            start_index <= i < heap@.len(),
            heap@.len() == start.len(),
            heap@.update(i as int, item).to_multiset() == start.to_multiset(),
            heap_from(max, heap@.update(i as int, item), start_index as int),
        decreases i,
    {
        proof {
            lemma_parent_shift(i);
            assert(desc(start_index as int, parent(i as int)));
            assert(parent(i as int) >= start_index);
        }
        let parent_index = (i - 1) >> 1;
        let p = heap[parent_index];
        if precedes(max, &item, &p) {
            let ghost before = heap@.update(i as int, item);
            heap.set(i, p);
            proof {
                lemma_bubble_step(max, before, start_index as int, i as int);
                assert(heap@.update(parent_index as int, item) =~= swap(before, i as int, parent_index as int));
            }
            i = parent_index;
        } else {
            proof {
                lemma_hole_closed(max, heap@.update(i as int, item), start_index as int, i as int);
            }
            break;
        }
    }
    proof {
        if i == start_index {
            lemma_hole_closed(max, heap@.update(i as int, item), start_index as int, i as int);
        }
    }
    heap.set(i, item);
}

/// Refills position `i`, below which every edge is in order but those out
/// of `i`: the hole descends along the earlier children to a leaf, then the
/// old entry of `i` moves back up.
#[verifier::rlimit(40)]
fn sift_up<T: HeapKey>(max: bool, heap: &mut Vec<T>, i: usize)
    requires
        i < old(heap)@.len(),
        heap_from(max, old(heap)@, i + 1),
    ensures
        heap_from(max, final(heap)@, i as int),
        final(heap)@.len() == old(heap)@.len(),
        final(heap)@.to_multiset() == old(heap)@.to_multiset(),
{
    let ghost start = heap@;
    let end_index = heap.len();
    let start_index = i;
    let item = heap[i];
    let mut i = i;
    proof {
        assert(heap@.update(i as int, item) =~= start);
        assert(desc(start_index as int, i as int));
    }
    while i < end_index / 2
        invariant
            end_index == heap@.len(),
            start.len() == end_index,
            start_index <= i < end_index,
            desc(start_index as int, i as int),
            heap@.update(i as int, item).to_multiset() == start.to_multiset(),
            forall|c: int|
                1 <= c < heap@.len() && parent(c) >= start_index && c != i && parent(c) != i ==> rank(
                    max,
                    heap@[parent(c)],
                ) <= rank(max, #[trigger] heap@[c]),
            i > start_index ==> forall|c: int|
                1 <= c < heap@.len() && parent(c) == i ==> rank(max, heap@[parent(i as int)]) <= rank(
                    max,
                    #[trigger] heap@[c],
                ),
        decreases end_index - i,
    {
        let mut child_index = 2 * i + 1;
        let right_index = child_index + 1;
        if right_index < end_index && !precedes(max, &heap[child_index], &heap[right_index]) {
            child_index = right_index;
        }
        let ghost before = heap@;
        let ghost b = heap@.update(i as int, item);
        proof {
            assert(parent(child_index as int) == i);
            assert(parent(i as int * 2 + 1) == i);
            assert(parent(i as int * 2 + 2) == i);
            assert(child_index > i);
            assert(desc(start_index as int, child_index as int));
        }
        let moved = heap[child_index];
        heap.set(i, moved);
        proof {
            lemma_swap_multiset(b, i as int, child_index as int);
            assert(heap@.update(child_index as int, item) =~= swap(b, i as int, child_index as int));
            assert forall|c: int|
                1 <= c < heap@.len() && parent(c) >= start_index && c != child_index && parent(c) != child_index implies rank(
                max,
                heap@[parent(c)],
            ) <= rank(max, #[trigger] heap@[c]) by {
                if c == i {
                    assert(rank(max, before[parent(i as int)]) <= rank(max, before[child_index as int]));
                } else if parent(c) == i {
                    assert(c == i * 2 + 1 || c == i * 2 + 2);
                } else {
                    assert(rank(max, before[parent(c)]) <= rank(max, before[c]));
                }
            }
            assert forall|c: int| 1 <= c < heap@.len() && parent(c) == child_index implies rank(
                max,
                heap@[parent(child_index as int)],
            ) <= rank(max, #[trigger] heap@[c]) by {
                assert(c != i);
                assert(rank(max, before[parent(c)]) <= rank(max, before[c]));
            }
        }
        i = child_index;
    }
    heap.set(i, item);
    proof {
        let b = heap@;
        assert forall|c: int| 1 <= c < b.len() && parent(c) >= start_index && c != i implies rank(
            max,
            b[parent(c)],
        ) <= rank(max, #[trigger] b[c]) by {
            assert(parent(c) != i);
        }
        assert(hole_from(max, heap@, start_index as int, i as int));
    }
    sift_down(max, heap, start_index, i);
}

/// `x` is in `m` and comes no later than any other item of `m`.
pub open spec fn first_of<T: HeapKey>(max: bool, m: Multiset<T>, x: T) -> bool {
    &&& m.contains(x)
    &&& forall|y: T| m.contains(y) ==> rank(max, x) <= rank(max, y)
}

/// The entries are in heap order from first to last.
pub open spec fn sorted_by<T: HeapKey>(max: bool, s: Seq<T>) -> bool {
    forall|i: int, j: int| 0 <= i <= j < s.len() ==> rank(max, s[i]) <= rank(max, s[j])
}

/// Two keys of the same rank are equal.
pub proof fn lemma_rank_injective(max: bool, x: i64, y: i64)
    requires
        rank(max, x) == rank(max, y),
    ensures
        x == y,
{
}

/// Adds `item` to a heap.
pub(crate) fn heap_push<T: HeapKey>(max: bool, heap: &mut Vec<T>, item: T)
    requires
        is_heap(max, old(heap)@),
        old(heap)@.len() < usize::MAX,
    ensures
        is_heap(max, final(heap)@),
        final(heap)@.len() == old(heap)@.len() + 1,
        final(heap)@.to_multiset() == old(heap)@.to_multiset().insert(item),
{
    broadcast use vstd::seq_lib::to_multiset_build;

    heap.push(item);
    let last = heap.len() - 1;
    proof {
        lemma_desc_root(last as int);
        let b = heap@;
        assert forall|c: int| 1 <= c < b.len() && parent(c) >= 0 && c != last implies rank(max, b[parent(c)])
            <= rank(max, #[trigger] b[c]) by {
            assert(b[c] == old(heap)@[c]);
            assert(b[parent(c)] == old(heap)@[parent(c)]);
        }
    }
    sift_down(max, heap, 0, last);
}

/// Takes the first entry off a heap.
pub(crate) fn heap_pop<T: HeapKey>(max: bool, heap: &mut Vec<T>) -> (r: Option<T>)
    requires
        is_heap(max, old(heap)@),
    ensures
        is_heap(max, final(heap)@),
        old(heap)@.len() == 0 ==> r is None && final(heap)@ == old(heap)@,
        old(heap)@.len() > 0 ==> (r matches Some(x) && x == old(heap)@[0] && first_of(max, old(heap)@.to_multiset(), x)
            && final(heap)@.to_multiset() == old(heap)@.to_multiset().remove(x)),
        final(heap)@.len() == (if old(heap)@.len() == 0 { 0 } else { old(heap)@.len() - 1 }),
{
    broadcast use to_multiset_update;
    broadcast use vstd::seq_lib::to_multiset_build;
    broadcast use vstd::multiset::group_multiset_properties;

    let ghost start = heap@;
    if heap.len() > 0 {
        proof {
            lemma_heap_root_first_of_all(max, start);
            vstd::seq_lib::to_multiset_contains(start, start[0]);
        }
    }
    let last_item = match heap.pop() {
        Some(x) => x,
        None => {
            return None;
        },
    };
    proof {
        assert(start =~= heap@.push(last_item));
    }
    if heap.len() == 0 {
        proof {
            assert(heap@.to_multiset() =~= start.to_multiset().remove(start[0]));
            assert(last_item == start[0]);
        }
        return Some(last_item);
    }
    let item = heap[0];
    heap.set(0, last_item);
    proof {
        assert(heap@.to_multiset() =~= start.to_multiset().remove(start[0]));
        assert forall|c: int| 1 <= c < heap@.len() && parent(c) >= 1 implies rank(max, heap@[parent(c)]) <= rank(
            max,
            #[trigger] heap@[c],
        ) by {
            assert(rank(max, start[parent(c)]) <= rank(max, start[c]));
        }
    }
    sift_up(max, heap, 0);
    Some(item)
}

/// Puts `item` in place of the first entry of a nonempty heap and returns
/// that entry.
pub(crate) fn heap_replace<T: HeapKey>(max: bool, heap: &mut Vec<T>, item: T) -> (r: Result<T, String>)
    requires
        is_heap(max, old(heap)@),
    ensures
        is_heap(max, final(heap)@),
        final(heap)@.len() == old(heap)@.len(),
        old(heap)@.len() == 0 <==> r is Err,
        r matches Err(e) ==> e@ == "mnemonist/heap.replace: cannot pop an empty heap."@ && final(heap)@ == old(heap)@,
        r matches Ok(x) ==> x == old(heap)@[0] && first_of(max, old(heap)@.to_multiset(), x)
            && final(heap)@.to_multiset() == old(heap)@.to_multiset().remove(x).insert(item),
{
    broadcast use to_multiset_update;

    if heap.len() == 0 {
        return Err("mnemonist/heap.replace: cannot pop an empty heap.".to_string());
    }
    let ghost start = heap@;
    proof {
        lemma_heap_root_first_of_all(max, start);
        vstd::seq_lib::to_multiset_contains(start, start[0]);
    }
    let popped = heap[0];
    heap.set(0, item);
    proof {
        assert forall|c: int| 1 <= c < heap@.len() && parent(c) >= 1 implies rank(max, heap@[parent(c)]) <= rank(
            max,
            #[trigger] heap@[c],
        ) by {
            assert(rank(max, start[parent(c)]) <= rank(max, start[c]));
        }
    }
    sift_up(max, heap, 0);
    Ok(popped)
}

/// Adds `item` to a heap and takes off the first entry of the result, in
/// one step.
fn heap_pushpop<T: HeapKey>(max: bool, heap: &mut Vec<T>, item: T) -> (r: T)
    requires
        is_heap(max, old(heap)@),
    ensures
        is_heap(max, final(heap)@),
        final(heap)@.len() == old(heap)@.len(),
        first_of(max, old(heap)@.to_multiset().insert(item), r),
        final(heap)@.to_multiset() == old(heap)@.to_multiset().insert(item).remove(r),
{
    broadcast use to_multiset_update;
    broadcast use vstd::multiset::group_multiset_properties;

    let ghost start = heap@;
    if heap.len() > 0 && precedes(max, &heap[0], &item) {
        proof {
            lemma_heap_root_first_of_all(max, start);
            vstd::seq_lib::to_multiset_contains(start, start[0]);
        }
        let top = heap[0];
        heap.set(0, item);
        proof {
            assert forall|c: int| 1 <= c < heap@.len() && parent(c) >= 1 implies rank(max, heap@[parent(c)]) <= rank(
                max,
                #[trigger] heap@[c],
            ) by {
                assert(rank(max, start[parent(c)]) <= rank(max, start[c]));
            }
            assert(start.to_multiset().insert(item).remove(top) =~= start.to_multiset().remove(top).insert(item));
            assert forall|y: T| start.to_multiset().insert(item).contains(y) implies rank(max, top) <= rank(max, y) by {
                if y != item {
                    assert(start.to_multiset().contains(y));
                }
            }
        }
        sift_up(max, heap, 0);
        return top;
    }
    proof {
        broadcast use vstd::seq_lib::group_to_multiset_ensures;

        if start.len() > 0 {
            lemma_heap_root_first_of_all(max, start);
            assert(rank(max, item) <= rank(max, start[0]));
        }
        assert forall|y: T| start.to_multiset().insert(item).contains(y) implies rank(max, item) <= rank(max, y) by {
            if y != item {
                assert(start.to_multiset().contains(y));
                assert(start.contains(y));
            }
        }
        assert(start.to_multiset().insert(item).remove(item) =~= start.to_multiset());
    }
    item
}

/// Puts `array` in heap order, from the last parent back to the root.
pub fn heapify(max: bool, array: &mut Vec<i64>)
    ensures
        is_heap(max, final(array)@),
        final(array)@.len() == old(array)@.len(),
        final(array)@.to_multiset() == old(array)@.to_multiset(),
{
    let n = array.len();
    if n == 0 {
        proof {
            assert(is_heap(max, array@));
        }
        return;
    }
    let mut i = n >> 1;
    proof {
        assert(n >> 1 == n / 2) by (bit_vector);
    }
    while i > 0
        invariant
            i <= n / 2,
            n == array@.len(),
            heap_from(max, array@, i as int),
            array@.to_multiset() == old(array)@.to_multiset(),
        decreases i,
    {
        i = i - 1;
        proof {
            assert(heap_from(max, array@, i + 1));
        }
        sift_up(max, array, i);
    }
}

/// Takes every entry off a heap, first to last.
pub fn consume(max: bool, heap: &mut Vec<i64>) -> (r: Vec<i64>)
    requires
        is_heap(max, old(heap)@),
    ensures
        final(heap)@.len() == 0,
        is_heap(max, final(heap)@),
        r@.to_multiset() == old(heap)@.to_multiset(),
        sorted_by(max, r@),
{
    broadcast use vstd::seq_lib::group_to_multiset_ensures;
    broadcast use vstd::multiset::group_multiset_properties;

    let l = heap.len();
    let mut array: Vec<i64> = Vec::new();
    let mut k: usize = 0;
    proof {
        assert(array@.to_multiset().len() == 0);
        assert(array@.to_multiset() =~= Multiset::empty());
        assert(array@.to_multiset().add(heap@.to_multiset()) =~= heap@.to_multiset());
    }
    while k < l
        invariant
            is_heap(max, heap@),
            heap@.len() == l - k,
            k <= l,
            array@.to_multiset().add(heap@.to_multiset()) == old(heap)@.to_multiset(),
            sorted_by(max, array@),
            forall|i: int, y: i64|
                #![trigger array@[i], heap@.to_multiset().count(y)]
                0 <= i < array@.len() && heap@.to_multiset().count(y) > 0 ==> rank(max, array@[i]) <= rank(max, y),
        decreases l - k,
    {
        let ghost before = heap@.to_multiset();
        let ghost a0 = array@;
        if let Some(v) = heap_pop(max, heap) {
            array.push(v);
            proof {
                assert(array@ == a0.push(v));
                vstd::seq_lib::to_multiset_build(a0, v);
                assert(array@.to_multiset().add(heap@.to_multiset()) =~= a0.to_multiset().add(before));
                assert forall|i: int, j: int| 0 <= i <= j < array@.len() implies rank(max, array@[i]) <= rank(max, array@[j]) by {
                    if j == array@.len() - 1 && i < j {
                        assert(rank(max, a0[i]) <= rank(max, v));
                    }
                }
                assert forall|i: int, y: i64|
                    #![trigger array@[i], heap@.to_multiset().count(y)]
                    0 <= i < array@.len() && heap@.to_multiset().count(y) > 0 implies rank(max, array@[i]) <= rank(max, y) by {
                    assert(before.contains(y));
                    if i < a0.len() {
                        assert(rank(max, a0[i]) <= rank(max, y));
                    }
                }
            }
        }
        k = k + 1;
    }
    proof {
        assert(heap@.to_multiset().len() == 0);
        assert(heap@.to_multiset() =~= Multiset::empty());
        assert(array@.to_multiset() =~= array@.to_multiset().add(heap@.to_multiset()));
    }
    array
}

/// Puts `array` in ascending heap order.
pub fn heapify_in_place(array: &mut Vec<i64>)
    ensures
        is_heap(false, final(array)@),
        final(array)@.len() == old(array)@.len(),
        final(array)@.to_multiset() == old(array)@.to_multiset(),
{
    heapify(false, array)
}

/// Takes every entry off an ascending heap, smallest first.
pub fn consume_slice(array: &mut Vec<i64>) -> (r: Vec<i64>)
    requires
        is_heap(false, old(array)@),
    ensures
        final(array)@.len() == 0,
        r@.to_multiset() == old(array)@.to_multiset(),
        sorted_by(false, r@),
{
    consume(false, array)
}

/// Every item of `p` left out of `r` comes no earlier than every item kept
/// in `r`.
pub open spec fn kept_before(max: bool, p: Multiset<i64>, r: Multiset<i64>) -> bool {
    forall|x: i64, y: i64|
        #![trigger p.count(x), r.count(y)]
        p.count(x) > r.count(x) && r.count(y) > 0 ==> rank(max, y) <= rank(max, x)
}

/// `r` holds, in heap order, the first `n` items of `items` (all of them
/// when there are fewer).
pub open spec fn selects_first(max: bool, n: nat, items: Seq<i64>, r: Seq<i64>) -> bool {
    &&& r.len() == if n < items.len() {
        n
    } else {
        items.len()
    }
    &&& sorted_by(max, r)
    &&& r.to_multiset().subset_of(items.to_multiset())
    &&& kept_before(max, items.to_multiset(), r.to_multiset())
}

/// The items of `items` in heap order.
fn sorted_copy(max: bool, items: Vec<i64>) -> (r: Vec<i64>)
    ensures
        r@.to_multiset() == items@.to_multiset(),
        sorted_by(max, r@),
        r@.len() == items@.len(),
{
    broadcast use vstd::seq_lib::group_to_multiset_ensures;

    let mut items = items;
    heapify(max, &mut items);
    let r = consume(max, &mut items);
    proof {
        assert(r@.to_multiset().len() == r@.len());
    }
    r
}

/// The first `n` items of `items`, in heap order.
fn nsmallest(max: bool, n: usize, items: Vec<i64>) -> (r: Vec<i64>)
    ensures
        selects_first(max, n as nat, items@, r@),
{
    broadcast use vstd::seq_lib::group_to_multiset_ensures;
    broadcast use vstd::multiset::group_multiset_properties;

    let len = items.len();
    if n == 0 || len == 0 {
        let r: Vec<i64> = Vec::new();
        proof {
            assert(r@.to_multiset() =~= Multiset::empty());
        }
        return r;
    }
    if n == 1 {
        let mut best = items[0];
        let mut k: usize = 1;
        proof {
            assert(items@.subrange(0, 1)[0] == best);
        }
        while k < len
            invariant
                1 <= k <= len,
                len == items@.len(),
                items@.subrange(0, k as int).contains(best),
                forall|i: int| 0 <= i < k ==> rank(max, best) <= rank(max, #[trigger] items@[i]),
            decreases len - k,
        {
            proof {
                assert(items@.subrange(0, k as int).contains(best));
                let w = choose|w: int| 0 <= w < k && items@.subrange(0, k as int)[w] == best;
                assert(items@.subrange(0, k + 1)[w] == best);
            }
            if precedes(max, &items[k], &best) {
                best = items[k];
                proof {
                    assert(items@.subrange(0, k + 1)[k as int] == best);
                }
            }
            k = k + 1;
        }
        let r = vec![best];
        proof {
            assert(items@.subrange(0, len as int) =~= items@);
            assert(r@ =~= seq![best]);
            assert(r@.to_multiset() =~= Multiset::singleton(best)) by {
                assert(r@ =~= Seq::<i64>::empty().push(best));
                assert(Seq::<i64>::empty().to_multiset().len() == 0);
            }
            assert(items@.to_multiset().count(best) > 0);
            assert forall|x: i64, y: i64|
                #![trigger items@.to_multiset().count(x), r@.to_multiset().count(y)]
                items@.to_multiset().count(x) > r@.to_multiset().count(x) && r@.to_multiset().count(y) > 0 implies rank(
                max,
                y,
            ) <= rank(max, x) by {
                assert(items@.contains(x));
                let w = choose|w: int| 0 <= w < len && items@[w] == x;
                assert(rank(max, best) <= rank(max, items@[w]));
            }
        }
        return r;
    }
    if n >= len {
        let r = sorted_copy(max, items);
        proof {
            assert forall|x: i64, y: i64|
                #![trigger items@.to_multiset().count(x), r@.to_multiset().count(y)]
                items@.to_multiset().count(x) > r@.to_multiset().count(x) && r@.to_multiset().count(y) > 0 implies rank(
                max,
                y,
            ) <= rank(max, x) by {
            }
        }
        return r;
    }
    let mut result: Vec<i64> = Vec::new();
    let mut k: usize = 0;
    while k < n
        invariant
            k <= n < len,
            len == items@.len(),
            result@ == items@.subrange(0, k as int),
        decreases n - k,
    {
        result.push(items[k]);
        k = k + 1;
        proof {
            assert(result@ =~= items@.subrange(0, k as int));
        }
    }
    heapify(!max, &mut result);
    let mut j: usize = n;
    proof {
        let p = items@.subrange(0, n as int).to_multiset();
        assert forall|x: i64, y: i64|
            #![trigger p.count(x), result@.to_multiset().count(y)]
            p.count(x) > result@.to_multiset().count(x) && result@.to_multiset().count(y) > 0 implies rank(max, y)
            <= rank(max, x) by {
        }
    }
    while j < len
        invariant
            n <= j <= len,
            len == items@.len(),
            n > 1,
            is_heap(!max, result@),
            result@.len() == n,
            result@.to_multiset().subset_of(items@.subrange(0, j as int).to_multiset()),
            kept_before(max, items@.subrange(0, j as int).to_multiset(), result@.to_multiset()),
        decreases len - j,
    {
        let ghost p0 = items@.subrange(0, j as int).to_multiset();
        let ghost r0 = result@.to_multiset();
        let item = items[j];
        proof {
            assert(items@.subrange(0, j + 1) =~= items@.subrange(0, j as int).push(item));
            vstd::seq_lib::to_multiset_build(items@.subrange(0, j as int), item);
            assert(items@.subrange(0, j + 1).to_multiset() =~= p0.insert(item));
            lemma_heap_root_first_of_all(!max, result@);
            vstd::seq_lib::to_multiset_contains(result@, result@[0]);
            assert(result@.contains(result@[0]));
            assert(r0.contains(result@[0]));
        }
        if precedes(max, &item, &result[0]) {
            let ghost root = result@[0];
            let _ = heap_replace(!max, &mut result, item);
            proof {
                let p1 = p0.insert(item);
                let r1 = result@.to_multiset();
                assert(r1 =~= r0.remove(root).insert(item));
                assert(r1.subset_of(p1));
                assert forall|x: i64, y: i64|
                    #![trigger p1.count(x), r1.count(y)]
                    p1.count(x) > r1.count(x) && r1.count(y) > 0 implies rank(max, y) <= rank(max, x) by {
                    if y != item {
                        assert(r0.count(y) > 0);
                        assert(r0.contains(y));
                        assert(rank(!max, root) <= rank(!max, y));
                        assert(rank(max, y) <= rank(max, root));
                    }
                    if x != root {
                        assert(p0.count(x) > r0.count(x));
                        assert(rank(max, root) <= rank(max, x));
                    }
                }
            }
        } else {
            proof {
                let p1 = p0.insert(item);
                assert(r0.subset_of(p1));
                assert forall|x: i64, y: i64|
                    #![trigger p1.count(x), r0.count(y)]
                    p1.count(x) > r0.count(x) && r0.count(y) > 0 implies rank(max, y) <= rank(max, x) by {
                    assert(r0.contains(y));
                    assert(rank(!max, result@[0]) <= rank(!max, y));
                    assert(rank(max, y) <= rank(max, result@[0]));
                    if x != item {
                        assert(p0.count(x) > r0.count(x));
                    }
                }
            }
        }
        j = j + 1;
    }
    proof {
        assert(items@.subrange(0, len as int) =~= items@);
    }
    let r = sorted_copy(max, result);
    r
}

/// The last `n` items of `items`, from the last.
fn nlargest(max: bool, n: usize, items: Vec<i64>) -> (r: Vec<i64>)
    ensures
        selects_first(!max, n as nat, items@, r@),
{
    nsmallest(!max, n, items)
}

/// A binary heap of keys: the smallest comes first, or the largest for a
/// heap made descending.
#[derive(Debug, Clone)]
pub struct Heap {
    items: Vec<i64>,
    size: usize,
    max: bool,
}

impl View for Heap {
    type V = Multiset<i64>;

    /// The keys held.
    closed spec fn view(&self) -> Multiset<i64> {
        self.items@.to_multiset()
    }
}

impl Heap {
    /// The largest key comes first.
    pub closed spec fn descending(&self) -> bool {
        self.max
    }

    /// The entries are in heap order and counted.
    pub closed spec fn wf(&self) -> bool {
        &&& is_heap(self.max, self.items@)
        &&& self.size == self.items@.len()
    }

    /// An empty heap, smallest first.
    pub fn new_min() -> (r: Self)
        ensures
            r.wf(),
            r@ == Multiset::<i64>::empty(),
            !r.descending(),
    {
        let r = Heap { items: Vec::new(), size: 0, max: false };
        proof {
            broadcast use vstd::seq_lib::group_to_multiset_ensures;

            assert(r.items@.to_multiset().len() == 0);
        }
        r
    }

    /// An empty heap, largest first.
    pub fn new_max() -> (r: Self)
        ensures
            r.wf(),
            r@ == Multiset::<i64>::empty(),
            r.descending(),
    {
        let r = Heap { items: Vec::new(), size: 0, max: true };
        proof {
            broadcast use vstd::seq_lib::group_to_multiset_ensures;

            assert(r.items@.to_multiset().len() == 0);
        }
        r
    }

    /// Removes every key.
    pub fn clear(&mut self)
        ensures
            final(self).wf(),
            final(self)@ == Multiset::<i64>::empty(),
            final(self).descending() == old(self).descending(),
    {
        self.items.clear();
        self.size = 0;
        proof {
            broadcast use vstd::seq_lib::group_to_multiset_ensures;

            assert(self.items@.to_multiset().len() == 0);
        }
    }

    /// Adds `item` and returns the new size.
    pub fn push(&mut self, item: i64) -> (r: usize)
        requires
            old(self).wf(),
            old(self)@.len() < usize::MAX,
        ensures
            final(self).wf(),
            final(self)@ == old(self)@.insert(item),
            final(self).descending() == old(self).descending(),
            r == final(self)@.len(),
    {
        broadcast use vstd::seq_lib::group_to_multiset_ensures;

        heap_push(self.max, &mut self.items, item);
        self.size = self.size + 1;
        self.size
    }

    /// The first key, if any.
    pub fn peek(&self) -> (r: Option<&i64>)
        requires
            self.wf(),
        ensures
            r is None <==> self@.len() == 0,
            r matches Some(x) ==> first_of(self.descending(), self@, *x),
    {
        broadcast use vstd::seq_lib::group_to_multiset_ensures;

        if self.items.len() > 0 {
            proof {
                lemma_heap_root_first_of_all(self.max, self.items@);
                assert(self.items@.contains(self.items@[0]));
            }
        }
        self.items.first()
    }

    /// Takes the first key off, if any.
    pub fn pop(&mut self) -> (r: Option<i64>)
        requires
            old(self).wf(),
        ensures
            final(self).wf(),
            final(self).descending() == old(self).descending(),
            old(self)@.len() == 0 ==> r is None && final(self)@ == old(self)@,
            old(self)@.len() > 0 ==> (r matches Some(x) && first_of(old(self).descending(), old(self)@, x)
                && final(self)@ == old(self)@.remove(x)),
    {
        broadcast use vstd::seq_lib::group_to_multiset_ensures;

        if self.size > 0 {
            self.size = self.size - 1;
        }
        heap_pop(self.max, &mut self.items)
    }

    /// Puts `item` in place of the first key and returns that key; an empty
    /// heap is an error.
    pub fn replace(&mut self, item: i64) -> (r: Result<i64, String>)
        requires
            old(self).wf(),
        ensures
            final(self).wf(),
            final(self).descending() == old(self).descending(),
            old(self)@.len() == 0 <==> r is Err,
            r matches Err(e) ==> e@ == "mnemonist/heap.replace: cannot pop an empty heap."@ && final(self)@ == old(self)@,
            r matches Ok(x) ==> first_of(old(self).descending(), old(self)@, x) && final(self)@ == old(self)@.remove(
                x,
            ).insert(item),
    {
        broadcast use vstd::seq_lib::group_to_multiset_ensures;

        let popped = heap_replace(self.max, &mut self.items, item)?;
        Ok(popped)
    }

    /// Adds `item` and takes the first key off, in one step.
    pub fn pushpop(&mut self, item: i64) -> (r: i64)
        requires
            old(self).wf(),
        ensures
            final(self).wf(),
            final(self).descending() == old(self).descending(),
            first_of(old(self).descending(), old(self)@.insert(item), r),
            final(self)@ == old(self)@.insert(item).remove(r),
    {
        broadcast use vstd::seq_lib::group_to_multiset_ensures;

        heap_pushpop(self.max, &mut self.items, item)
    }

    /// Takes every key off, first to last.
    pub fn consume(&mut self) -> (r: Vec<i64>)
        requires
            old(self).wf(),
        ensures
            final(self).wf(),
            final(self).descending() == old(self).descending(),
            final(self)@ == Multiset::<i64>::empty(),
            r@.to_multiset() == old(self)@,
            sorted_by(old(self).descending(), r@),
    {
        broadcast use vstd::seq_lib::group_to_multiset_ensures;

        self.size = 0;
        let r = consume(self.max, &mut self.items);
        proof {
            assert(self.items@.to_multiset().len() == 0);
        }
        r
    }

    /// The keys, first to last, the heap unchanged.
    pub fn to_array(&self) -> (r: Vec<i64>)
        requires
            self.wf(),
        ensures
            r@.to_multiset() == self@,
            sorted_by(self.descending(), r@),
    {
        let mut copy = self.items.clone();
        proof {
            assert(copy@ =~= self.items@);
        }
        consume(self.max, &mut copy)
    }

    /// The number of keys.
    pub fn size(&self) -> (r: usize)
        requires
            self.wf(),
        ensures
            r == self@.len(),
    {
        broadcast use vstd::seq_lib::group_to_multiset_ensures;

        self.size
    }

    /// A heap of `items`, largest first when `max`.
    pub fn from_iter(items: Vec<i64>, max: bool) -> (r: Self)
        ensures
            r.wf(),
            r@ == items@.to_multiset(),
            r.descending() == max,
    {
        let mut items = items;
        heapify(max, &mut items);
        let size = items.len();
        Heap { items, size, max }
    }

    /// The `n` smallest of `items`, smallest first.
    pub fn nsmallest(n: usize, items: Vec<i64>) -> (r: Vec<i64>)
        ensures
            selects_first(false, n as nat, items@, r@),
    {
        nsmallest(false, n, items)
    }

    /// The `n` largest of `items`, largest first.
    pub fn nlargest(n: usize, items: Vec<i64>) -> (r: Vec<i64>)
        ensures
            selects_first(true, n as nat, items@, r@),
    {
        nlargest(false, n, items)
    }
}

} // verus!
