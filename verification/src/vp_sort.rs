//! Sorting a range of item indices by a distance table, as the vantage
//! point tree builds its levels.
use vstd::prelude::*;
use vstd::seq_lib::to_multiset_update;
use vstd::arithmetic::power2::pow2;

verus! {

broadcast use vstd::multiset::group_multiset_axioms;

/// The distance of the item at position `x` of `ind`.
pub open spec fn key(values: Seq<usize>, ind: Seq<usize>, x: int) -> int {
    values[ind[x] as int] as int
}

/// Every index refers to an entry of the distance table.
pub open spec fn in_table(values: Seq<usize>, ind: Seq<usize>) -> bool {
    forall|x: int| 0 <= x < ind.len() ==> (#[trigger] ind[x]) < values.len()
}

/// The keys of `ind` do not decrease on `[lo, hi)`.
pub open spec fn sorted_range(values: Seq<usize>, ind: Seq<usize>, lo: int, hi: int) -> bool {
    forall|i: int, j: int| lo <= i <= j < hi ==> key(values, ind, i) <= key(values, ind, j)
}

/// `s2` agrees with `s1` outside `[a, b)` and permutes it inside.
pub open spec fn permutes_range(s1: Seq<usize>, s2: Seq<usize>, a: int, b: int) -> bool {
    &&& s1.len() == s2.len()
    &&& forall|x: int| 0 <= x < s1.len() && !(a <= x < b) ==> #[trigger] s2[x] == s1[x]
    &&& s2.subrange(a, b).to_multiset() == s1.subrange(a, b).to_multiset()
}

/// `s` with the entries at `i` and `j` exchanged.
pub open spec fn swap_at<A>(s: Seq<A>, i: int, j: int) -> Seq<A> {
    s.update(i, s[j]).update(j, s[i])
}

/// Exchanging two entries keeps the multiset.
pub proof fn lemma_swap_at_multiset<A>(s: Seq<A>, i: int, j: int)
    requires
        0 <= i < s.len(),
        0 <= j < s.len(),
    ensures
        swap_at(s, i, j).to_multiset() == s.to_multiset(),
{
    broadcast use to_multiset_update;

    if i != j {
        let s1 = s.update(i, s[j]);
        assert(s1[j] == s[j]);
        let m = s.to_multiset();
        vstd::seq_lib::to_multiset_contains(s, s[i]);
        vstd::seq_lib::to_multiset_contains(s, s[j]);
        assert forall|x: A| #[trigger] swap_at(s, i, j).to_multiset().count(x) == m.count(x) by {}
        assert(swap_at(s, i, j).to_multiset() =~= m);
    } else {
        assert(swap_at(s, i, j) =~= s);
    }
}

/// Exchanging two entries inside a range permutes the range.
proof fn lemma_swap_permutes(s: Seq<usize>, i: int, j: int, a: int, b: int)
    requires
        0 <= a <= i < b <= s.len(),
        a <= j < b,
    ensures
        permutes_range(s, swap_at(s, i, j), a, b),
{
    let t = swap_at(s, i, j);
    assert(t.subrange(a, b) =~= swap_at(s.subrange(a, b), i - a, j - a));
    lemma_swap_at_multiset(s.subrange(a, b), i - a, j - a);
}

/// Permuting a range, then a range inside it, permutes the outer range.
pub proof fn lemma_permutes_trans(s1: Seq<usize>, s2: Seq<usize>, s3: Seq<usize>, a: int, b: int, c: int, d: int)
    requires
        0 <= a <= c <= d <= b <= s1.len(),
        permutes_range(s1, s2, a, b),
        permutes_range(s2, s3, c, d),
    ensures
        permutes_range(s1, s3, a, b),
{
    lemma_widen_permutes(s2, s3, c, d, a, b);
}

/// A permutation of a range permutes every range around it.
pub proof fn lemma_widen_permutes(s1: Seq<usize>, s2: Seq<usize>, c: int, d: int, a: int, b: int)
    requires
        0 <= a <= c <= d <= b <= s1.len(),
        permutes_range(s1, s2, c, d),
    ensures
        permutes_range(s1, s2, a, b),
{
    vstd::seq_lib::lemma_multiset_commutative(s1.subrange(a, c), s1.subrange(c, d));
    vstd::seq_lib::lemma_multiset_commutative(s1.subrange(a, d), s1.subrange(d, b));
    vstd::seq_lib::lemma_multiset_commutative(s2.subrange(a, c), s2.subrange(c, d));
    vstd::seq_lib::lemma_multiset_commutative(s2.subrange(a, d), s2.subrange(d, b));
    assert(s1.subrange(a, d) =~= s1.subrange(a, c) + s1.subrange(c, d));
    assert(s1.subrange(a, b) =~= s1.subrange(a, d) + s1.subrange(d, b));
    assert(s2.subrange(a, d) =~= s2.subrange(a, c) + s2.subrange(c, d));
    assert(s2.subrange(a, b) =~= s2.subrange(a, d) + s2.subrange(d, b));
    assert(s1.subrange(a, c) =~= s2.subrange(a, c));
    assert(s1.subrange(d, b) =~= s2.subrange(d, b));
}

/// Every entry of a permuted range was somewhere in the range before.
pub proof fn lemma_permuted_member(s1: Seq<usize>, s2: Seq<usize>, a: int, b: int, z: int) -> (w: int)
    requires
        0 <= a <= z < b <= s1.len(),
        permutes_range(s1, s2, a, b),
    ensures
        a <= w < b,
        s2[z] == s1[w],
{
    let t2 = s2.subrange(a, b);
    let t1 = s1.subrange(a, b);
    assert(t2[z - a] == s2[z]);
    vstd::seq_lib::to_multiset_contains(t2, s2[z]);
    vstd::seq_lib::to_multiset_contains(t1, s2[z]);
    assert(t1.contains(s2[z]));
    let k = choose|k: int| 0 <= k < t1.len() && t1[k] == s2[z];
    a + k
}

/// Splits `[a, end)` around the key first in it, moving a hole from end
/// to end: afterwards nothing before the returned position has a larger
/// key and nothing after it a smaller one.
fn partition(values: &Vec<usize>, indices: &mut Vec<usize>, a: usize, end: usize) -> (p: usize)
    requires
        a + 1 < end <= old(indices)@.len(),
        in_table(values@, old(indices)@),
    ensures
        a <= p < end,
        in_table(values@, final(indices)@),
        permutes_range(old(indices)@, final(indices)@, a as int, end as int),
        forall|x: int| a <= x < p ==> key(values@, final(indices)@, x) <= key(values@, final(indices)@, p as int),
        forall|x: int| p < x < end ==> key(values@, final(indices)@, x) >= key(values@, final(indices)@, p as int),
{
    let ghost orig = indices@;
    let mut left = a;
    let mut right = end - 1;
    let item = indices[left];
    let pivot = values[item];
    let ghost mut hole: int = left as int;
    proof {
        assert(indices@.update(hole, item) =~= orig);
        assert(orig.subrange(a as int, end as int) =~= orig.subrange(a as int, end as int));
    }
    while left < right
        invariant
            a <= left <= right < end,
            end <= indices@.len(),
            hole == left,
            in_table(values@, indices@),
            item == orig[a as int],
            item < values@.len(),
            pivot == values@[item as int],
            permutes_range(orig, indices@.update(hole, item), a as int, end as int),
            forall|x: int| a <= x < left ==> key(values@, indices@, x) <= pivot,
            forall|x: int| right < x < end ==> key(values@, indices@, x) >= pivot,
        decreases right - left,
    {
        let ghost l0 = left;
        let ghost r0 = right;
        while values[indices[right]] >= pivot && left < right
            invariant
                a <= left <= right < end,
                left == l0,
                right <= r0,
                end <= indices@.len(),
                in_table(values@, indices@),
                item < values@.len(),
                pivot == values@[item as int],
                forall|x: int| a <= x < left ==> key(values@, indices@, x) <= pivot,
                forall|x: int| right < x < end ==> key(values@, indices@, x) >= pivot,
            decreases right,
        {
            right = right - 1;
        }
        if left < right {
            let ghost b = indices@.update(hole, item);
            let ghost pre = indices@;
            let v = indices[right];
            indices.set(left, v);
            proof {
                assert(values@[v as int] < pivot);
                assert forall|x: int| a <= x < left + 1 implies key(values@, indices@, x) <= pivot by {
                    if x < left {
                        assert(indices@[x] == pre[x]);
                        assert(key(values@, pre, x) <= pivot);
                    }
                }
                assert forall|x: int| right < x < end implies key(values@, indices@, x) >= pivot by {
                    assert(indices@[x] == pre[x]);
                    assert(key(values@, pre, x) >= pivot);
                }
                assert(indices@.update(right as int, item) =~= swap_at(b, left as int, right as int));
                lemma_swap_permutes(b, left as int, right as int, a as int, end as int);
                lemma_permutes_trans(orig, b, indices@.update(right as int, item), a as int, end as int, a as int, end as int);
                hole = right as int;
            }
            left = left + 1;
        }
        proof {
            assert(hole == right);
        }
        while values[indices[left]] <= pivot && left < right
            invariant
                a <= left <= right < end,
                l0 <= left,
                right <= r0,
                l0 < left || left == right,
                end <= indices@.len(),
                hole == right,
                in_table(values@, indices@),
                item < values@.len(),
                pivot == values@[item as int],
                forall|x: int| a <= x < left ==> key(values@, indices@, x) <= pivot,
                forall|x: int| right < x < end ==> key(values@, indices@, x) >= pivot,
            decreases right - left,
        {
            left = left + 1;
        }
        if left < right {
            let ghost b = indices@.update(hole, item);
            let ghost pre = indices@;
            let v = indices[left];
            indices.set(right, v);
            proof {
                assert(values@[v as int] > pivot);
                assert forall|x: int| a <= x < left implies key(values@, indices@, x) <= pivot by {
                    assert(indices@[x] == pre[x]);
                    assert(key(values@, pre, x) <= pivot);
                }
                assert forall|x: int| right - 1 < x < end implies key(values@, indices@, x) >= pivot by {
                    if x > right {
                        assert(indices@[x] == pre[x]);
                        assert(key(values@, pre, x) >= pivot);
                    }
                }
                assert(indices@.update(left as int, item) =~= swap_at(b, right as int, left as int));
                lemma_swap_permutes(b, right as int, left as int, a as int, end as int);
                lemma_permutes_trans(orig, b, indices@.update(left as int, item), a as int, end as int, a as int, end as int);
                hole = left as int;
            }
            right = right - 1;
        }
    }
    let ghost pre = indices@;
    indices.set(left, item);
    proof {
        assert(indices@ =~= pre.update(hole, item));
        assert forall|x: int| a <= x < left implies key(values@, indices@, x) <= key(values@, indices@, left as int) by {
            assert(indices@[x] == pre[x]);
            assert(key(values@, pre, x) <= pivot);
        }
        assert forall|x: int| left < x < end implies key(values@, indices@, x) >= key(values@, indices@, left as int) by {
            assert(indices@[x] == pre[x]);
            assert(key(values@, pre, x) >= pivot);
        }
    }
    left
}

/// Position `x` lies in one of the ranges of `rs`.
pub open spec fn in_stack(rs: Seq<(usize, usize)>, x: int) -> bool {
    exists|t: int| 0 <= t < rs.len() && ((#[trigger] rs[t]).0 as int) <= x < (rs[t].1 as int)
}

/// Position `x` has its final key: nothing before it is larger and nothing
/// after it smaller, within `[lo, hi)`.
pub open spec fn settled(values: Seq<usize>, ind: Seq<usize>, lo: int, hi: int, x: int) -> bool {
    forall|y: int|
        lo <= y < hi ==> (y < x ==> #[trigger] key(values, ind, y) <= key(values, ind, x)) && (y > x
            ==> key(values, ind, y) >= key(values, ind, x))
}

/// The keys before `[a, b)` are no larger, and those after it no smaller,
/// than every key inside it.
pub open spec fn bounded(values: Seq<usize>, ind: Seq<usize>, lo: int, hi: int, a: int, b: int) -> bool {
    forall|y: int, z: int|
        #![trigger key(values, ind, y), key(values, ind, z)]
        lo <= y < hi && a <= z < b ==> (y < a ==> key(values, ind, y) <= key(values, ind, z)) && (y >= b
            ==> key(values, ind, y) >= key(values, ind, z))
}

/// The pending ranges of the sort lie in `[lo, hi)`, the later ones to the
/// left of the earlier ones; each is bounded, and every position outside
/// them is settled.
pub open spec fn stack_ok(values: Seq<usize>, ind: Seq<usize>, lo: int, hi: int, rs: Seq<(usize, usize)>) -> bool {
    &&& forall|t: int| 0 <= t < rs.len() ==> lo <= (#[trigger] rs[t]).0 <= rs[t].1 <= hi
    &&& forall|t: int, u: int| 0 <= t < u < rs.len() ==> (#[trigger] rs[u]).1 <= (#[trigger] rs[t]).0
    &&& forall|t: int| 0 <= t < rs.len() ==> bounded(values, ind, lo, hi, (#[trigger] rs[t]).0 as int, rs[t].1 as int)
    &&& forall|x: int| lo <= x < hi && !in_stack(rs, x) ==> #[trigger] settled(values, ind, lo, hi, x)
}

/// The cost still pending in a range: the powers of two of its positions,
/// counted from `lo`.
pub open spec fn range_weight(r: (usize, usize), lo: int) -> nat {
    if lo <= r.0 < r.1 {
        (pow2((r.1 - lo) as nat) - pow2((r.0 - lo) as nat)) as nat
    } else {
        0
    }
}

/// The cost pending in all ranges of the stack.
pub open spec fn stack_weight(rs: Seq<(usize, usize)>, lo: int) -> nat
    decreases rs.len(),
{
    if rs.len() == 0 {
        0
    } else {
        stack_weight(rs.drop_last(), lo) + range_weight(rs.last(), lo)
    }
}

/// Splitting a range at a pivot leaves less pending cost.
proof fn lemma_weight_split(lo: int, a: int, p: int, b: int)
    requires
        lo <= a <= p < b,
    ensures
        (pow2((b - lo) as nat) - pow2((p + 1 - lo) as nat)) + (pow2((p - lo) as nat) - pow2(0)) < pow2(
            (b - lo) as nat,
        ) - pow2((a - lo) as nat),
        pow2((a - lo) as nat) <= pow2((p - lo) as nat),
        pow2((p + 1 - lo) as nat) <= pow2((b - lo) as nat),
        pow2(0) <= pow2((p - lo) as nat),
{
    vstd::arithmetic::power2::lemma_pow2_unfold((p + 1 - lo) as nat);
    assert(pow2(0) == 1) by {
        vstd::arithmetic::power2::lemma_pow2(0);
        vstd::arithmetic::power::lemma_pow0(2);
    }
    if a < p {
        vstd::arithmetic::power2::lemma_pow2_strictly_increases((a - lo) as nat, (p - lo) as nat);
    }
    if 0 < p - lo {
        vstd::arithmetic::power2::lemma_pow2_strictly_increases(0, (p - lo) as nat);
    }
    if p + 1 < b {
        vstd::arithmetic::power2::lemma_pow2_strictly_increases((p + 1 - lo) as nat, (b - lo) as nat);
    }
}

/// A position lies in the ranges of a pushed stack when it lies in the
/// pushed range or in the stack below.
proof fn lemma_in_stack_push(rs: Seq<(usize, usize)>, r: (usize, usize), x: int)
    ensures
        in_stack(rs.push(r), x) <==> in_stack(rs, x) || (r.0 as int) <= x < (r.1 as int),
{
    let s = rs.push(r);
    if in_stack(rs, x) {
        let t = choose|t: int| 0 <= t < rs.len() && ((#[trigger] rs[t]).0 as int) <= x < (rs[t].1 as int);
        assert(s[t] == rs[t]);
    }
    if (r.0 as int) <= x < (r.1 as int) {
        assert(s[rs.len() as int] == r);
    }
    if in_stack(s, x) {
        let t = choose|t: int| 0 <= t < s.len() && ((#[trigger] s[t]).0 as int) <= x < (s[t].1 as int);
        if t < rs.len() {
            assert(s[t] == rs[t]);
        }
    }
}

/// Dropping a range of at most one position from the top keeps the stack
/// in order: that position is settled.
proof fn lemma_stack_skip(values: Seq<usize>, ind: Seq<usize>, lo: int, hi: int, rs: Seq<(usize, usize)>, r: (
    usize,
    usize,
))
    requires
        stack_ok(values, ind, lo, hi, rs.push(r)),
        r.1 <= r.0 + 1,
    ensures
        stack_ok(values, ind, lo, hi, rs),
{
    let s = rs.push(r);
    assert forall|t: int| 0 <= t < rs.len() implies lo <= (#[trigger] rs[t]).0 <= rs[t].1 <= hi by {
        assert(s[t] == rs[t]);
    }
    assert forall|t: int, u: int| 0 <= t < u < rs.len() implies (#[trigger] rs[u]).1 <= (#[trigger] rs[t]).0 by {
        assert(s[t] == rs[t] && s[u] == rs[u]);
    }
    assert forall|t: int| 0 <= t < rs.len() implies bounded(values, ind, lo, hi, (#[trigger] rs[t]).0 as int, rs[t].1 as int) by {
        assert(s[t] == rs[t]);
    }
    assert(s[rs.len() as int] == r);
    assert(bounded(values, ind, lo, hi, r.0 as int, r.1 as int));
    assert forall|x: int| lo <= x < hi && !in_stack(rs, x) implies #[trigger] settled(values, ind, lo, hi, x) by {
        lemma_in_stack_push(rs, r, x);
        if (r.0 as int) <= x < (r.1 as int) {
            assert forall|y: int| lo <= y < hi implies (y < x ==> #[trigger] key(values, ind, y) <= key(values, ind, x)) && (y
                > x ==> key(values, ind, y) >= key(values, ind, x)) by {
                assert(x == r.0);
            }
        }
    }
}

/// Splitting the top range at a settled pivot, and pushing the part right
/// of the pivot and the part from `lo` to the pivot, keeps the stack in
/// order.
proof fn lemma_stack_split(
    values: Seq<usize>,
    ind0: Seq<usize>,
    ind1: Seq<usize>,
    lo: usize,
    hi: int,
    rs: Seq<(usize, usize)>,
    a: usize,
    b: usize,
    p: usize,
)
    requires
        stack_ok(values, ind0, lo as int, hi, rs.push((a, b))),
        lo <= a,
        a + 1 < b <= hi <= ind0.len(),
        a <= p < b,
        permutes_range(ind0, ind1, a as int, b as int),
        forall|x: int| a <= x < p ==> key(values, ind1, x) <= key(values, ind1, p as int),
        forall|x: int| p < x < b ==> key(values, ind1, x) >= key(values, ind1, p as int),
    ensures
        stack_ok(values, ind1, lo as int, hi, rs.push(((p + 1) as usize, b)).push((lo, p))),
{
    let lo_i = lo as int;
    let s0 = rs.push((a, b));
    let s1 = rs.push(((p + 1) as usize, b));
    let s2 = s1.push((lo, p));
    assert(s0[rs.len() as int] == (a, b));
    assert(bounded(values, ind0, lo_i, hi, a as int, b as int));
    assert forall|t: int| 0 <= t < rs.len() implies lo_i <= (#[trigger] rs[t]).0 <= rs[t].1 <= hi && b <= rs[t].0 by {
        assert(s0[t] == rs[t]);
    }
    // Where the keys moved.
    assert forall|y: int| 0 <= y < ind0.len() && !(a <= y < b) implies #[trigger] key(values, ind1, y) == key(
        values,
        ind0,
        y,
    ) by {}
    // Bounds and order of the ranges.
    assert forall|t: int| 0 <= t < s2.len() implies lo_i <= (#[trigger] s2[t]).0 <= s2[t].1 <= hi by {
        if t < rs.len() {
            assert(s2[t] == rs[t]);
        }
    }
    assert forall|t: int, u: int| 0 <= t < u < s2.len() implies (#[trigger] s2[u]).1 <= (#[trigger] s2[t]).0 by {
        if u < rs.len() {
            assert(s2[t] == rs[t] && s2[u] == rs[u] && s0[t] == rs[t] && s0[u] == rs[u]);
        } else if t < rs.len() {
            assert(s2[t] == rs[t]);
        }
    }
    // The old ranges stay bounded.
    assert forall|t: int| 0 <= t < rs.len() implies bounded(values, ind1, lo_i, hi, (#[trigger] rs[t]).0 as int, rs[t].1 as int) by {
        assert(s0[t] == rs[t]);
        let c = rs[t].0 as int;
        let d = rs[t].1 as int;
        assert(bounded(values, ind0, lo_i, hi, c, d));
        assert forall|y: int, z: int| lo_i <= y < hi && c <= z < d implies (y < c ==> key(values, ind1, y) <= key(values, ind1, z)) && (y
            >= d ==> key(values, ind1, y) >= key(values, ind1, z)) by {
            assert(key(values, ind1, z) == key(values, ind0, z));
            if a <= y < b {
                let w = lemma_permuted_member(ind0, ind1, a as int, b as int, y);
                assert(key(values, ind1, y) == key(values, ind0, w));
                assert(key(values, ind0, w) <= key(values, ind0, z));
            } else {
                assert(key(values, ind1, y) == key(values, ind0, y));
            }
        }
    }
    // The key at the pivot came from the old range.
    let wp = lemma_permuted_member(ind0, ind1, a as int, b as int, p as int);
    assert(key(values, ind1, p as int) == key(values, ind0, wp));
    // The part right of the pivot is bounded.
    assert(bounded(values, ind1, lo_i, hi, p + 1, b as int)) by {
        assert forall|y: int, z: int| lo_i <= y < hi && p + 1 <= z < b implies (y < p + 1 ==> key(values, ind1, y) <= key(
            values,
            ind1,
            z,
        )) && (y >= b ==> key(values, ind1, y) >= key(values, ind1, z)) by {
            let wz = lemma_permuted_member(ind0, ind1, a as int, b as int, z);
            assert(key(values, ind1, z) == key(values, ind0, wz));
            if y < a {
                assert(key(values, ind1, y) == key(values, ind0, y));
                assert(key(values, ind0, y) <= key(values, ind0, wz));
            } else if y < p + 1 {
                if y < p {
                    assert(key(values, ind1, y) <= key(values, ind1, p as int));
                }
                assert(key(values, ind1, z) >= key(values, ind1, p as int));
            } else if y >= b {
                assert(key(values, ind1, y) == key(values, ind0, y));
                assert(key(values, ind0, y) >= key(values, ind0, wz));
            }
        }
    }
    // The part from `lo` to the pivot is bounded.
    assert(bounded(values, ind1, lo_i, hi, lo_i, p as int)) by {
        assert forall|y: int, z: int| lo_i <= y < hi && lo_i <= z < p implies (y < lo_i ==> key(values, ind1, y) <= key(
            values,
            ind1,
            z,
        )) && (y >= p ==> key(values, ind1, y) >= key(values, ind1, z)) by {
            if y >= p {
                if z >= a {
                    assert(key(values, ind1, z) <= key(values, ind1, p as int));
                    if y > p && y < b {
                        assert(key(values, ind1, y) >= key(values, ind1, p as int));
                    } else if y >= b {
                        assert(key(values, ind1, y) == key(values, ind0, y));
                        assert(key(values, ind0, y) >= key(values, ind0, wp));
                    }
                } else {
                    lemma_in_stack_push(rs, (a, b), z);
                    if in_stack(rs, z) {
                        let t = choose|t: int| 0 <= t < rs.len() && ((#[trigger] rs[t]).0 as int) <= z < (rs[t].1 as int);
                        assert(false);
                    }
                    assert(settled(values, ind0, lo_i, hi, z));
                    assert(key(values, ind1, z) == key(values, ind0, z));
                    if a <= y < b {
                        let wy = lemma_permuted_member(ind0, ind1, a as int, b as int, y);
                        assert(key(values, ind1, y) == key(values, ind0, wy));
                        assert(key(values, ind0, wy) >= key(values, ind0, z));
                    } else {
                        assert(key(values, ind1, y) == key(values, ind0, y));
                        assert(key(values, ind0, y) >= key(values, ind0, z));
                    }
                }
            }
        }
    }
    assert forall|t: int| 0 <= t < s2.len() implies bounded(values, ind1, lo_i, hi, (#[trigger] s2[t]).0 as int, s2[t].1 as int) by {
        if t < rs.len() {
            assert(s2[t] == rs[t]);
        }
    }
    // Every position outside the new ranges is settled.
    assert forall|x: int| lo_i <= x < hi && !in_stack(s2, x) implies #[trigger] settled(values, ind1, lo_i, hi, x) by {
        lemma_in_stack_push(s1, (lo, p), x);
        lemma_in_stack_push(rs, ((p + 1) as usize, b), x);
        lemma_in_stack_push(rs, (a, b), x);
        if x == p {
            assert forall|y: int| lo_i <= y < hi implies (y < x ==> #[trigger] key(values, ind1, y) <= key(values, ind1, x)) && (y
                > x ==> key(values, ind1, y) >= key(values, ind1, x)) by {
                if y < a {
                    assert(key(values, ind1, y) == key(values, ind0, y));
                    assert(key(values, ind0, y) <= key(values, ind0, wp));
                } else if y >= b {
                    assert(key(values, ind1, y) == key(values, ind0, y));
                    assert(key(values, ind0, y) >= key(values, ind0, wp));
                }
            }
        } else {
            assert(x >= b);
            assert(settled(values, ind0, lo_i, hi, x));
            assert(key(values, ind1, x) == key(values, ind0, x));
            assert forall|y: int| lo_i <= y < hi implies (y < x ==> #[trigger] key(values, ind1, y) <= key(values, ind1, x)) && (y
                > x ==> key(values, ind1, y) >= key(values, ind1, x)) by {
                if a <= y < b {
                    let wy = lemma_permuted_member(ind0, ind1, a as int, b as int, y);
                    assert(key(values, ind1, y) == key(values, ind0, wy));
                    assert(key(values, ind0, wy) <= key(values, ind0, x));
                } else {
                    assert(key(values, ind1, y) == key(values, ind0, y));
                }
            }
        }
    }
}

/// Sorts the indices in `[lo, hi)` by their distances with a quicksort
/// over an explicit stack of ranges; positions outside are untouched.
pub fn quick_sort_indices(values: &Vec<usize>, indices: &mut Vec<usize>, lo: usize, hi: usize)
    requires
        lo <= hi <= old(indices)@.len(),
        in_table(values@, old(indices)@),
    ensures
        in_table(values@, final(indices)@),
        permutes_range(old(indices)@, final(indices)@, lo as int, hi as int),
        sorted_range(values@, final(indices)@, lo as int, hi as int),
{
    let ghost orig = indices@;
    let mut ranges: Vec<(usize, usize)> = Vec::new();
    ranges.push((lo, hi));
    proof {
        assert(ranges@[0] == (lo, hi));
        assert forall|x: int| lo <= x < hi && !in_stack(ranges@, x) implies #[trigger] settled(
            values@,
            indices@,
            lo as int,
            hi as int,
            x,
        ) by {
            assert(ranges@[0].0 <= x < ranges@[0].1);
        }
    }
    while ranges.len() > 0
        invariant
            lo <= hi <= indices@.len(),
            in_table(values@, indices@),
            permutes_range(orig, indices@, lo as int, hi as int),
            stack_ok(values@, indices@, lo as int, hi as int, ranges@),
        decreases stack_weight(ranges@, lo as int), ranges@.len(),
    {
        let ghost rs0 = ranges@;
        let range = ranges.pop().unwrap();
        let ghost rs1 = ranges@;
        proof {
            assert(rs0 =~= ranges@.push(range));
            assert(rs0.drop_last() =~= ranges@);
            assert(stack_weight(rs0, lo as int) == stack_weight(rs1, lo as int) + range_weight(range, lo as int));
        }
        let a = range.0;
        let end = range.1;
        if a >= end {
            proof {
                lemma_stack_skip(values@, indices@, lo as int, hi as int, ranges@, range);
            }
            continue;
        }
        let right = end - 1;
        if a >= right {
            proof {
                lemma_stack_skip(values@, indices@, lo as int, hi as int, ranges@, range);
            }
            continue;
        }
        proof {
            assert(rs0[ranges@.len() as int] == range);
        }
        let ghost ind0 = indices@;
        let p = partition(values, indices, a, end);
        proof {
            lemma_stack_split(values@, ind0, indices@, lo, hi as int, ranges@, a, end, p);
            lemma_widen_permutes(ind0, indices@, a as int, end as int, lo as int, hi as int);
            lemma_permutes_trans(orig, ind0, indices@, lo as int, hi as int, lo as int, hi as int);
            lemma_weight_split(lo as int, a as int, p as int, end as int);
            let r1 = ((p + 1) as usize, end);
            let r2 = (lo, p);
            assert(ranges@.push(r1).drop_last() =~= ranges@);
            assert(ranges@.push(r1).push(r2).drop_last() =~= ranges@.push(r1));
        }
        ranges.push((p + 1, end));
        ranges.push((lo, p));
        proof {
            let r1 = ((p + 1) as usize, end);
            let r2 = (lo, p);
            assert(ranges@ =~= rs1.push(r1).push(r2));
            assert(stack_weight(rs1.push(r1), lo as int) == stack_weight(rs1, lo as int) + range_weight(r1, lo as int));
            assert(stack_weight(ranges@, lo as int) == stack_weight(rs1.push(r1), lo as int) + range_weight(
                r2,
                lo as int,
            ));
            assert(range_weight(r1, lo as int) <= pow2((end - lo) as nat) - pow2((p + 1 - lo) as nat));
            assert(range_weight(r2, lo as int) <= pow2((p - lo) as nat) - pow2(0));
            assert(range_weight(range, lo as int) == pow2((end - lo) as nat) - pow2((a - lo) as nat));
            assert(stack_weight(ranges@, lo as int) < stack_weight(rs0, lo as int));
        }
    }
    proof {
        assert forall|i: int, j: int| lo <= i <= j < hi implies key(values@, indices@, i) <= key(values@, indices@, j) by {
            if i < j {
                assert(settled(values@, indices@, lo as int, hi as int, i));
            }
        }
    }
}

/// The first position of the sorted range `[lo, hi)` whose doubled key
/// reaches `mu2`.
pub fn lower_bound(values: &Vec<usize>, indices: &Vec<usize>, mu2: u128, lo: usize, hi: usize) -> (r: usize)
    requires
        lo <= hi <= indices@.len(),
        in_table(values@, indices@),
        sorted_range(values@, indices@, lo as int, hi as int),
    ensures
        lo <= r <= hi,
        forall|x: int| lo <= x < r ==> 2 * key(values@, indices@, x) < mu2,
        forall|x: int| r <= x < hi ==> 2 * key(values@, indices@, x) >= mu2,
{
    let ghost lo0 = lo;
    let ghost hi0 = hi;
    let mut lo = lo;
    let mut hi = hi;
    while lo < hi
        invariant
            lo0 <= lo <= hi <= hi0,
            hi0 <= indices@.len(),
            in_table(values@, indices@),
            sorted_range(values@, indices@, lo0 as int, hi0 as int),
            forall|x: int| lo0 <= x < lo ==> 2 * key(values@, indices@, x) < mu2,
            forall|x: int| hi <= x < hi0 ==> 2 * key(values@, indices@, x) >= mu2,
        decreases hi - lo,
    {
        let mid = lo + (hi - lo) / 2;
        let k = values[indices[mid]];
        proof {
            assert(k == key(values@, indices@, mid as int));
        }
        if mu2 <= 2 * (k as u128) {
            proof {
                assert forall|x: int| mid <= x < hi0 implies 2 * key(values@, indices@, x) >= mu2 by {
                    assert(key(values@, indices@, mid as int) <= key(values@, indices@, x));
                }
            }
            hi = mid;
        } else {
            proof {
                assert forall|x: int| lo0 <= x < mid + 1 implies 2 * key(values@, indices@, x) < mu2 by {
                    assert(key(values@, indices@, x) <= key(values@, indices@, mid as int));
                }
            }
            lo = mid + 1;
        }
    }
    lo
}

} // verus!
