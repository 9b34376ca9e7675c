//! Segment arithmetic of the PassJoin similarity join.
use vstd::prelude::*;
use std::cmp::Ordering;
use crate::text::{chars_eq, chars_less, chars_of, edit_distance, lemma_seq_less_total, seq_less, string_from_chars};
use indexmap::IndexSet;
use crate::default_map::{key_index, lemma_key_index, lemma_push_distinct};
use crate::fuzzy_map::{find_matches, key_chars, lemma_same_matches, sort_matches};
use crate::ordered_keys::{key_order, keys_clear, keys_get_index, keys_insert_full, keys_len, keys_new};

verus! {

/// The `i`-th of the `k + 1` segments that split `length` characters as
/// evenly as possible, shorter segments first: its start and length.
pub open spec fn partition_entry(k: int, length: int, i: int) -> (int, int) {
    let segs = k + 1;
    let small = length / segs;
    let large = small + 1;
    let large_count = length - small * segs;
    let small_count = segs - large_count;
    if i < small_count {
        (i * small, small)
    } else {
        (small_count * small + (i - small_count) * large, large)
    }
}

/// The total length of the first `n` segments of the even split.
pub open spec fn lengths_before(k: int, length: int, n: int) -> int
    decreases n,
{
    if n <= 0 {
        0
    } else {
        lengths_before(k, length, n - 1) + partition_entry(k, length, n - 1).1
    }
}

/// Each segment starts where the segments before it end: its start is the
/// sum of their lengths.
pub proof fn lemma_segment_start(k: int, length: int, index: int)
    requires
        0 <= k,
        0 <= length,
        0 <= index <= k,
    ensures
        partition_entry(k, length, index).0 == lengths_before(k, length, index),
    decreases index,
{
    lemma_partition_bounds(k + 1, length);
    if index == 0 {
        assert(0 * (length / (k + 1)) == 0);
    } else {
        lemma_segment_start(k, length, index - 1);
        let segs = k + 1;
        let small = length / segs;
        let large = small + 1;
        let sc = segs - (length - small * segs);
        let n = index;
        let prev = partition_entry(k, length, n - 1);
        let cur = partition_entry(k, length, n);
        if n < sc {
            assert(prev == ((n - 1) * small, small));
            assert(cur == (n * small, small));
            assert(n * small == (n - 1) * small + small) by (nonlinear_arith);
        } else if n == sc {
            assert(prev == ((n - 1) * small, small));
            assert(cur == (sc * small + (n - sc) * large, large));
            assert(sc * small + (n - sc) * large == (n - 1) * small + small) by (nonlinear_arith)
                requires
                    n == sc,
            ;
        } else {
            assert(prev == (sc * small + (n - 1 - sc) * large, large));
            assert(cur == (sc * small + (n - sc) * large, large));
            assert(sc * small + (n - sc) * large == sc * small + (n - 1 - sc) * large + large) by (nonlinear_arith);
        }
    }
}

/// Arithmetic facts about the even split.
proof fn lemma_partition_bounds(segs: int, length: int)
    requires
        segs >= 1,
        length >= 0,
    ensures
        0 <= length / segs * segs <= length,
        length - length / segs * segs < segs,
        (segs - (length - length / segs * segs)) * (length / segs) + (length - length / segs * segs) * (
        length / segs + 1) == length,
{
    let small = length / segs;
    assert(small * segs <= length && length - small * segs < segs) by (nonlinear_arith)
        requires
            segs >= 1,
            length >= 0,
            small == length / segs,
    ;
    assert(0 <= small * segs) by (nonlinear_arith)
        requires
            segs >= 1,
            small >= 0,
    ;
    let lc = length - small * segs;
    assert((segs - lc) * small + lc * (small + 1) == length) by (nonlinear_arith)
        requires
            lc == length - small * segs,
    ;
}

/// The `k + 1` segments of an even split of `length` characters.
pub fn partition(k: usize, length: usize) -> (r: Vec<(usize, usize)>)
    requires
        k < usize::MAX,
        (length as int) / (k as int + 1) < usize::MAX,
    ensures
        r@.len() == k + 1,
        forall|i: int|
            0 <= i <= k ==> (#[trigger] r@[i]).0 == partition_entry(k as int, length as int, i).0 && r@[i].1
                == partition_entry(k as int, length as int, i).1,
{
    let segments = k + 1;
    let small = length / segments;
    proof {
        lemma_partition_bounds(segments as int, length as int);
    }
    let large = small + 1;
    let large_count = length - small * segments;
    let small_count = segments - large_count;
    let mut result: Vec<(usize, usize)> = Vec::new();
    let mut index: usize = 0;
    while index < small_count
        invariant
            segments == k + 1,
            small == length / segments,
            large == small + 1,
            large_count == length - small * segments,
            small_count == segments - large_count,
            small_count * small + large_count * large == length,
            index <= small_count,
            result@.len() == index,
            forall|i: int|
                0 <= i < index ==> (#[trigger] result@[i]).0 == partition_entry(k as int, length as int, i).0
                    && result@[i].1 == partition_entry(k as int, length as int, i).1,
        decreases small_count - index,
    {
        assert(index * small <= small_count * small) by (nonlinear_arith)
            requires
                index < small_count,
                small >= 0,
        ;
        result.push((index * small, small));
        index = index + 1;
    }
    let offset = small_count * small;
    let mut index: usize = 0;
    while index < large_count
        invariant
            segments == k + 1,
            small == length / segments,
            large == small + 1,
            large_count == length - small * segments,
            small_count == segments - large_count,
            small_count * small + large_count * large == length,
            offset == small_count * small,
            index <= large_count,
            result@.len() == small_count + index,
            forall|i: int|
                0 <= i < small_count + index ==> (#[trigger] result@[i]).0 == partition_entry(
                    k as int,
                    length as int,
                    i,
                ).0 && result@[i].1 == partition_entry(k as int, length as int, i).1,
        decreases large_count - index,
    {
        assert(index * large + large <= large_count * large) by (nonlinear_arith)
            requires
                index < large_count,
                large >= 0,
        ;
        let entry = (offset + index * large, large);
        proof {
            let i = small_count + index;
            assert(i - small_count == index);
        }
        result.push(entry);
        index = index + 1;
    }
    result
}

/// The characters of `value` split into the `k + 1` segments.
pub fn segments(k: usize, value: &str) -> (r: Vec<String>)
    requires
        k < usize::MAX,
        (value@.len() as int) / (k as int + 1) < usize::MAX,
    ensures
        r@.len() == k + 1,
        forall|i: int|
            0 <= i <= k ==> (#[trigger] r@[i])@ == value@.subrange(
                partition_entry(k as int, value@.len() as int, i).0,
                partition_entry(k as int, value@.len() as int, i).0 + partition_entry(
                    k as int,
                    value@.len() as int,
                    i,
                ).1,
            ),
        forall|i: int| 0 <= i <= k ==> (#[trigger] r@[i])@.len() == partition_entry(k as int, value@.len() as int, i).1,
{
    let characters = chars_of(value);
    let parts = partition(k, characters.len());
    let mut out: Vec<String> = Vec::new();
    let mut i: usize = 0;
    while i < parts.len()
        invariant
            characters@ == value@,
            k < usize::MAX,
            parts@.len() == k + 1,
            forall|j: int|
                0 <= j <= k ==> (#[trigger] parts@[j]).0 == partition_entry(k as int, value@.len() as int, j).0
                    && parts@[j].1 == partition_entry(k as int, value@.len() as int, j).1,
            i <= parts@.len(),
            out@.len() == i,
            forall|j: int|
                0 <= j < i ==> (#[trigger] out@[j])@ == value@.subrange(
                    partition_entry(k as int, value@.len() as int, j).0,
                    partition_entry(k as int, value@.len() as int, j).0 + partition_entry(
                        k as int,
                        value@.len() as int,
                        j,
                    ).1,
                ),
        decreases parts@.len() - i,
    {
        let (start, length) = parts[i];
        proof {
            lemma_partition_entry_in_range(k as int, value@.len() as int, i as int);
            assert(start as int + length as int <= characters@.len());
            assert(characters@.len() == characters.len());
        }
        let end = start + length;
        out.push(string_from_chars(&characters, start, end));
        i = i + 1;
    }
    proof {
        assert forall|i: int| 0 <= i <= k implies (#[trigger] out@[i])@.len() == partition_entry(
            k as int,
            value@.len() as int,
            i,
        ).1 by {
            lemma_partition_entry_in_range(k as int, value@.len() as int, i);
        }
    }
    out
}

/// The total length of the first `n` strings of `segs`.
pub open spec fn total_length(segs: Seq<Seq<char>>, n: int) -> int
    decreases n,
{
    if n <= 0 {
        0
    } else {
        total_length(segs, n - 1) + segs[n - 1].len()
    }
}

/// Segment `index` of `value` starts at the total length of the segments
/// before it, as `segments` cuts them.
pub proof fn lemma_segment_pos_sums(k: int, value: Seq<char>, segs: Seq<Seq<char>>, index: int)
    requires
        0 <= k,
        0 <= index <= k,
        segs.len() == k + 1,
        forall|i: int| 0 <= i <= k ==> (#[trigger] segs[i]).len() == partition_entry(k, value.len() as int, i).1,
    ensures
        partition_entry(k, value.len() as int, index).0 == total_length(segs, index),
{
    lemma_segment_start(k, value.len() as int, index);
    lemma_lengths_sum(k, value.len() as int, segs, index);
}

/// The lengths of the first `n` segments add up alike in both forms.
proof fn lemma_lengths_sum(k: int, length: int, segs: Seq<Seq<char>>, n: int)
    requires
        0 <= n <= k + 1,
        segs.len() == k + 1,
        forall|i: int| 0 <= i <= k ==> (#[trigger] segs[i]).len() == partition_entry(k, length, i).1,
    ensures
        lengths_before(k, length, n) == total_length(segs, n),
    decreases n,
{
    if n > 0 {
        lemma_lengths_sum(k, length, segs, n - 1);
        assert(segs[n - 1].len() == partition_entry(k, length, n - 1).1);
    }
}

/// Every segment lies within the string.
proof fn lemma_partition_entry_in_range(k: int, length: int, i: int)
    requires
        k >= 0,
        length >= 0,
        0 <= i <= k,
    ensures
        0 <= partition_entry(k, length, i).0,
        0 <= partition_entry(k, length, i).1,
        partition_entry(k, length, i).0 + partition_entry(k, length, i).1 <= length,
{
    let segs = k + 1;
    lemma_partition_bounds(segs, length);
    let small = length / segs;
    let large = small + 1;
    let lc = length - small * segs;
    let sc = segs - lc;
    assert(small >= 0) by (nonlinear_arith)
        requires
            segs >= 1,
            length >= 0,
            small == length / segs,
    ;
    if i < sc {
        assert(i * small + small <= sc * small) by (nonlinear_arith)
            requires
                i < sc,
                small >= 0,
        ;
        assert(0 <= i * small) by (nonlinear_arith)
            requires
                i >= 0,
                small >= 0,
        ;
    } else {
        assert((i - sc) * large + large <= lc * large) by (nonlinear_arith)
            requires
                i - sc < lc,
                large >= 0,
                i >= sc,
        ;
        assert(0 <= (i - sc) * large && 0 <= sc * small) by (nonlinear_arith)
            requires
                i >= sc,
                large >= 0,
                sc >= 0,
                small >= 0,
        ;
    }
}

/// The start of the `index`-th segment of `value`.
pub fn segment_pos(k: usize, index: usize, value: &str) -> (r: usize)
    requires
        k < usize::MAX,
        (value@.len() as int) / (k as int + 1) < usize::MAX,
        index <= k,
    ensures
        r == partition_entry(k as int, value@.len() as int, index as int).0,
{
    let characters = chars_of(value);
    let parts = partition(k, characters.len());
    parts[index].0
}

/// The window of positions where a segment may match, with multi-match
/// awareness: from the larger of `position - index`,
/// `position + delta - (k - index)` and 0, to the smaller of
/// `position + index`, `position + delta + (k - index)` and
/// `string_length - segment_length`.
pub fn multi_match_aware_interval(
    k: isize,
    delta: isize,
    index: isize,
    string_length: isize,
    position: isize,
    segment_length: isize,
) -> (r: (isize, isize))
    requires
        isize::MIN <= position - index <= isize::MAX,
        isize::MIN <= k - index <= isize::MAX,
        isize::MIN <= position + delta <= isize::MAX,
        isize::MIN <= position + delta - (k - index) <= isize::MAX,
        isize::MIN <= position + index <= isize::MAX,
        isize::MIN <= position + delta + (k - index) <= isize::MAX,
        isize::MIN <= string_length - segment_length <= isize::MAX,
    ensures
        r.0 == max3(position - index, position + delta - (k - index), 0),
        r.1 == min3(position + index, position + delta + (k - index), string_length - segment_length),
{
    let a = position - index;
    let b = position + delta - (k - index);
    let start = if a > b { a } else { b };
    let start = if start > 0 { start } else { 0 };
    let c = position + index;
    let d = position + delta + (k - index);
    let e = string_length - segment_length;
    let end = if c < d { c } else { d };
    let end = if end < e { end } else { e };
    (start, end)
}

/// The largest of three integers.
pub open spec fn max3(a: int, b: int, c: int) -> int {
    let m = if a > b { a } else { b };
    if m > c { m } else { c }
}

/// The smallest of three integers.
pub open spec fn min3(a: int, b: int, c: int) -> int {
    let m = if a < b { a } else { b };
    if m < c { m } else { c }
}

/// `s` with every element equal to its predecessor removed.
pub open spec fn dedup_adjacent(s: Seq<Seq<char>>) -> Seq<Seq<char>>
    decreases s.len(),
{
    if s.len() == 0 {
        seq![]
    } else if s.len() >= 2 && s[s.len() - 2] == s.last() {
        dedup_adjacent(s.drop_last())
    } else {
        dedup_adjacent(s.drop_last()).push(s.last())
    }
}

/// The substrings of `value` of `segment_length` characters starting at
/// every position of the multi-match-aware window, repeats of the previous
/// one dropped.
pub fn multi_match_aware_substrings(
    k: isize,
    value: &str,
    target_length: isize,
    index: isize,
    position: isize,
    segment_length: isize,
) -> (r: Vec<String>)
    requires
        value@.len() <= isize::MAX,
        isize::MIN <= value@.len() - target_length <= isize::MAX,
        isize::MIN <= position - index <= isize::MAX,
        isize::MIN <= k - index <= isize::MAX,
        isize::MIN <= position + (value@.len() - target_length) <= isize::MAX,
        isize::MIN <= position + (value@.len() - target_length) - (k - index) <= isize::MAX,
        isize::MIN <= position + index <= isize::MAX,
        isize::MIN <= position + (value@.len() - target_length) + (k - index) <= isize::MAX,
        isize::MIN <= value@.len() - segment_length <= isize::MAX,
        segment_length >= 0 || max3(
            position - index,
            position + (value@.len() - target_length) - (k - index),
            0,
        ) > min3(position + index, position + (value@.len() - target_length) + (k - index), value@.len() - segment_length),
    ensures
        ({
            let lo = max3(position - index, position + (value@.len() - target_length) - (k - index), 0);
            let hi = min3(
                position + index,
                position + (value@.len() - target_length) + (k - index),
                value@.len() - segment_length,
            );
            r@.map_values(|s: String| s@) == dedup_adjacent(window_pieces(value@, lo, hi, segment_length as int))
        }),
{
    let characters = chars_of(value);
    let n = characters.len() as isize;
    let (start, end) = multi_match_aware_interval(k, n - target_length, index, n, position, segment_length);
    let ghost lo = start as int;
    let ghost hi = end as int;
    let ghost all = window_pieces(value@, lo, hi, segment_length as int);
    let mut result: Vec<String> = Vec::new();
    if start > end {
        proof {
            assert(all =~= Seq::<Seq<char>>::empty());
            assert(result@.map_values(|s: String| s@) =~= dedup_adjacent(all));
        }
        return result;
    }
    let seg = segment_length as usize;
    let last = end as usize;
    let mut previous: Vec<char> = Vec::new();
    let mut has_previous = false;
    let mut offset = start as usize;
    proof {
        assert(all.take(0) =~= Seq::<Seq<char>>::empty());
        assert(result@.map_values(|s: String| s@) =~= dedup_adjacent(all.take(0)));
    }
    while offset <= last
        invariant
            characters@ == value@,
            characters@.len() <= isize::MAX,
            lo == start,
            hi == end,
            last == hi,
            seg == segment_length,
            lo <= hi,
            0 <= lo,
            hi + seg <= characters@.len(),
            all == window_pieces(value@, lo, hi, seg as int),
            lo <= offset <= hi + 1,
            has_previous <==> offset > lo,
            has_previous ==> previous@ == all[offset - lo - 1],
            result@.map_values(|s: String| s@) == dedup_adjacent(all.take(offset - lo)),
        decreases hi + 1 - offset,
    {
        let piece = string_from_chars(&characters, offset, offset + seg);
        let piece_chars = chars_of(piece.as_str());
        let same = has_previous && chars_eq(&previous, &piece_chars);
        proof {
            let t = offset - lo;
            assert(all.len() == hi - lo + 1);
            assert(all[t] == value@.subrange(offset as int, offset + seg));
            assert(all.take(t + 1).drop_last() =~= all.take(t));
            assert(all.take(t + 1).last() == all[t]);
            if t >= 1 {
                assert(all.take(t + 1)[t - 1] == all[t - 1]);
            }
        }
        if !same {
            result.push(piece);
            proof {
                assert(result@.map_values(|s: String| s@) =~= dedup_adjacent(all.take(offset - lo)).push(
                    all[offset - lo],
                ));
            }
        }
        previous = piece_chars;
        has_previous = true;
        offset = offset + 1;
    }
    proof {
        assert(all.take(hi + 1 - lo) =~= all);
    }
    result
}

/// The pieces of `len` characters of `v` starting at `lo..=hi`.
pub open spec fn window_pieces(v: Seq<char>, lo: int, hi: int, len: int) -> Seq<Seq<char>> {
    Seq::new(if hi >= lo { (hi - lo + 1) as nat } else { 0 }, |t: int| v.subrange(lo + t, lo + t + len))
}


/// Longer strings first, then in lexicographic order.
pub fn comparator(left: &str, right: &str) -> (r: Ordering)
    ensures
        (r == Ordering::Less) == (left@.len() > right@.len() || (left@.len() == right@.len() && seq_less(
            left@,
            right@,
        ))),
        (r == Ordering::Equal) == (left@ == right@),
        (r == Ordering::Greater) == (left@.len() < right@.len() || (left@.len() == right@.len() && seq_less(
            right@,
            left@,
        ))),
{
    let l = chars_of(left);
    let r = chars_of(right);
    proof {
        lemma_seq_less_total(left@, right@);
    }
    if r.len() < l.len() {
        Ordering::Less
    } else if r.len() > l.len() {
        Ordering::Greater
    } else if chars_less(&l, &r) {
        Ordering::Less
    } else if chars_less(&r, &l) {
        Ordering::Greater
    } else {
        Ordering::Equal
    }
}

/// Records under string keys, in insertion order, searchable by edit
/// distance.
#[derive(Debug)]
pub struct PassjoinIndex<V> {
    keys: IndexSet<String>,
    values: Vec<V>,
}

impl<V> PassjoinIndex<V> {
    /// The keys, in insertion order.
    pub closed spec fn keys_seq(&self) -> Seq<Seq<char>> {
        key_order(self.keys)
    }

    /// The values, in the order of their keys.
    pub closed spec fn values_seq(&self) -> Seq<V> {
        self.values@
    }

    /// One value per distinct key.
    pub closed spec fn wf(&self) -> bool {
        &&& key_order(self.keys).len() == self.values@.len()
        &&& key_order(self.keys).no_duplicates()
    }

    /// An empty map.
    pub fn new() -> (r: Self)
        ensures
            r.wf(),
            r.keys_seq() == Seq::<Seq<char>>::empty(),
            r.values_seq() == Seq::<V>::empty(),
    {
        PassjoinIndex { keys: keys_new(), values: Vec::new() }
    }

    /// The number of keys.
    pub fn size(&self) -> (r: usize)
        ensures
            r == self.keys_seq().len(),
    {
        keys_len(&self.keys)
    }

    /// Stores `value` under `key`: in place for a key, or as a new last key.
    pub fn add(&mut self, key: String, value: V)
        requires
            old(self).wf(),
        ensures
            final(self).wf(),
            old(self).keys_seq().contains(key@) ==> final(self).keys_seq() == old(self).keys_seq()
                && final(self).values_seq() == old(self).values_seq().update(key_index(old(self).keys_seq(), key@), value),
            !old(self).keys_seq().contains(key@) ==> final(self).keys_seq() == old(self).keys_seq().push(key@)
                && final(self).values_seq() == old(self).values_seq().push(value),
    {
        let ghost k = key@;
        let (i, added) = keys_insert_full(&mut self.keys, key);
        if added {
            self.values.push(value);
            proof {
                lemma_push_distinct(old(self).keys_seq(), k);
            }
        } else {
            proof {
                lemma_key_index(old(self).keys_seq(), i as int);
            }
            self.values.set(i, value);
        }
    }

    /// Removes every record.
    pub fn clear(&mut self)
        ensures
            final(self).wf(),
            final(self).keys_seq() == Seq::<Seq<char>>::empty(),
            final(self).values_seq() == Seq::<V>::empty(),
    {
        keys_clear(&mut self.keys);
        self.values.clear();
    }

    /// The keys within edit distance `radius` of `query`, with their values
    /// and distances, nearest first and, at equal distance, in lexicographic
    /// order of the keys.
    pub fn search(&self, query: &str, radius: usize) -> (r: Vec<(&String, &V, usize)>)
        requires
            self.wf(),
        ensures
            forall|j: int|
                0 <= j < r@.len() ==> self.keys_seq().contains((#[trigger] r@[j]).0@) && *r@[j].1
                    == self.values_seq()[key_index(self.keys_seq(), r@[j].0@)] && r@[j].2 == edit_distance(
                    r@[j].0@,
                    query@,
                ) && r@[j].2 <= radius,
            forall|i: int, j: int|
                0 <= i < j < r@.len() ==> r@[i].2 < r@[j].2 || (r@[i].2 == r@[j].2 && seq_less(r@[i].0@, r@[j].0@)),
            forall|k: Seq<char>|
                self.keys_seq().contains(k) && edit_distance(k, query@) <= radius ==> exists|j: int|
                    0 <= j < r@.len() && (#[trigger] r@[j]).0@ == k,
    {
        let kc = key_chars(&self.keys);
        let found = find_matches(&kc, query, radius);
        proof {
            assert forall|i: int| 0 <= i < found@.len() implies kc@[(#[trigger] found@[i]).0 as int]@ == self.keys_seq()[found@[i].0 as int] by {
            }
        }
        let ghost f = found@;
        let sorted = sort_matches(&kc, found);
        let mut out: Vec<(&String, &V, usize)> = Vec::new();
        let mut j: usize = 0;
        while j < sorted.len()
            invariant
                self.wf(),
                kc@.map_values(|v: Vec<char>| v@) == self.keys_seq(),
                forall|i: int| 0 <= i < sorted@.len() ==> (#[trigger] sorted@[i]).0 < kc@.len(),
                j <= sorted@.len(),
                out@.len() == j,
                forall|i: int| 0 <= i < j ==> (#[trigger] out@[i]).0@ == self.keys_seq()[sorted@[i].0 as int]
                    && *out@[i].1 == self.values_seq()[sorted@[i].0 as int] && out@[i].2 == sorted@[i].1,
            decreases sorted@.len() - j,
        {
            let (p, d) = sorted[j];
            match keys_get_index(&self.keys, p) {
                Some(key) => {
                    out.push((key, &self.values[p], d));
                },
                None => {},
            }
            j = j + 1;
        }
        proof {
            lemma_same_matches(f, sorted@);
            assert forall|j: int|
                0 <= j < out@.len() implies self.keys_seq().contains((#[trigger] out@[j]).0@) && *out@[j].1
                == self.values_seq()[key_index(self.keys_seq(), out@[j].0@)] && out@[j].2 == edit_distance(
                out@[j].0@,
                query@,
            ) && out@[j].2 <= radius by {
                lemma_key_index(self.keys_seq(), sorted@[j].0 as int);
                let t = choose|t: int| 0 <= t < f.len() && f[t] == sorted@[j];
                assert(kc@[f[t].0 as int]@ == self.keys_seq()[f[t].0 as int]);
            }
            assert forall|k: Seq<char>|
                self.keys_seq().contains(k) && edit_distance(k, query@) <= radius implies exists|j: int|
                0 <= j < out@.len() && (#[trigger] out@[j]).0@ == k by {
                let p = key_index(self.keys_seq(), k);
                lemma_key_index(self.keys_seq(), p);
                assert(kc@[p]@ == k);
                let t = choose|t: int| 0 <= t < f.len() && (#[trigger] f[t]).0 == p;
                assert(sorted@.contains(f[t]));
                let j = choose|j: int| 0 <= j < sorted@.len() && sorted@[j] == f[t];
                assert(out@[j].0@ == k);
            }
        }
        out
    }
}

} // verus!
