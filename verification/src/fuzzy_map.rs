//! A map from string keys to values, searchable by edit distance.
use vstd::prelude::*;
use indexmap::IndexSet;
use crate::default_map::{key_index, lemma_key_index, lemma_push_distinct};
use crate::ordered_keys::{key_order, keys_get_index, keys_index_of, keys_insert_full, keys_len, keys_new};
use crate::text::{
    chars_less, chars_of, edit_distance, lemma_seq_less_total, lemma_seq_less_transitive, levenshtein_chars, seq_less,
};

verus! {

broadcast use vstd::multiset::group_multiset_axioms;

/// Match `a` (a key position and its distance) ranks before `b`: nearer,
/// or as near with a key first in lexicographic order.
pub open spec fn ranked_before(ks: Seq<Seq<char>>, a: (usize, usize), b: (usize, usize)) -> bool {
    a.1 < b.1 || (a.1 == b.1 && seq_less(ks[a.0 as int], ks[b.0 as int]))
}

/// Matches on different keys are ranked one way or the other, never both.
proof fn lemma_ranked_total(ks: Seq<Seq<char>>, a: (usize, usize), b: (usize, usize))
    requires
        ks.no_duplicates(),
        a.0 < ks.len(),
        b.0 < ks.len(),
        a.0 != b.0,
    ensures
        ranked_before(ks, a, b) || ranked_before(ks, b, a),
        !(ranked_before(ks, a, b) && ranked_before(ks, b, a)),
{
    lemma_seq_less_total(ks[a.0 as int], ks[b.0 as int]);
    lemma_seq_less_total(ks[b.0 as int], ks[a.0 as int]);
}

/// The ranking is transitive.
proof fn lemma_ranked_transitive(ks: Seq<Seq<char>>, a: (usize, usize), b: (usize, usize), c: (usize, usize))
    requires
        ranked_before(ks, a, b),
        ranked_before(ks, b, c),
    ensures
        ranked_before(ks, a, c),
{
    if a.1 == b.1 && b.1 == c.1 {
        lemma_seq_less_transitive(ks[a.0 as int], ks[b.0 as int], ks[c.0 as int]);
    }
}

/// Sorts matches on distinct keys by rank.
pub(crate) fn sort_matches(kc: &Vec<Vec<char>>, items: Vec<(usize, usize)>) -> (r: Vec<(usize, usize)>)
    requires
        kc@.map_values(|v: Vec<char>| v@).no_duplicates(),
        forall|i: int| 0 <= i < items@.len() ==> (#[trigger] items@[i]).0 < kc@.len(),
        forall|i: int, j: int| 0 <= i < j < items@.len() ==> items@[i].0 != items@[j].0,
    ensures
        r@.to_multiset() == items@.to_multiset(),
        r@.len() == items@.len(),
        forall|i: int| 0 <= i < r@.len() ==> (#[trigger] r@[i]).0 < kc@.len(),
        forall|i: int, j: int|
            0 <= i < j < r@.len() ==> ranked_before(kc@.map_values(|v: Vec<char>| v@), r@[i], r@[j]),
{
    broadcast use vstd::seq_lib::group_to_multiset_ensures;

    let ghost ks = kc@.map_values(|v: Vec<char>| v@);
    let mut out: Vec<(usize, usize)> = Vec::new();
    let mut k: usize = 0;
    proof {
        assert(items@.take(0) =~= Seq::<(usize, usize)>::empty());
    }
    while k < items.len()
        invariant
            ks == kc@.map_values(|v: Vec<char>| v@),
            ks.no_duplicates(),
            forall|i: int| 0 <= i < items@.len() ==> (#[trigger] items@[i]).0 < kc@.len(),
            forall|i: int, j: int| 0 <= i < j < items@.len() ==> items@[i].0 != items@[j].0,
            k <= items@.len(),
            out@.to_multiset() == items@.take(k as int).to_multiset(),
            out@.len() == k,
            forall|i: int| 0 <= i < out@.len() ==> (#[trigger] out@[i]).0 < kc@.len(),
            forall|i: int| 0 <= i < out@.len() ==> items@.take(k as int).contains(#[trigger] out@[i]),
            forall|i: int, j: int| 0 <= i < j < out@.len() ==> ranked_before(ks, out@[i], out@[j]),
        decreases items@.len() - k,
    {
        let x = items[k];
        let n = out.len();
        let mut pos: usize = 0;
        while pos < n && !(out[pos].1 > x.1 || (out[pos].1 == x.1 && chars_less(&kc[x.0], &kc[out[pos].0])))
            invariant
                ks == kc@.map_values(|v: Vec<char>| v@),
                n == out@.len(),
                pos <= n,
                x.0 < kc@.len(),
                forall|i: int| 0 <= i < out@.len() ==> (#[trigger] out@[i]).0 < kc@.len(),
                forall|i: int| 0 <= i < pos ==> !ranked_before(ks, x, #[trigger] out@[i]),
            decreases n - pos,
        {
            proof {
                assert(kc@[x.0 as int]@ == ks[x.0 as int]);
                assert(kc@[out@[pos as int].0 as int]@ == ks[out@[pos as int].0 as int]);
            }
            pos = pos + 1;
        }
        proof {
            if pos < n {
                assert(kc@[x.0 as int]@ == ks[x.0 as int]);
                assert(kc@[out@[pos as int].0 as int]@ == ks[out@[pos as int].0 as int]);
                assert(ranked_before(ks, x, out@[pos as int]));
            }
        }
        let ghost o0 = out@;
        out.insert(pos, x);
        proof {
            vstd::seq_lib::to_multiset_insert(o0, pos as int, x);
            assert(items@.take(k + 1) =~= items@.take(k as int).push(x));
            vstd::seq_lib::to_multiset_build(items@.take(k as int), x);
            assert forall|i: int| 0 <= i < out@.len() implies items@.take(k + 1).contains(#[trigger] out@[i]) by {
                if i < pos {
                    assert(out@[i] == o0[i]);
                    assert(items@.take(k as int).contains(o0[i]));
                    let t = choose|t: int| 0 <= t < k && items@.take(k as int)[t] == o0[i];
                    assert(items@.take(k + 1)[t] == o0[i]);
                } else if i > pos {
                    assert(out@[i] == o0[i - 1]);
                    assert(items@.take(k as int).contains(o0[i - 1]));
                    let t = choose|t: int| 0 <= t < k && items@.take(k as int)[t] == o0[i - 1];
                    assert(items@.take(k + 1)[t] == o0[i - 1]);
                } else {
                    assert(items@.take(k + 1)[k as int] == x);
                }
            }
            assert forall|i: int| 0 <= i < o0.len() implies (#[trigger] o0[i]).0 != x.0 by {
                assert(items@.take(k as int).contains(o0[i]));
                let t = choose|t: int| 0 <= t < k && items@.take(k as int)[t] == o0[i];
                assert(items@[t] == o0[i]);
            }
            assert forall|i: int, j: int| 0 <= i < j < out@.len() implies ranked_before(ks, out@[i], out@[j]) by {
                if j < pos {
                    assert(out@[i] == o0[i] && out@[j] == o0[j]);
                } else if j == pos {
                    assert(out@[i] == o0[i]);
                    lemma_ranked_total(ks, x, o0[i]);
                } else if i > pos {
                    assert(out@[i] == o0[i - 1] && out@[j] == o0[j - 1]);
                } else if i == pos {
                    assert(out@[j] == o0[j - 1]);
                    if j - 1 > pos {
                        lemma_ranked_transitive(ks, x, o0[pos as int], o0[j - 1]);
                    }
                } else {
                    assert(out@[i] == o0[i]);
                    assert(out@[j] == o0[j - 1]);
                    if j - 1 != i {
                    }
                }
            }
        }
        k = k + 1;
    }
    proof {
        assert(items@.take(items@.len() as int) =~= items@);
    }
    out
}

/// A map from string keys, in insertion order, to values, searchable by
/// edit distance.
#[derive(Debug)]
pub struct FuzzyMap<V> {
    keys: IndexSet<String>,
    values: Vec<V>,
}

impl<V> FuzzyMap<V> {
    /// The keys, in insertion order.
    pub closed spec fn keys_seq(&self) -> Seq<Seq<char>> {
        key_order(self.keys)
    }

    /// The values, in the order of their keys.
    pub closed spec fn values_seq(&self) -> Seq<V> {
        self.values@
    }

    /// One value per distinct key.
    pub closed spec fn wf(&self) -> bool {
        &&& key_order(self.keys).len() == self.values@.len()
        &&& key_order(self.keys).no_duplicates()
    }

    /// An empty map.
    pub fn new() -> (r: Self)
        ensures
            r.wf(),
            r.keys_seq() == Seq::<Seq<char>>::empty(),
            r.values_seq() == Seq::<V>::empty(),
    {
        FuzzyMap { keys: keys_new(), values: Vec::new() }
    }

    /// The number of keys.
    pub fn size(&self) -> (r: usize)
        ensures
            r == self.keys_seq().len(),
    {
        keys_len(&self.keys)
    }

    /// Maps `key` to `value`: in place for a key, or as a new last key.
    pub fn set(&mut self, key: String, value: V)
        requires
            old(self).wf(),
        ensures
            final(self).wf(),
            old(self).keys_seq().contains(key@) ==> final(self).keys_seq() == old(self).keys_seq()
                && final(self).values_seq() == old(self).values_seq().update(key_index(old(self).keys_seq(), key@), value),
            !old(self).keys_seq().contains(key@) ==> final(self).keys_seq() == old(self).keys_seq().push(key@)
                && final(self).values_seq() == old(self).values_seq().push(value),
    {
        let ghost k = key@;
        let (i, added) = keys_insert_full(&mut self.keys, key);
        if added {
            self.values.push(value);
            proof {
                lemma_push_distinct(old(self).keys_seq(), k);
            }
        } else {
            proof {
                lemma_key_index(old(self).keys_seq(), i as int);
            }
            self.values.set(i, value);
        }
    }

    /// The value of `key`, if it is a key.
    pub fn get(&self, key: &str) -> (r: Option<&V>)
        requires
            self.wf(),
        ensures
            !self.keys_seq().contains(key@) ==> r is None,
            self.keys_seq().contains(key@) ==> r == Some(&self.values_seq()[key_index(self.keys_seq(), key@)]),
    {
        match keys_index_of(&self.keys, key) {
            Some(i) => {
                proof {
                    lemma_key_index(self.keys_seq(), i as int);
                }
                Some(&self.values[i])
            },
            None => None,
        }
    }

    /// The keys within edit distance `radius` of `query`, with their values
    /// and distances, nearest first and, at equal distance, in lexicographic
    /// order of the keys.
    pub fn search(&self, query: &str, radius: usize) -> (r: Vec<(&String, &V, usize)>)
        requires
            self.wf(),
        ensures
            forall|j: int|
                0 <= j < r@.len() ==> self.keys_seq().contains((#[trigger] r@[j]).0@) && *r@[j].1
                    == self.values_seq()[key_index(self.keys_seq(), r@[j].0@)] && r@[j].2 == edit_distance(
                    r@[j].0@,
                    query@,
                ) && r@[j].2 <= radius,
            forall|i: int, j: int|
                0 <= i < j < r@.len() ==> r@[i].2 < r@[j].2 || (r@[i].2 == r@[j].2 && seq_less(r@[i].0@, r@[j].0@)),
            forall|k: Seq<char>|
                self.keys_seq().contains(k) && edit_distance(k, query@) <= radius ==> exists|j: int|
                    0 <= j < r@.len() && (#[trigger] r@[j]).0@ == k,
    {
        let kc = key_chars(&self.keys);
        let found = find_matches(&kc, query, radius);
        proof {
            assert forall|i: int| 0 <= i < found@.len() implies kc@[(#[trigger] found@[i]).0 as int]@ == self.keys_seq()[found@[i].0 as int] by {
            }
        }
        let ghost f = found@;
        let sorted = sort_matches(&kc, found);
        let mut out: Vec<(&String, &V, usize)> = Vec::new();
        let mut j: usize = 0;
        while j < sorted.len()
            invariant
                self.wf(),
                kc@.map_values(|v: Vec<char>| v@) == self.keys_seq(),
                forall|i: int| 0 <= i < sorted@.len() ==> (#[trigger] sorted@[i]).0 < kc@.len(),
                j <= sorted@.len(),
                out@.len() == j,
                forall|i: int| 0 <= i < j ==> (#[trigger] out@[i]).0@ == self.keys_seq()[sorted@[i].0 as int]
                    && *out@[i].1 == self.values_seq()[sorted@[i].0 as int] && out@[i].2 == sorted@[i].1,
            decreases sorted@.len() - j,
        {
            let (p, d) = sorted[j];
            match keys_get_index(&self.keys, p) {
                Some(key) => {
                    out.push((key, &self.values[p], d));
                },
                None => {},
            }
            j = j + 1;
        }
        proof {
            lemma_same_matches(f, sorted@);
            assert forall|j: int|
                0 <= j < out@.len() implies self.keys_seq().contains((#[trigger] out@[j]).0@) && *out@[j].1
                == self.values_seq()[key_index(self.keys_seq(), out@[j].0@)] && out@[j].2 == edit_distance(
                out@[j].0@,
                query@,
            ) && out@[j].2 <= radius by {
                lemma_key_index(self.keys_seq(), sorted@[j].0 as int);
                let t = choose|t: int| 0 <= t < f.len() && f[t] == sorted@[j];
                assert(kc@[f[t].0 as int]@ == self.keys_seq()[f[t].0 as int]);
            }
            assert forall|k: Seq<char>|
                self.keys_seq().contains(k) && edit_distance(k, query@) <= radius implies exists|j: int|
                0 <= j < out@.len() && (#[trigger] out@[j]).0@ == k by {
                let p = key_index(self.keys_seq(), k);
                lemma_key_index(self.keys_seq(), p);
                assert(kc@[p]@ == k);
                let t = choose|t: int| 0 <= t < f.len() && (#[trigger] f[t]).0 == p;
                assert(sorted@.contains(f[t]));
                let j = choose|j: int| 0 <= j < sorted@.len() && sorted@[j] == f[t];
                assert(out@[j].0@ == k);
            }
        }
        out
    }
}

/// The characters of every key, in key order.
pub(crate) fn key_chars(keys: &IndexSet<String>) -> (r: Vec<Vec<char>>)
    ensures
        r@.map_values(|v: Vec<char>| v@) == key_order(*keys),
{
    let n = keys_len(keys);
    let mut out: Vec<Vec<char>> = Vec::new();
    let mut i: usize = 0;
    while i < n
        invariant
            n == key_order(*keys).len(),
            i <= n,
            out@.map_values(|v: Vec<char>| v@) == key_order(*keys).take(i as int),
        decreases n - i,
    {
        match keys_get_index(keys, i) {
            Some(key) => {
                let ghost o0 = out@;
                out.push(chars_of(key.as_str()));
                proof {
                    assert(out@.map_values(|v: Vec<char>| v@) =~= o0.map_values(|v: Vec<char>| v@).push(key@));
                }
            },
            None => {},
        }
        i = i + 1;
        proof {
            assert(out@.map_values(|v: Vec<char>| v@) =~= key_order(*keys).take(i as int));
        }
    }
    proof {
        assert(key_order(*keys).take(n as int) =~= key_order(*keys));
    }
    out
}

/// Every key position within `radius` of `query`, with its distance, in
/// key order.
pub(crate) fn find_matches(kc: &Vec<Vec<char>>, query: &str, radius: usize) -> (r: Vec<(usize, usize)>)
    ensures
        forall|j: int|
            0 <= j < r@.len() ==> (#[trigger] r@[j]).0 < kc@.len() && r@[j].1 == edit_distance(
                kc@[r@[j].0 as int]@,
                query@,
            ) && r@[j].1 <= radius,
        forall|i: int, j: int| 0 <= i < j < r@.len() ==> r@[i].0 < r@[j].0,
        forall|p: int|
            0 <= p < kc@.len() && edit_distance(kc@[p]@, query@) <= radius ==> exists|j: int|
                0 <= j < r@.len() && (#[trigger] r@[j]).0 == p,
{
    let qc = chars_of(query);
    let mut out: Vec<(usize, usize)> = Vec::new();
    let mut i: usize = 0;
    while i < kc.len()
        invariant
            qc@ == query@,
            i <= kc@.len(),
            forall|j: int|
                0 <= j < out@.len() ==> (#[trigger] out@[j]).0 < i && out@[j].1 == edit_distance(
                    kc@[out@[j].0 as int]@,
                    query@,
                ) && out@[j].1 <= radius,
            forall|a: int, b: int| 0 <= a < b < out@.len() ==> out@[a].0 < out@[b].0,
            forall|p: int|
                0 <= p < i && edit_distance(kc@[p]@, query@) <= radius ==> exists|j: int|
                    0 <= j < out@.len() && (#[trigger] out@[j]).0 == p,
        decreases kc@.len() - i,
    {
        let d = levenshtein_chars(&kc[i], &qc);
        if d <= radius {
            let ghost o0 = out@;
            out.push((i, d));
            proof {
                assert(out@[o0.len() as int].0 == i);
                assert forall|p: int|
                    0 <= p < i + 1 && edit_distance(kc@[p]@, query@) <= radius implies exists|j: int|
                    0 <= j < out@.len() && (#[trigger] out@[j]).0 == p by {
                    if p < i {
                        let j = choose|j: int| 0 <= j < o0.len() && (#[trigger] o0[j]).0 == p;
                        assert(out@[j] == o0[j]);
                    } else {
                        assert(out@[o0.len() as int].0 == p);
                    }
                }
            }
        }
        i = i + 1;
    }
    out
}

/// Sorting moves no match: each is still there, and none is added.
pub(crate) proof fn lemma_same_matches(found: Seq<(usize, usize)>, sorted: Seq<(usize, usize)>)
    requires
        sorted.to_multiset() == found.to_multiset(),
    ensures
        forall|j: int| 0 <= j < sorted.len() ==> found.contains(#[trigger] sorted[j]),
        forall|j: int| 0 <= j < found.len() ==> sorted.contains(#[trigger] found[j]),
{
    broadcast use vstd::seq_lib::group_to_multiset_ensures;

    assert forall|j: int| 0 <= j < sorted.len() implies found.contains(#[trigger] sorted[j]) by {
        assert(sorted.contains(sorted[j]));
        vstd::seq_lib::to_multiset_contains(sorted, sorted[j]);
        vstd::seq_lib::to_multiset_contains(found, sorted[j]);
    }
    assert forall|j: int| 0 <= j < found.len() implies sorted.contains(#[trigger] found[j]) by {
        assert(found.contains(found[j]));
        vstd::seq_lib::to_multiset_contains(found, found[j]);
        vstd::seq_lib::to_multiset_contains(sorted, found[j]);
    }
}

} // verus!
