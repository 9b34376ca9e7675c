//! A map from string keys to lists of values, searchable by edit distance.
use vstd::prelude::*;
use indexmap::IndexSet;
use crate::default_map::{key_index, lemma_key_index, lemma_push_distinct};
use crate::fuzzy_map::{find_matches, key_chars, lemma_same_matches, sort_matches};
use crate::multi_array::{lemma_flatten_len_update, lemma_flatten_take_succ};
use crate::ordered_keys::{key_order, keys_get_index, keys_index_of, keys_insert_full, keys_len, keys_new};
use crate::text::{edit_distance, seq_less};

verus! {

/// A map from string keys, in insertion order, to the values given to
/// them, searchable by edit distance.
#[derive(Debug)]
pub struct FuzzyMultiMap<V> {
    keys: IndexSet<String>,
    values: Vec<Vec<V>>,
}

impl<V> FuzzyMultiMap<V> {
    /// The keys, in insertion order.
    pub closed spec fn keys_seq(&self) -> Seq<Seq<char>> {
        key_order(self.keys)
    }

    /// The values of each key, in the order of the keys.
    pub closed spec fn values_seq(&self) -> Seq<Seq<V>> {
        self.values@.map_values(|c: Vec<V>| c@)
    }

    /// One list per distinct key, and a count of all values that fits.
    pub closed spec fn wf(&self) -> bool {
        &&& key_order(self.keys).len() == self.values@.len()
        &&& key_order(self.keys).no_duplicates()
        &&& self.values_seq().flatten().len() <= usize::MAX
    }

    /// An empty map.
    pub fn new() -> (r: Self)
        ensures
            r.wf(),
            r.keys_seq() == Seq::<Seq<char>>::empty(),
            r.values_seq() == Seq::<Seq<V>>::empty(),
    {
        let r = FuzzyMultiMap { keys: keys_new(), values: Vec::new() };
        proof {
            assert(r.values_seq() =~= Seq::<Seq<V>>::empty());
        }
        r
    }

    /// The number of values over all keys.
    pub fn size(&self) -> (r: usize)
        requires
            self.wf(),
        ensures
            r == self.values_seq().flatten().len(),
    {
        let ghost s = self.values_seq();
        let mut total: usize = 0;
        let mut i: usize = 0;
        while i < self.values.len()
            invariant
                s == self.values_seq(),
                s.len() == self.values@.len(),
                s.flatten().len() <= usize::MAX,
                i <= s.len(),
                total == s.take(i as int).flatten().len(),
            decreases s.len() - i,
        {
            proof {
                lemma_flatten_take_succ(s, i as int);
                vstd::seq_lib::lemma_flatten_concat(s.take(i + 1), s.skip(i + 1));
                assert(s =~= s.take(i + 1) + s.skip(i + 1));
            }
            total = total + self.values[i].len();
            i = i + 1;
        }
        proof {
            assert(s.take(s.len() as int) =~= s);
        }
        total
    }

    /// The number of keys.
    pub fn dimension(&self) -> (r: usize)
        ensures
            r == self.keys_seq().len(),
    {
        keys_len(&self.keys)
    }

    /// Adds `value` to the values of `key`, which comes last when new.
    pub fn set(&mut self, key: String, value: V)
        requires
            old(self).wf(),
            old(self).values_seq().flatten().len() < usize::MAX,
        ensures
            final(self).wf(),
            old(self).keys_seq().contains(key@) ==> final(self).keys_seq() == old(self).keys_seq()
                && final(self).values_seq() == old(self).values_seq().update(
                key_index(old(self).keys_seq(), key@),
                old(self).values_seq()[key_index(old(self).keys_seq(), key@)].push(value),
            ),
            !old(self).keys_seq().contains(key@) ==> final(self).keys_seq() == old(self).keys_seq().push(key@)
                && final(self).values_seq() == old(self).values_seq().push(seq![value]),
    {
        let ghost k = key@;
        let ghost vs0 = self.values_seq();
        let (i, added) = keys_insert_full(&mut self.keys, key);
        if added {
            let mut c: Vec<V> = Vec::new();
            c.push(value);
            self.values.push(c);
            proof {
                lemma_push_distinct(old(self).keys_seq(), k);
                assert(self.values_seq() =~= vs0.push(seq![value]));
                vs0.lemma_flatten_push(seq![value]);
            }
        } else {
            proof {
                lemma_key_index(old(self).keys_seq(), i as int);
            }
            let ghost inner0 = self.values@[i as int]@;
            self.values[i].push(value);
            proof {
                assert(self.values@[i as int]@ == inner0.push(value));
                assert(self.values_seq() =~= vs0.update(i as int, vs0[i as int].push(value)));
                lemma_flatten_len_update(vs0, i as int, vs0[i as int].push(value));
            }
        }
    }

    /// The values of `key`, if it is a key.
    pub fn get(&self, key: &str) -> (r: Option<&[V]>)
        requires
            self.wf(),
        ensures
            !self.keys_seq().contains(key@) ==> r is None,
            self.keys_seq().contains(key@) ==> (r matches Some(c) && c@ == self.values_seq()[key_index(
                self.keys_seq(),
                key@,
            )]),
    {
        match keys_index_of(&self.keys, key) {
            Some(i) => {
                proof {
                    lemma_key_index(self.keys_seq(), i as int);
                }
                Some(self.values[i].as_slice())
            },
            None => None,
        }
    }

    /// The keys within edit distance `radius` of `query`, with their values
    /// and distances, nearest first and, at equal distance, in lexicographic
    /// order of the keys.
    pub fn search(&self, query: &str, radius: usize) -> (r: Vec<(&String, &[V], usize)>)
        requires
            self.wf(),
        ensures
            forall|j: int|
                0 <= j < r@.len() ==> self.keys_seq().contains((#[trigger] r@[j]).0@) && r@[j].1@
                    == self.values_seq()[key_index(self.keys_seq(), r@[j].0@)] && r@[j].2 == edit_distance(
                    r@[j].0@,
                    query@,
                ) && r@[j].2 <= radius,
            forall|i: int, j: int|
                0 <= i < j < r@.len() ==> r@[i].2 < r@[j].2 || (r@[i].2 == r@[j].2 && seq_less(r@[i].0@, r@[j].0@)),
            forall|k: Seq<char>|
                self.keys_seq().contains(k) && edit_distance(k, query@) <= radius ==> exists|j: int|
                    0 <= j < r@.len() && (#[trigger] r@[j]).0@ == k,
    {
        let kc = key_chars(&self.keys);
        let found = find_matches(&kc, query, radius);
        let ghost f = found@;
        let sorted = sort_matches(&kc, found);
        let mut out: Vec<(&String, &[V], usize)> = Vec::new();
        let mut j: usize = 0;
        while j < sorted.len()
            invariant
                self.wf(),
                kc@.map_values(|v: Vec<char>| v@) == self.keys_seq(),
                forall|i: int| 0 <= i < sorted@.len() ==> (#[trigger] sorted@[i]).0 < kc@.len(),
                j <= sorted@.len(),
                out@.len() == j,
                forall|i: int| 0 <= i < j ==> (#[trigger] out@[i]).0@ == self.keys_seq()[sorted@[i].0 as int]
                    && out@[i].1@ == self.values_seq()[sorted@[i].0 as int] && out@[i].2 == sorted@[i].1,
            decreases sorted@.len() - j,
        {
            let (p, d) = sorted[j];
            match keys_get_index(&self.keys, p) {
                Some(key) => {
                    out.push((key, self.values[p].as_slice(), d));
                },
                None => {},
            }
            j = j + 1;
        }
        proof {
            lemma_same_matches(f, sorted@);
            assert forall|j: int|
                0 <= j < out@.len() implies self.keys_seq().contains((#[trigger] out@[j]).0@) && out@[j].1@
                == self.values_seq()[key_index(self.keys_seq(), out@[j].0@)] && out@[j].2 == edit_distance(
                out@[j].0@,
                query@,
            ) && out@[j].2 <= radius by {
                lemma_key_index(self.keys_seq(), sorted@[j].0 as int);
                let t = choose|t: int| 0 <= t < f.len() && f[t] == sorted@[j];
                assert(kc@[f[t].0 as int]@ == self.keys_seq()[f[t].0 as int]);
            }
            assert forall|k: Seq<char>|
                self.keys_seq().contains(k) && edit_distance(k, query@) <= radius implies exists|j: int|
                0 <= j < out@.len() && (#[trigger] out@[j]).0@ == k by {
                let p = key_index(self.keys_seq(), k);
                lemma_key_index(self.keys_seq(), p);
                assert(kc@[p]@ == k);
                let t = choose|t: int| 0 <= t < f.len() && (#[trigger] f[t]).0 == p;
                assert(sorted@.contains(f[t]));
                let j = choose|j: int| 0 <= j < sorted@.len() && sorted@[j] == f[t];
                assert(out@[j].0@ == k);
            }
        }
        out
    }
}

} // verus!
