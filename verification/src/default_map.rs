//! A map that gives every missing key a copy of a default value when it is
//! read.
use vstd::prelude::*;
use indexmap::IndexSet;
use crate::ordered_keys::{
    key_order, keys_clear, keys_get_index, keys_index_of, keys_insert_full, keys_len, keys_new,
    keys_shift_remove_full,
};

verus! {

/// The position of `k` among `ks` (meaningful when `ks` holds it).
pub open spec fn key_index(ks: Seq<Seq<char>>, k: Seq<char>) -> int {
    choose|i: int| 0 <= i < ks.len() && ks[i] == k
}

/// A key found at some position is found at the one `key_index` picks,
/// when keys are distinct.
pub proof fn lemma_key_index(ks: Seq<Seq<char>>, i: int)
    requires
        ks.no_duplicates(),
        0 <= i < ks.len(),
    ensures
        key_index(ks, ks[i]) == i,
{
    assert(ks.contains(ks[i]));
}

/// A map from string keys, in insertion order, to values, with a default
/// for missing keys.
#[derive(Debug)]
pub struct DefaultMap<V> {
    keys: IndexSet<String>,
    values: Vec<V>,
    default: V,
}

impl<V> DefaultMap<V> {
    /// The keys, in insertion order.
    pub closed spec fn keys_seq(&self) -> Seq<Seq<char>> {
        key_order(self.keys)
    }

    /// The values, in the order of their keys.
    pub closed spec fn values_seq(&self) -> Seq<V> {
        self.values@
    }

    /// The default value.
    pub closed spec fn default_value(&self) -> V {
        self.default
    }

    /// One value per key, keys distinct.
    pub closed spec fn wf(&self) -> bool {
        &&& key_order(self.keys).len() == self.values@.len()
        &&& key_order(self.keys).no_duplicates()
    }

    /// An empty map with the given default.
    pub fn new(default: V) -> (r: Self)
        ensures
            r.wf(),
            r.keys_seq() == Seq::<Seq<char>>::empty(),
            r.values_seq() == Seq::<V>::empty(),
            r.default_value() == default,
    {
        DefaultMap { keys: keys_new(), values: Vec::new(), default }
    }

    /// Removes every key.
    pub fn clear(&mut self)
        ensures
            final(self).wf(),
            final(self).keys_seq() == Seq::<Seq<char>>::empty(),
            final(self).values_seq() == Seq::<V>::empty(),
            final(self).default_value() == old(self).default_value(),
    {
        keys_clear(&mut self.keys);
        self.values.clear();
    }

    /// The number of keys.
    pub fn size(&self) -> (r: usize)
        ensures
            r == self.keys_seq().len(),
    {
        keys_len(&self.keys)
    }

    /// Whether `key` is a key.
    pub fn has(&self, key: &str) -> (r: bool)
        ensures
            r == self.keys_seq().contains(key@),
    {
        keys_index_of(&self.keys, key).is_some()
    }

    /// The value of `key`, if it is a key; the map is unchanged.
    pub fn peek(&self, key: &str) -> (r: Option<&V>)
        requires
            self.wf(),
        ensures
            !self.keys_seq().contains(key@) ==> r is None,
            self.keys_seq().contains(key@) ==> r == Some(&self.values_seq()[key_index(self.keys_seq(), key@)]),
    {
        match keys_index_of(&self.keys, key) {
            Some(i) => {
                proof {
                    lemma_key_index(self.keys_seq(), i as int);
                }
                Some(&self.values[i])
            },
            None => None,
        }
    }

    /// Maps `key` to `value`: in place for a key, or as a new last key.
    pub fn set(&mut self, key: String, value: V)
        requires
            old(self).wf(),
        ensures
            final(self).wf(),
            final(self).default_value() == old(self).default_value(),
            old(self).keys_seq().contains(key@) ==> final(self).keys_seq() == old(self).keys_seq()
                && final(self).values_seq() == old(self).values_seq().update(
                key_index(old(self).keys_seq(), key@),
                value,
            ),
            !old(self).keys_seq().contains(key@) ==> final(self).keys_seq() == old(self).keys_seq().push(key@)
                && final(self).values_seq() == old(self).values_seq().push(value),
    {
        let ghost k = key@;
        let (i, added) = keys_insert_full(&mut self.keys, key);
        if added {
            self.values.push(value);
            proof {
                lemma_push_distinct(old(self).keys_seq(), k);
            }
        } else {
            proof {
                lemma_key_index(old(self).keys_seq(), i as int);
            }
            self.values.set(i, value);
        }
    }

    /// Removes `key`, shifting the later keys down; returns whether it was
    /// a key.
    pub fn delete(&mut self, key: &str) -> (r: bool)
        requires
            old(self).wf(),
        ensures
            final(self).wf(),
            final(self).default_value() == old(self).default_value(),
            r == old(self).keys_seq().contains(key@),
            !r ==> final(self).keys_seq() == old(self).keys_seq() && final(self).values_seq() == old(self).values_seq(),
            r ==> final(self).keys_seq() == old(self).keys_seq().remove(key_index(old(self).keys_seq(), key@))
                && final(self).values_seq() == old(self).values_seq().remove(key_index(old(self).keys_seq(), key@)),
    {
        match keys_shift_remove_full(&mut self.keys, key) {
            Some((i, _)) => {
                proof {
                    lemma_key_index(old(self).keys_seq(), i as int);
                    lemma_remove_distinct(old(self).keys_seq(), i as int);
                }
                self.values.remove(i);
                true
            },
            None => false,
        }
    }

    /// The keys, in insertion order.
    pub fn keys(&self) -> (r: Vec<&String>)
        requires
            self.wf(),
        ensures
            r@.len() == self.keys_seq().len(),
            forall|k: int| 0 <= k < r@.len() ==> (#[trigger] r@[k])@ == self.keys_seq()[k],
    {
        let n = keys_len(&self.keys);
        let mut out: Vec<&String> = Vec::new();
        let mut i: usize = 0;
        while i < n
            invariant
                n == self.keys_seq().len(),
                i <= n,
                out@.len() == i,
                forall|k: int| 0 <= k < i ==> (#[trigger] out@[k])@ == self.keys_seq()[k],
            decreases n - i,
        {
            match keys_get_index(&self.keys, i) {
                Some(k) => out.push(k),
                None => {},
            }
            i = i + 1;
        }
        out
    }

    /// The values, in the order of their keys.
    pub fn values(&self) -> (r: Vec<&V>)
        ensures
            r@.len() == self.values_seq().len(),
            forall|k: int| 0 <= k < r@.len() ==> *r@[k] == self.values_seq()[k],
    {
        let mut out: Vec<&V> = Vec::new();
        let mut i: usize = 0;
        while i < self.values.len()
            invariant
                i <= self.values@.len(),
                out@.len() == i,
                forall|k: int| 0 <= k < i ==> *out@[k] == self.values_seq()[k],
            decreases self.values@.len() - i,
        {
            out.push(&self.values[i]);
            i = i + 1;
        }
        out
    }

    /// The keys with their values, in insertion order.
    pub fn entries(&self) -> (r: Vec<(&String, &V)>)
        requires
            self.wf(),
        ensures
            r@.len() == self.keys_seq().len(),
            forall|k: int| 0 <= k < r@.len() ==> (#[trigger] r@[k]).0@ == self.keys_seq()[k] && *r@[k].1 == self.values_seq()[k],
    {
        let n = self.values.len();
        let mut out: Vec<(&String, &V)> = Vec::new();
        let mut i: usize = 0;
        while i < n
            invariant
                self.wf(),
                n == self.values@.len(),
                i <= n,
                out@.len() == i,
                forall|k: int| 0 <= k < i ==> (#[trigger] out@[k]).0@ == self.keys_seq()[k] && *out@[k].1 == self.values_seq()[k],
            decreases n - i,
        {
            match keys_get_index(&self.keys, i) {
                Some(k) => out.push((k, &self.values[i])),
                None => {},
            }
            i = i + 1;
        }
        out
    }
}

impl<V: Clone> DefaultMap<V> {
    /// The value of `key`; a missing key is first given a copy of the
    /// default as a new last key.
    pub fn get(&mut self, key: String) -> (r: &V)
        requires
            old(self).wf(),
        ensures
            final(self).wf(),
            final(self).default_value() == old(self).default_value(),
            old(self).keys_seq().contains(key@) ==> final(self).keys_seq() == old(self).keys_seq()
                && final(self).values_seq() == old(self).values_seq() && *r == old(self).values_seq()[key_index(
                old(self).keys_seq(),
                key@,
            )],
            !old(self).keys_seq().contains(key@) ==> final(self).keys_seq() == old(self).keys_seq().push(key@)
                && final(self).values_seq().len() == old(self).values_seq().len() + 1
                && final(self).values_seq().drop_last() == old(self).values_seq() && cloned(
                old(self).default_value(),
                final(self).values_seq().last(),
            ) && *r == final(self).values_seq().last(),
    {
        let ghost k = key@;
        let (i, added) = keys_insert_full(&mut self.keys, key);
        if added {
            let d = self.default.clone();
            self.values.push(d);
            proof {
                lemma_push_distinct(old(self).keys_seq(), k);
                assert(self.values@.drop_last() =~= old(self).values@);
            }
        } else {
            proof {
                lemma_key_index(old(self).keys_seq(), i as int);
            }
        }
        &self.values[i]
    }
}

/// Adding a key not yet present keeps the keys distinct.
pub proof fn lemma_push_distinct(ks: Seq<Seq<char>>, k: Seq<char>)
    requires
        ks.no_duplicates(),
        !ks.contains(k),
    ensures
        ks.push(k).no_duplicates(),
{
    let s = ks.push(k);
    assert forall|i: int, j: int| 0 <= i < s.len() && 0 <= j < s.len() && i != j implies s[i] != s[j] by {
        if i == ks.len() {
            assert(ks[j] != k);
        } else if j == ks.len() {
            assert(ks[i] != k);
        }
    }
}

/// Removing a key keeps the keys distinct.
pub proof fn lemma_remove_distinct(ks: Seq<Seq<char>>, i: int)
    requires
        ks.no_duplicates(),
        0 <= i < ks.len(),
    ensures
        ks.remove(i).no_duplicates(),
{
    let s = ks.remove(i);
    assert forall|a: int, b: int| 0 <= a < s.len() && 0 <= b < s.len() && a != b implies s[a] != s[b] by {
        let a1 = if a < i { a } else { a + 1 };
        let b1 = if b < i { b } else { b + 1 };
        assert(s[a] == ks[a1]);
        assert(s[b] == ks[b1]);
    }
}

} // verus!
