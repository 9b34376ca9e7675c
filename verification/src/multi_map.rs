//! A map from string keys to lists, or sets, of string values.
use vstd::prelude::*;
use indexmap::IndexSet;
use crate::default_map::{key_index, lemma_key_index, lemma_push_distinct, lemma_remove_distinct};
use crate::multi_array::{lemma_flatten_len_update, lemma_flatten_take_succ};
use crate::ordered_keys::{
    key_order, keys_clear, keys_get_index, keys_index_of, keys_insert_full, keys_len, keys_new,
    keys_shift_remove_full,
};

verus! {

/// Whether a key keeps every value it is given or each value once.
#[derive(Debug, Clone, Copy, PartialEq, Eq, Structural)]
pub enum MultiMapContainer {
    Vec,
    Distinct,
}

/// The first place of `v` in `c` (meaningful when `c` holds it).
pub open spec fn first_place(c: Seq<Seq<char>>, v: Seq<char>) -> int {
    choose|i: int| 0 <= i < c.len() && c[i] == v && forall|j: int| 0 <= j < i ==> c[j] != v
}

/// Removing one container changes the total count by its length.
pub proof fn lemma_flatten_len_remove<T>(s: Seq<Seq<T>>, i: int)
    requires
        0 <= i < s.len(),
    ensures
        s.remove(i).flatten().len() == s.flatten().len() - s[i].len(),
{
    let a = s.take(i);
    let b = s.skip(i + 1);
    assert(s =~= a + seq![s[i]] + b);
    assert(s.remove(i) =~= a + b);
    vstd::seq_lib::lemma_flatten_concat(a + seq![s[i]], b);
    vstd::seq_lib::lemma_flatten_concat(a, seq![s[i]]);
    vstd::seq_lib::lemma_flatten_concat(a, b);
    seq![s[i]].lemma_flatten_one_element();
}

/// Every value with its key, key by key.
pub open spec fn keyed_values(ks: Seq<Seq<char>>, vs: Seq<Seq<Seq<char>>>) -> Seq<(Seq<char>, Seq<char>)> {
    Seq::new(vs.len(), |i: int| Seq::new(vs[i].len(), |j: int| (ks[i], vs[i][j]))).flatten()
}

/// A map from string keys to the string values given to them.
#[derive(Debug)]
pub struct MultiMap {
    keys: IndexSet<String>,
    containers: Vec<Vec<String>>,
    size: usize,
    container: MultiMapContainer,
}

impl MultiMap {
    /// The keys, in insertion order.
    pub closed spec fn keys_seq(&self) -> Seq<Seq<char>> {
        key_order(self.keys)
    }

    /// The values of each key, in the order of the keys.
    pub closed spec fn values_seq(&self) -> Seq<Seq<Seq<char>>> {
        self.containers@.map_values(|c: Vec<String>| c@.map_values(|s: String| s@))
    }

    /// How the values of a key are kept.
    pub closed spec fn kind(&self) -> MultiMapContainer {
        self.container
    }

    /// One nonempty container per distinct key, and the size counts every
    /// value.
    pub closed spec fn wf(&self) -> bool {
        &&& key_order(self.keys).len() == self.containers@.len()
        &&& key_order(self.keys).no_duplicates()
        &&& forall|i: int| 0 <= i < self.containers@.len() ==> (#[trigger] self.containers@[i])@.len() > 0
        &&& self.size == self.values_seq().flatten().len()
    }

    /// An empty map keeping values as `container` says.
    pub fn new(container: MultiMapContainer) -> (r: Self)
        ensures
            r.wf(),
            r.keys_seq() == Seq::<Seq<char>>::empty(),
            r.values_seq() == Seq::<Seq<Seq<char>>>::empty(),
            r.kind() == container,
    {
        let r = MultiMap { keys: keys_new(), containers: Vec::new(), size: 0, container };
        proof {
            assert(r.values_seq() =~= Seq::<Seq<Seq<char>>>::empty());
        }
        r
    }

    /// Removes every key.
    pub fn clear(&mut self)
        ensures
            final(self).wf(),
            final(self).keys_seq() == Seq::<Seq<char>>::empty(),
            final(self).values_seq() == Seq::<Seq<Seq<char>>>::empty(),
            final(self).kind() == old(self).kind(),
    {
        keys_clear(&mut self.keys);
        self.containers.clear();
        self.size = 0;
        proof {
            assert(self.values_seq() =~= Seq::<Seq<Seq<char>>>::empty());
        }
    }

    /// The number of values over all keys.
    pub fn size(&self) -> (r: usize)
        requires
            self.wf(),
        ensures
            r == self.values_seq().flatten().len(),
    {
        self.size
    }

    /// The number of keys.
    pub fn dimension(&self) -> (r: usize)
        ensures
            r == self.keys_seq().len(),
    {
        keys_len(&self.keys)
    }

    /// Whether `key` is a key.
    pub fn has(&self, key: &str) -> (r: bool)
        ensures
            r == self.keys_seq().contains(key@),
    {
        keys_index_of(&self.keys, key).is_some()
    }

    /// The values of `key`, if it is a key.
    pub fn get(&self, key: &str) -> (r: Option<&[String]>)
        requires
            self.wf(),
        ensures
            !self.keys_seq().contains(key@) ==> r is None,
            self.keys_seq().contains(key@) ==> (r matches Some(c) && c@.map_values(|s: String| s@)
                == self.values_seq()[key_index(self.keys_seq(), key@)]),
    {
        match keys_index_of(&self.keys, key) {
            Some(i) => {
                proof {
                    lemma_key_index(self.keys_seq(), i as int);
                }
                Some(self.containers[i].as_slice())
            },
            None => None,
        }
    }

    /// The number of values of `key`, 0 if it is not a key.
    pub fn multiplicity(&self, key: &str) -> (r: usize)
        requires
            self.wf(),
        ensures
            r == if self.keys_seq().contains(key@) {
                self.values_seq()[key_index(self.keys_seq(), key@)].len()
            } else {
                0
            },
    {
        match keys_index_of(&self.keys, key) {
            Some(i) => {
                proof {
                    lemma_key_index(self.keys_seq(), i as int);
                }
                self.containers[i].len()
            },
            None => 0,
        }
    }

    /// Whether `value` is among the values of `key`.
    pub fn contains(&self, key: &str, value: &String) -> (r: bool)
        requires
            self.wf(),
        ensures
            r == (self.keys_seq().contains(key@) && self.values_seq()[key_index(self.keys_seq(), key@)].contains(
                value@,
            )),
    {
        match keys_index_of(&self.keys, key) {
            Some(i) => {
                proof {
                    lemma_key_index(self.keys_seq(), i as int);
                }
                let found = Self::position(&self.containers[i], value);
                proof {
                    let c = self.containers@[i as int]@.map_values(|s: String| s@);
                    assert(c == self.values_seq()[i as int]);
                    if c.contains(value@) {
                        let j = choose|j: int| 0 <= j < c.len() && c[j] == value@;
                        assert(self.containers@[i as int]@[j]@ == value@);
                    }
                    if found is Some {
                        let j = found->0;
                        assert(c[j as int] == value@);
                    }
                }
                found.is_some()
            },
            None => false,
        }
    }

    /// The first place of `value` in `c`, if any.
    fn position(c: &Vec<String>, value: &String) -> (r: Option<usize>)
        ensures
            r is None ==> forall|j: int| 0 <= j < c@.len() ==> c@[j]@ != value@,
            r matches Some(i) ==> i < c@.len() && c@[i as int]@ == value@ && forall|j: int| 0 <= j < i ==> c@[j]@
                != value@,
    {
        let mut i: usize = 0;
        while i < c.len()
            invariant
                i <= c@.len(),
                forall|j: int| 0 <= j < i ==> c@[j]@ != value@,
            decreases c@.len() - i,
        {
            if c[i] == *value {
                return Some(i);
            }
            i = i + 1;
        }
        None
    }

    /// Gives `key` the value `value`: appended, unless the map keeps sets
    /// and `key` already has it.
    pub fn set(&mut self, key: String, value: String)
        requires
            old(self).wf(),
            old(self).values_seq().flatten().len() < usize::MAX,
        ensures
            final(self).wf(),
            final(self).kind() == old(self).kind(),
            final(self).values_seq().flatten().len() == old(self).values_seq().flatten().len() + if old(self).kind()
                == MultiMapContainer::Distinct && old(self).keys_seq().contains(key@) && old(self).values_seq()[key_index(
                old(self).keys_seq(),
                key@,
            )].contains(value@) {
                0int
            } else {
                1int
            },
            old(self).keys_seq().contains(key@) ==> {
                let p = key_index(old(self).keys_seq(), key@);
                &&& final(self).keys_seq() == old(self).keys_seq()
                &&& final(self).values_seq() == if old(self).kind() == MultiMapContainer::Distinct
                    && old(self).values_seq()[p].contains(value@) {
                    old(self).values_seq()
                } else {
                    old(self).values_seq().update(p, old(self).values_seq()[p].push(value@))
                }
            },
            !old(self).keys_seq().contains(key@) ==> final(self).keys_seq() == old(self).keys_seq().push(key@)
                && final(self).values_seq() == old(self).values_seq().push(seq![value@]),
    {
        let ghost k = key@;
        let ghost vs0 = self.values_seq();
        let (i, added) = keys_insert_full(&mut self.keys, key);
        if added {
            let mut c: Vec<String> = Vec::new();
            let ghost vv = value@;
            c.push(value);
            proof {
                assert(c@.map_values(|s: String| s@) =~= seq![vv]);
            }
            self.containers.push(c);
            self.size = self.size + 1;
            proof {
                lemma_push_distinct(old(self).keys_seq(), k);
                assert(self.values_seq() =~= vs0.push(seq![vv]));
                vs0.lemma_flatten_push(seq![vv]);
            }
            return;
        }
        proof {
            lemma_key_index(old(self).keys_seq(), i as int);
        }
        if self.container == MultiMapContainer::Distinct {
            if Self::position(&self.containers[i], &value).is_some() {
                proof {
                    let c = self.containers@[i as int]@.map_values(|s: String| s@);
                    let j = choose|j: int| 0 <= j < self.containers@[i as int]@.len() && self.containers@[i as int]@[j]@
                        == value@;
                    assert(c[j] == value@);
                }
                return;
            }
            proof {
                let c = self.containers@[i as int]@.map_values(|s: String| s@);
                if c.contains(value@) {
                    let j = choose|j: int| 0 <= j < c.len() && c[j] == value@;
                    assert(self.containers@[i as int]@[j]@ == value@);
                }
            }
        }
        let ghost vv = value@;
        let ghost inner0 = self.containers@[i as int]@;
        self.containers[i].push(value);
        self.size = self.size + 1;
        proof {
            assert(self.containers@[i as int]@ == inner0.push(self.containers@[i as int]@.last()));
            assert(self.containers@[i as int]@.map_values(|s: String| s@) =~= vs0[i as int].push(vv));
            assert(self.values_seq() =~= vs0.update(i as int, vs0[i as int].push(vv)));
            lemma_flatten_len_update(vs0, i as int, vs0[i as int].push(vv));
        }
    }

    /// Removes `key` with all its values; returns whether it was a key.
    pub fn delete(&mut self, key: &str) -> (r: bool)
        requires
            old(self).wf(),
        ensures
            final(self).wf(),
            final(self).kind() == old(self).kind(),
            r == old(self).keys_seq().contains(key@),
            !r ==> final(self).keys_seq() == old(self).keys_seq() && final(self).values_seq() == old(self).values_seq(),
            r ==> final(self).keys_seq() == old(self).keys_seq().remove(key_index(old(self).keys_seq(), key@))
                && final(self).values_seq() == old(self).values_seq().remove(key_index(old(self).keys_seq(), key@)),
    {
        let ghost vs0 = self.values_seq();
        match keys_shift_remove_full(&mut self.keys, key) {
            Some((i, _)) => {
                proof {
                    lemma_key_index(old(self).keys_seq(), i as int);
                    lemma_remove_distinct(old(self).keys_seq(), i as int);
                    lemma_flatten_len_remove(vs0, i as int);
                    vs0.lemma_flatten_length_ge_single_element_length(i as int);
                    vs0.lemma_flatten_and_flatten_alt_are_equivalent();
                }
                let c = self.containers.remove(i);
                self.size = self.size - c.len();
                proof {
                    assert(self.values_seq() =~= vs0.remove(i as int));
                }
                true
            },
            None => false,
        }
    }

    /// Removes the first copy of `value` from the values of `key`, and the
    /// key with its last value; returns whether there was such a value.
    pub fn remove(&mut self, key: &str, value: &String) -> (r: bool)
        requires
            old(self).wf(),
        ensures
            final(self).wf(),
            final(self).kind() == old(self).kind(),
            r == (old(self).keys_seq().contains(key@) && old(self).values_seq()[key_index(
                old(self).keys_seq(),
                key@,
            )].contains(value@)),
            !r ==> final(self).keys_seq() == old(self).keys_seq() && final(self).values_seq() == old(self).values_seq(),
            r ==> {
                let p = key_index(old(self).keys_seq(), key@);
                let c = old(self).values_seq()[p].remove(first_place(old(self).values_seq()[p], value@));
                &&& c.len() > 0 ==> final(self).keys_seq() == old(self).keys_seq() && final(self).values_seq()
                    == old(self).values_seq().update(p, c)
                &&& c.len() == 0 ==> final(self).keys_seq() == old(self).keys_seq().remove(p)
                    && final(self).values_seq() == old(self).values_seq().remove(p)
            },
    {
        let ghost vs0 = self.values_seq();
        let i = match keys_index_of(&self.keys, key) {
            Some(i) => i,
            None => {
                return false;
            },
        };
        proof {
            lemma_key_index(old(self).keys_seq(), i as int);
        }
        let j = match Self::position(&self.containers[i], value) {
            Some(j) => j,
            None => {
                proof {
                    let c = vs0[i as int];
                    if c.contains(value@) {
                        let t = choose|t: int| 0 <= t < c.len() && c[t] == value@;
                        assert(self.containers@[i as int]@[t]@ == value@);
                    }
                }
                return false;
            },
        };
        proof {
            let c = vs0[i as int];
            assert(c[j as int] == value@);
            let fp = first_place(c, value@);
            assert(forall|t: int| 0 <= t < j ==> c[t] != value@);
            assert(0 <= fp < c.len() && c[fp] == value@ && forall|t: int| 0 <= t < fp ==> c[t] != value@);
            assert(fp == j);
            vs0.lemma_flatten_length_ge_single_element_length(i as int);
            vs0.lemma_flatten_and_flatten_alt_are_equivalent();
        }
        let ghost inner0 = self.containers@[i as int]@;
        self.containers[i].remove(j);
        self.size = self.size - 1;
        let ghost c1 = vs0[i as int].remove(j as int);
        proof {
            assert(self.containers@[i as int]@ == inner0.remove(j as int));
            assert(self.containers@[i as int]@.map_values(|s: String| s@) =~= c1);
            assert(self.values_seq() =~= vs0.update(i as int, c1));
            lemma_flatten_len_update(vs0, i as int, c1);
        }
        let ghost cs1 = self.containers@;
        proof {
            assert forall|k: int| 0 <= k < cs1.len() && k != i implies (#[trigger] cs1[k])@.len() > 0 by {
                assert(cs1[k] == old(self).containers@[k]);
            }
        }
        if self.containers[i].len() == 0 {
            let ghost vs1 = self.values_seq();
            let _ = keys_shift_remove_full(&mut self.keys, key);
            self.containers.remove(i);
            proof {
                assert(self.containers@ == cs1.remove(i as int));
                assert forall|k: int| 0 <= k < self.containers@.len() implies (#[trigger] self.containers@[k])@.len() > 0 by {
                    if k < i {
                        assert(self.containers@[k] == cs1[k]);
                    } else {
                        assert(self.containers@[k] == cs1[k + 1]);
                    }
                }
                lemma_remove_distinct(old(self).keys_seq(), i as int);
                lemma_flatten_len_remove(vs1, i as int);
                assert(self.values_seq() =~= vs1.remove(i as int));
                assert(self.values_seq() =~= vs0.remove(i as int));
            }
        }
        proof {
            assert(key_order(self.keys).len() == self.containers@.len());
            assert(key_order(self.keys).no_duplicates());
            assert(self.size == self.values_seq().flatten().len());
            assert(forall|i: int| 0 <= i < self.containers@.len() ==> (#[trigger] self.containers@[i])@.len() > 0);
        }
        true
    }

    /// The keys, in insertion order.
    pub fn keys(&self) -> (r: Vec<&String>)
        requires
            self.wf(),
        ensures
            r@.len() == self.keys_seq().len(),
            forall|k: int| 0 <= k < r@.len() ==> (#[trigger] r@[k])@ == self.keys_seq()[k],
    {
        let n = keys_len(&self.keys);
        let mut out: Vec<&String> = Vec::new();
        let mut i: usize = 0;
        while i < n
            invariant
                n == self.keys_seq().len(),
                i <= n,
                out@.len() == i,
                forall|k: int| 0 <= k < i ==> (#[trigger] out@[k])@ == self.keys_seq()[k],
            decreases n - i,
        {
            match keys_get_index(&self.keys, i) {
                Some(k) => out.push(k),
                None => {},
            }
            i = i + 1;
        }
        out
    }

    /// Every value, key by key.
    pub fn values(&self) -> (r: Vec<&String>)
        requires
            self.wf(),
        ensures
            r@.len() == self.values_seq().flatten().len(),
            forall|k: int| 0 <= k < r@.len() ==> (#[trigger] r@[k])@ == self.values_seq().flatten()[k],
    {
        let ghost s = self.values_seq();
        let mut out: Vec<&String> = Vec::new();
        let mut i: usize = 0;
        while i < self.containers.len()
            invariant
                s == self.values_seq(),
                s.len() == self.containers@.len(),
                i <= s.len(),
                out@.len() == s.take(i as int).flatten().len(),
                forall|k: int| 0 <= k < out@.len() ==> (#[trigger] out@[k])@ == s.take(i as int).flatten()[k],
            decreases s.len() - i,
        {
            let c = &self.containers[i];
            let mut j: usize = 0;
            proof {
                lemma_flatten_take_succ(s, i as int);
            }
            while j < c.len()
                invariant
                    s == self.values_seq(),
                    i < s.len(),
                    c@.map_values(|x: String| x@) == s[i as int],
                    j <= c@.len(),
                    s.take(i + 1).flatten() == s.take(i as int).flatten() + s[i as int],
                    out@.len() == s.take(i as int).flatten().len() + j,
                    forall|k: int| 0 <= k < out@.len() ==> (#[trigger] out@[k])@ == s.take(i + 1).flatten()[k],
                decreases c@.len() - j,
            {
                out.push(&c[j]);
                j = j + 1;
            }
            i = i + 1;
        }
        proof {
            assert(s.take(s.len() as int) =~= s);
        }
        out
    }

    /// Every value with its key, key by key.
    pub fn entries(&self) -> (r: Vec<(&String, &String)>)
        requires
            self.wf(),
        ensures
            r@.len() == keyed_values(self.keys_seq(), self.values_seq()).len(),
            forall|k: int| 0 <= k < r@.len() ==> ((#[trigger] r@[k]).0@, r@[k].1@) == keyed_values(
                self.keys_seq(),
                self.values_seq(),
            )[k],
    {
        let ghost vs = self.values_seq();
        let ghost t = Seq::new(vs.len(), |i: int| Seq::new(vs[i].len(), |j: int| (self.keys_seq()[i], vs[i][j])));
        let mut out: Vec<(&String, &String)> = Vec::new();
        let n = self.containers.len();
        let mut i: usize = 0;
        while i < n
            invariant
                self.wf(),
                n == vs.len(),
                vs == self.values_seq(),
                t == Seq::new(vs.len(), |i: int| Seq::new(vs[i].len(), |j: int| (self.keys_seq()[i], vs[i][j]))),
                i <= n,
                out@.len() == t.take(i as int).flatten().len(),
                forall|k: int| 0 <= k < out@.len() ==> ((#[trigger] out@[k]).0@, out@[k].1@) == t.take(i as int).flatten()[k],
            decreases n - i,
        {
            proof {
                lemma_flatten_take_succ(t, i as int);
            }
            match keys_get_index(&self.keys, i) {
                Some(key) => {
                    let c = &self.containers[i];
                    let mut j: usize = 0;
                    while j < c.len()
                        invariant
                            vs == self.values_seq(),
                            i < n,
                            n == vs.len(),
                            key@ == self.keys_seq()[i as int],
                            c@.map_values(|x: String| x@) == vs[i as int],
                            t == Seq::new(vs.len(), |i: int| Seq::new(vs[i].len(), |j: int| (self.keys_seq()[i], vs[i][j]))),
                            j <= c@.len(),
                            t.take(i + 1).flatten() == t.take(i as int).flatten() + t[i as int],
                            out@.len() == t.take(i as int).flatten().len() + j,
                            forall|k: int| 0 <= k < out@.len() ==> ((#[trigger] out@[k]).0@, out@[k].1@) == t.take(i + 1).flatten()[k],
                        decreases c@.len() - j,
                    {
                        out.push((key, &c[j]));
                        j = j + 1;
                    }
                },
                None => {},
            }
            i = i + 1;
        }
        proof {
            assert(t.take(n as int) =~= t);
        }
        out
    }

    /// Calls `callback` on every value with its key, key by key.
    pub fn for_each<F: Fn(&String, &String)>(&self, callback: F)
        requires
            self.wf(),
            forall|v: &String, k: &String| #[trigger] call_requires(callback, (v, k)),
    {
        let n = self.containers.len();
        let mut i: usize = 0;
        while i < n
            invariant
                self.wf(),
                n == self.containers@.len(),
                forall|v: &String, k: &String| #[trigger] call_requires(callback, (v, k)),
            decreases n - i,
        {
            match keys_get_index(&self.keys, i) {
                Some(key) => {
                    let c = &self.containers[i];
                    let mut j: usize = 0;
                    while j < c.len()
                        invariant
                            forall|v: &String, k: &String| #[trigger] call_requires(callback, (v, k)),
                        decreases c@.len() - j,
                    {
                        callback(&c[j], key);
                        j = j + 1;
                    }
                },
                None => {},
            }
            i = i + 1;
        }
    }

    /// Calls `callback` on the values of every key with the key.
    pub fn for_each_association<F: Fn(&[String], &String)>(&self, callback: F)
        requires
            self.wf(),
            forall|v: &[String], k: &String| #[trigger] call_requires(callback, (v, k)),
    {
        let n = self.containers.len();
        let mut i: usize = 0;
        while i < n
            invariant
                self.wf(),
                n == self.containers@.len(),
                forall|v: &[String], k: &String| #[trigger] call_requires(callback, (v, k)),
            decreases n - i,
        {
            match keys_get_index(&self.keys, i) {
                Some(key) => {
                    callback(self.containers[i].as_slice(), key);
                },
                None => {},
            }
            i = i + 1;
        }
    }

    /// The keys with their values, in insertion order.
    pub fn containers(&self) -> (r: Vec<(&String, &[String])>)
        requires
            self.wf(),
        ensures
            r@.len() == self.keys_seq().len(),
            forall|k: int| 0 <= k < r@.len() ==> (#[trigger] r@[k]).0@ == self.keys_seq()[k] && r@[k].1@.map_values(
                |s: String| s@,
            ) == self.values_seq()[k],
    {
        let n = keys_len(&self.keys);
        let mut out: Vec<(&String, &[String])> = Vec::new();
        let mut i: usize = 0;
        while i < n
            invariant
                self.wf(),
                n == self.keys_seq().len(),
                i <= n,
                out@.len() == i,
                forall|k: int| 0 <= k < i ==> (#[trigger] out@[k]).0@ == self.keys_seq()[k] && out@[k].1@.map_values(
                    |s: String| s@,
                ) == self.values_seq()[k],
            decreases n - i,
        {
            match keys_get_index(&self.keys, i) {
                Some(k) => out.push((k, self.containers[i].as_slice())),
                None => {},
            }
            i = i + 1;
        }
        out
    }

    /// The keys with their values, in insertion order.
    pub fn associations(&self) -> (r: Vec<(&String, &[String])>)
        requires
            self.wf(),
        ensures
            r@.len() == self.keys_seq().len(),
            forall|k: int| 0 <= k < r@.len() ==> (#[trigger] r@[k]).0@ == self.keys_seq()[k] && r@[k].1@.map_values(
                |s: String| s@,
            ) == self.values_seq()[k],
    {
        self.containers()
    }

    /// A map of `items` in turn, keeping every value.
    pub fn from(items: Vec<(String, String)>) -> (r: Self)
        requires
            items@.len() < usize::MAX,
        ensures
            r.wf(),
            r.kind() == MultiMapContainer::Vec,
            r.values_seq().flatten().len() == items@.len(),
    {
        let mut map = Self::new(MultiMapContainer::Vec);
        let n = items.len();
        let mut rest = items;
        let mut tail: Vec<(String, String)> = Vec::new();
        while rest.len() > 0
            invariant
                rest@.len() + tail@.len() == n,
            decreases rest@.len(),
        {
            let v = rest.pop().unwrap();
            tail.push(v);
        }
        while tail.len() > 0
            invariant
                map.wf(),
                map.kind() == MultiMapContainer::Vec,
                map.values_seq().flatten().len() + tail@.len() == n,
                n < usize::MAX,
            decreases tail@.len(),
        {
            let (k, v) = tail.pop().unwrap();
            map.set(k, v);
        }
        map
    }
}

} // verus!
